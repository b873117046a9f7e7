//! The in-memory storage: entries keyed by id, with the queries that derive
//! tips, heights and topological orders from their parent links.
use vstd::prelude::*;
use crate::entry::{Entry, EntryModel, SubtreeModel, SubtreeNode, entry_id, find_subtree, canonical_model, node_views};
use crate::crdt::{digits, enc_text, push_digits, push_text, starts};
use crate::errors::Error;
use crate::order::{views, str_lt, lemma_lt_trans, lemma_lt_total, less_than};

verus! {

/// Whether an entry passed authentication when it was stored.
#[derive(Debug, Clone, Copy, PartialEq, Eq, Structural)]
pub enum VerificationStatus {
    Verified,
    Failed,
}

/// The id of the entry at index `i`.
pub open spec fn sid(s: Seq<EntryModel>, i: int) -> Seq<char> {
    entry_id(s[i])
}

/// Some entry of `s` has id `id`.
pub open spec fn known(s: Seq<EntryModel>, id: Seq<char>) -> bool {
    exists|j: int| 0 <= j < s.len() && sid(s, j) == id
}

/// The parent links of `e` in the main DAG (`sub` is `None`) or in the DAG of
/// subtree `sub`.
pub open spec fn links(e: EntryModel, sub: Option<Seq<char>>) -> Seq<Seq<char>> {
    match sub {
        None => e.parents,
        Some(n) => match find_subtree(e, n) {
            Some(x) => x.parents,
            None => Seq::empty(),
        },
    }
}

/// Every parent that `e` names, in the main DAG or in any subtree, is in `s`.
pub open spec fn parents_known(s: Seq<EntryModel>, e: EntryModel) -> bool {
    forall|sub: Option<Seq<char>>, k: int| 0 <= k < links(e, sub).len() ==> known(s, #[trigger] links(e, sub)[k])
}

/// Every entry's parents were stored before it.
#[verifier::opaque]
pub open spec fn stored_before(s: Seq<EntryModel>) -> bool {
    forall|i: int| 0 <= i < s.len() ==> parents_known(s.subrange(0, i), #[trigger] s[i])
}

/// No two entries share an id.
pub open spec fn unique_ids(s: Seq<EntryModel>) -> bool {
    forall|i: int, j: int| 0 <= i < s.len() && 0 <= j < s.len() && i != j ==> sid(s, i) != sid(s, j)
}

proof fn lemma_push_keeps_order(s: Seq<EntryModel>, e: EntryModel)
    requires
        unique_ids(s),
        stored_before(s),
        parents_known(s, e),
        !known(s, entry_id(e)),
        forall|i: int| 0 <= i < s.len() ==> canonical_model(#[trigger] s[i]),
        canonical_model(e),
    ensures
        unique_ids(s.push(e)),
        stored_before(s.push(e)),
        forall|i: int| 0 <= i < s.len() + 1 ==> canonical_model(#[trigger] s.push(e)[i]),
{
    assert forall|i: int| 0 <= i < s.len() + 1 implies canonical_model(#[trigger] s.push(e)[i]) by {
        if i < s.len() {
            assert(s.push(e)[i] == s[i]);
        }
    }
    reveal(stored_before);
    let t = s.push(e);
    assert forall|i: int, j: int| 0 <= i < t.len() && 0 <= j < t.len() && i != j implies sid(t, i) != sid(t, j) by {
        if i < s.len() && j < s.len() {
            assert(t[i] == s[i] && t[j] == s[j]);
            assert(sid(s, i) != sid(s, j));
        } else if i < s.len() {
            assert(t[i] == s[i]);
            assert(sid(s, i) != entry_id(e));
        } else {
            assert(t[j] == s[j]);
            assert(sid(s, j) != entry_id(e));
        }
    }
    assert forall|i: int| 0 <= i < t.len() implies parents_known(t.subrange(0, i), #[trigger] t[i]) by {
        if i < s.len() {
            assert(t.subrange(0, i) =~= s.subrange(0, i));
            assert(t[i] == s[i]);
        } else {
            assert(t.subrange(0, i) =~= s);
        }
    }
}

/// The entry belongs to the tree rooted at `root`: it names that root or is it.
pub open spec fn in_tree(e: EntryModel, root: Seq<char>) -> bool {
    e.root == root || entry_id(e) == root
}

/// The entry is a node of the DAG in question: the tree, or one of its
/// subtrees.
pub open spec fn member(e: EntryModel, root: Seq<char>, sub: Option<Seq<char>>) -> bool {
    in_tree(e, root) && match sub {
        None => true,
        Some(n) => find_subtree(e, n) is Some,
    }
}

/// The entry at index `i` is a node of the DAG with no child in it: no node
/// of the DAG names it as a parent.
pub open spec fn is_tip(s: Seq<EntryModel>, root: Seq<char>, sub: Option<Seq<char>>, i: int) -> bool {
    &&& member(s[i], root, sub)
    &&& forall|j: int| 0 <= j < s.len() && member(s[j], root, sub) ==> !(#[trigger] links(s[j], sub)).contains(sid(s, i))
}

/// The ids of the tips of a DAG.
pub open spec fn tips_of(s: Seq<EntryModel>, root: Seq<char>, sub: Option<Seq<char>>) -> Set<Seq<char>> {
    Set::new(|x: Seq<char>| exists|i: int| 0 <= i < s.len() && sid(s, i) == x && is_tip(s, root, sub, i))
}

/// Entry `j` is a node of the DAG and entry `i` names it as a parent.
pub open spec fn is_parent(s: Seq<EntryModel>, root: Seq<char>, sub: Option<Seq<char>>, i: int, j: int) -> bool {
    member(s[j], root, sub) && links(s[i], sub).contains(sid(s, j))
}

/// The height of entry `i`: the length of the longest path of parent links
/// from it down to a node with no parent in the DAG.
pub open spec fn height(s: Seq<EntryModel>, root: Seq<char>, sub: Option<Seq<char>>, i: int) -> nat
    decreases i, i + 1,
{
    if i < 0 {
        0
    } else {
        hmax(s, root, sub, i, i)
    }
}

/// One more than the largest height among the parents of `i` stored before
/// index `k`; zero where there is none.
pub open spec fn hmax(s: Seq<EntryModel>, root: Seq<char>, sub: Option<Seq<char>>, i: int, k: int) -> nat
    decreases i, k,
{
    if k <= 0 || k > i {
        0
    } else {
        let rest = hmax(s, root, sub, i, k - 1);
        if is_parent(s, root, sub, i, k - 1) && height(s, root, sub, k - 1) + 1 > rest {
            height(s, root, sub, k - 1) + 1
        } else {
            rest
        }
    }
}

proof fn lemma_hmax(s: Seq<EntryModel>, root: Seq<char>, sub: Option<Seq<char>>, i: int, k: int)
    requires
        0 <= k <= i,
    ensures
        forall|j: int| 0 <= j < k && is_parent(s, root, sub, i, j) ==> height(s, root, sub, j) + 1 <= hmax(s, root, sub, i, k),
        hmax(s, root, sub, i, k) == 0 || exists|j: int| 0 <= j < k && is_parent(s, root, sub, i, j)
            && hmax(s, root, sub, i, k) == height(s, root, sub, j) + 1,
        (forall|j: int| 0 <= j < k ==> !is_parent(s, root, sub, i, j)) ==> hmax(s, root, sub, i, k) == 0,
    decreases k,
{
    if k > 0 {
        lemma_hmax(s, root, sub, i, k - 1);
    }
}

/// Every parent of an entry in the DAG was stored before it.
proof fn lemma_parent_before(s: Seq<EntryModel>, root: Seq<char>, sub: Option<Seq<char>>, i: int, j: int)
    requires
        unique_ids(s),
        stored_before(s),
        0 <= i < s.len(),
        0 <= j < s.len(),
        is_parent(s, root, sub, i, j),
    ensures
        j < i,
{
    reveal(stored_before);
    let ls = links(s[i], sub);
    let k = choose|k: int| 0 <= k < ls.len() && ls[k] == sid(s, j);
    assert(parents_known(s.subrange(0, i), s[i]));
    assert(known(s.subrange(0, i), links(s[i], sub)[k]));
    let w = choose|w: int| 0 <= w < i && sid(s.subrange(0, i), w) == sid(s, j);
    assert(s.subrange(0, i)[w] == s[w]);
    assert(sid(s, w) == sid(s, j));
    if w != j {
        assert(sid(s, w) != sid(s, j));
    }
}

/// The height law: a node with no parent in the DAG has height 0; any other
/// node is one higher than its highest parent.
pub proof fn law_height(s: Seq<EntryModel>, root: Seq<char>, sub: Option<Seq<char>>, i: int)
    requires
        unique_ids(s),
        stored_before(s),
        0 <= i < s.len(),
    ensures
        forall|j: int| 0 <= j < s.len() && is_parent(s, root, sub, i, j) ==> height(s, root, sub, j) + 1 <= height(s, root, sub, i),
        (exists|j: int| 0 <= j < s.len() && is_parent(s, root, sub, i, j)) ==> exists|j: int| 0 <= j < s.len()
            && is_parent(s, root, sub, i, j) && height(s, root, sub, i) == height(s, root, sub, j) + 1,
        (forall|j: int| 0 <= j < s.len() ==> !is_parent(s, root, sub, i, j)) ==> height(s, root, sub, i) == 0,
{
    lemma_hmax(s, root, sub, i, i);
    assert forall|j: int| 0 <= j < s.len() && is_parent(s, root, sub, i, j) implies height(s, root, sub, j) + 1 <= height(
        s,
        root,
        sub,
        i,
    ) by {
        lemma_parent_before(s, root, sub, i, j);
    }
    if exists|j: int| 0 <= j < s.len() && is_parent(s, root, sub, i, j) {
        let j = choose|j: int| 0 <= j < s.len() && is_parent(s, root, sub, i, j);
        lemma_parent_before(s, root, sub, i, j);
        assert(hmax(s, root, sub, i, i) != 0);
    }
}

/// The pair holds the id of a node of the DAG and that node's height.
pub open spec fn is_height_of(s: Seq<EntryModel>, root: Seq<char>, sub: Option<Seq<char>>, p: (String, usize)) -> bool {
    exists|i: int| 0 <= i < s.len() && member(s[i], root, sub) && p.0@ == sid(s, i) && p.1 as nat == height(s, root, sub, i)
}

/// Topological order: by height, then by id.
pub open spec fn topo_lt(s: Seq<EntryModel>, root: Seq<char>, sub: Option<Seq<char>>, a: int, b: int) -> bool {
    ||| height(s, root, sub, a) < height(s, root, sub, b)
    ||| height(s, root, sub, a) == height(s, root, sub, b) && str_lt(sid(s, a), sid(s, b))
}

proof fn lemma_topo_trans(s: Seq<EntryModel>, root: Seq<char>, sub: Option<Seq<char>>, a: int, b: int, c: int)
    requires
        topo_lt(s, root, sub, a, b),
        topo_lt(s, root, sub, b, c),
    ensures
        topo_lt(s, root, sub, a, c),
{
    if height(s, root, sub, a) == height(s, root, sub, b) && height(s, root, sub, b) == height(s, root, sub, c) {
        lemma_lt_trans(sid(s, a), sid(s, b), sid(s, c));
    }
}

proof fn lemma_topo_total(s: Seq<EntryModel>, root: Seq<char>, sub: Option<Seq<char>>, a: int, b: int)
    requires
        unique_ids(s),
        0 <= a < s.len(),
        0 <= b < s.len(),
        a != b,
    ensures
        topo_lt(s, root, sub, a, b) || topo_lt(s, root, sub, b, a),
{
    lemma_lt_total(sid(s, a), sid(s, b));
}

/// The index at which `e` is stored.
pub open spec fn index_in(s: Seq<EntryModel>, e: EntryModel) -> int {
    choose|i: int| 0 <= i < s.len() && s[i] == e
}

/// `e` is stored and is a node of the DAG.
pub open spec fn is_member_entry(s: Seq<EntryModel>, root: Seq<char>, sub: Option<Seq<char>>, e: EntryModel) -> bool {
    exists|i: int| 0 <= i < s.len() && s[i] == e && member(s[i], root, sub)
}

/// `e` is stored, reached from `tips` in the main DAG of the tree, and a
/// node of the DAG in question.
pub open spec fn is_reached_entry(s: Seq<EntryModel>, root: Seq<char>, sub: Option<Seq<char>>, tips: Set<Seq<char>>, e: EntryModel) -> bool {
    exists|i: int| 0 <= i < s.len() && s[i] == e && reach(s, root, None, tips, i) && member(s[i], root, sub)
}

/// `e` is stored, is a node of the DAG, and its flag is set.
pub open spec fn is_kept_entry(s: Seq<EntryModel>, root: Seq<char>, sub: Option<Seq<char>>, keep: Seq<bool>, e: EntryModel) -> bool {
    exists|i: int| 0 <= i < s.len() && s[i] == e && member(s[i], root, sub) && keep[i]
}

/// Entry `i` is a node of the DAG reached from `tips` by following parent
/// links: it is a tip, or a parent of a reached node.
pub open spec fn reach(s: Seq<EntryModel>, root: Seq<char>, sub: Option<Seq<char>>, tips: Set<Seq<char>>, i: int) -> bool
    decreases s.len() - i, s.len() - i,
{
    if i < 0 || i >= s.len() {
        false
    } else {
        member(s[i], root, sub) && (tips.contains(sid(s, i)) || child_reach(s, root, sub, tips, i, i + 1))
    }
}

/// Some reached node at an index from `k` on names entry `i` as a parent.
pub open spec fn child_reach(s: Seq<EntryModel>, root: Seq<char>, sub: Option<Seq<char>>, tips: Set<Seq<char>>, i: int, k: int) -> bool
    decreases s.len() - i, s.len() - k,
{
    if i < 0 || k <= i || k >= s.len() {
        false
    } else {
        (reach(s, root, sub, tips, k) && links(s[k], sub).contains(sid(s, i))) || child_reach(s, root, sub, tips, i, k + 1)
    }
}

pub open spec fn opt_view(sub: Option<&str>) -> Option<Seq<char>> {
    match sub {
        Some(n) => Some(n@),
        None => None,
    }
}

/// A list of texts: its length, a colon, and each text.
pub open spec fn enc_texts(l: Seq<Seq<char>>) -> Seq<char> {
    digits(l.len()) + seq![':'] + enc_texts_body(l)
}

pub open spec fn enc_texts_body(l: Seq<Seq<char>>) -> Seq<char>
    decreases l.len(),
{
    if l.len() == 0 {
        Seq::empty()
    } else {
        enc_texts_body(l.drop_last()) + enc_text(l.last())
    }
}

pub open spec fn enc_opt(o: Option<Seq<char>>) -> Seq<char> {
    match o {
        Some(t) => seq!['S'] + enc_text(t),
        None => seq!['N'],
    }
}

pub open spec fn enc_subtrees_text(s: Seq<SubtreeModel>) -> Seq<char>
    decreases s.len(),
{
    if s.len() == 0 {
        Seq::empty()
    } else {
        enc_subtrees_text(s.drop_last()) + enc_text(s.last().name) + enc_text(s.last().data) + enc_texts(s.last().parents)
    }
}

/// The stored form of one entry with its signature block and status.
pub open spec fn enc_stored(e: EntryModel, sig: (Option<Seq<char>>, Option<Seq<char>>), st: VerificationStatus) -> Seq<char> {
    enc_content(e) + enc_trailer(sig, st)
}

/// The stored form of an entry's content.
pub open spec fn enc_content(e: EntryModel) -> Seq<char> {
    enc_text(e.root) + enc_texts(e.parents) + digits(e.subtrees.len()) + seq![':'] + enc_subtrees_text(e.subtrees)
}

/// The stored form of a signature block and a status.
pub open spec fn enc_trailer(sig: (Option<Seq<char>>, Option<Seq<char>>), st: VerificationStatus) -> Seq<char> {
    enc_opt(sig.0) + enc_opt(sig.1) + (if st == VerificationStatus::Verified {
        seq!['V']
    } else {
        seq!['F']
    })
}

/// The stored form of each entry with its status, in order.
pub open spec fn stored_body(
    es: Seq<EntryModel>,
    sigs: Seq<(Option<Seq<char>>, Option<Seq<char>>)>,
    sts: Seq<VerificationStatus>,
) -> Seq<char>
    decreases es.len(),
{
    if es.len() == 0 || sts.len() != es.len() || sigs.len() != es.len() {
        Seq::empty()
    } else {
        stored_body(es.drop_last(), sigs.drop_last(), sts.drop_last()) + enc_stored(es.last(), sigs.last(), sts.last())
    }
}

/// The stored form of a storage: the number of entries, a colon, and each
/// entry with its signature block and status, in the order stored.
pub open spec fn store_text(m: StoreModel) -> Seq<char> {
    digits(m.entries.len()) + seq![':'] + stored_body(m.entries, m.sigs, m.statuses)
}

/// `a` begins `b`.
pub open spec fn is_prefix(a: Seq<char>, b: Seq<char>) -> bool {
    a.len() <= b.len() && b.subrange(0, a.len() as int) == a
}

proof fn lemma_starts_split(cs: Seq<char>, p: int, a: Seq<char>, c: Seq<char>)
    requires
        starts(cs, p, a + c),
    ensures
        starts(cs, p, a),
        starts(cs, p + a.len(), c),
{
    let w = cs.subrange(p, p + (a + c).len());
    assert(cs.subrange(p, p + a.len()) =~= w.subrange(0, a.len() as int));
    assert(w.subrange(0, a.len() as int) =~= a);
    assert(cs.subrange(p + a.len(), p + a.len() + c.len()) =~= w.subrange(a.len() as int, (a + c).len() as int));
    assert(w.subrange(a.len() as int, (a + c).len() as int) =~= c);
}

proof fn lemma_starts_prefix(cs: Seq<char>, p: int, a: Seq<char>, b: Seq<char>)
    requires
        starts(cs, p, b),
        is_prefix(a, b),
    ensures
        starts(cs, p, a),
{
    assert(cs.subrange(p, p + a.len()) =~= cs.subrange(p, p + b.len()).subrange(0, a.len() as int));
}

proof fn lemma_prefix_trans(a: Seq<char>, b: Seq<char>, c: Seq<char>)
    requires
        is_prefix(a, b),
        is_prefix(b, c),
    ensures
        is_prefix(a, c),
{
    assert(c.subrange(0, a.len() as int) =~= c.subrange(0, b.len() as int).subrange(0, a.len() as int));
}

proof fn lemma_texts_len(l: Seq<Seq<char>>)
    ensures
        enc_texts_body(l).len() >= l.len(),
    decreases l.len(),
{
    if l.len() > 0 {
        lemma_texts_len(l.drop_last());
        crate::crdt::lemma_digits_basic(l.last().len());
    }
}

proof fn lemma_texts_step(l: Seq<Seq<char>>, k: int)
    requires
        0 <= k < l.len(),
    ensures
        enc_texts_body(l.subrange(0, k + 1)) == enc_texts_body(l.subrange(0, k)) + enc_text(l[k]),
{
    assert(l.subrange(0, k + 1).drop_last() =~= l.subrange(0, k));
}

proof fn lemma_texts_prefix(l: Seq<Seq<char>>, k: int)
    requires
        0 <= k <= l.len(),
    ensures
        is_prefix(enc_texts_body(l.subrange(0, k)), enc_texts_body(l)),
    decreases l.len() - k,
{
    if k == l.len() {
        assert(l.subrange(0, k) =~= l);
        assert(enc_texts_body(l).subrange(0, enc_texts_body(l).len() as int) =~= enc_texts_body(l));
    } else {
        lemma_texts_prefix(l, k + 1);
        lemma_texts_step(l, k);
        let a = enc_texts_body(l.subrange(0, k));
        let b = enc_texts_body(l.subrange(0, k + 1));
        assert(b.subrange(0, a.len() as int) =~= a);
        lemma_prefix_trans(a, b, enc_texts_body(l));
    }
}

proof fn lemma_subtrees_step(t: Seq<SubtreeModel>, k: int)
    requires
        0 <= k < t.len(),
    ensures
        enc_subtrees_text(t.subrange(0, k + 1)) == enc_subtrees_text(t.subrange(0, k)) + enc_text(t[k].name) + enc_text(
            t[k].data,
        ) + enc_texts(t[k].parents),
{
    assert(t.subrange(0, k + 1).drop_last() =~= t.subrange(0, k));
}

proof fn lemma_subtrees_prefix(t: Seq<SubtreeModel>, k: int)
    requires
        0 <= k <= t.len(),
    ensures
        is_prefix(enc_subtrees_text(t.subrange(0, k)), enc_subtrees_text(t)),
    decreases t.len() - k,
{
    if k == t.len() {
        assert(t.subrange(0, k) =~= t);
        assert(enc_subtrees_text(t).subrange(0, enc_subtrees_text(t).len() as int) =~= enc_subtrees_text(t));
    } else {
        lemma_subtrees_prefix(t, k + 1);
        lemma_subtrees_step(t, k);
        let a = enc_subtrees_text(t.subrange(0, k));
        let b = enc_subtrees_text(t.subrange(0, k + 1));
        assert(b.subrange(0, a.len() as int) =~= a);
        lemma_prefix_trans(a, b, enc_subtrees_text(t));
    }
}

proof fn lemma_stored_step(
    es: Seq<EntryModel>,
    sigs: Seq<(Option<Seq<char>>, Option<Seq<char>>)>,
    sts: Seq<VerificationStatus>,
    k: int,
)
    requires
        0 <= k < es.len(),
        sigs.len() == es.len(),
        sts.len() == es.len(),
    ensures
        stored_body(es.subrange(0, k + 1), sigs.subrange(0, k + 1), sts.subrange(0, k + 1)) == stored_body(
            es.subrange(0, k),
            sigs.subrange(0, k),
            sts.subrange(0, k),
        ) + enc_stored(es[k], sigs[k], sts[k]),
{
    assert(es.subrange(0, k + 1).drop_last() =~= es.subrange(0, k));
    assert(sigs.subrange(0, k + 1).drop_last() =~= sigs.subrange(0, k));
    assert(sts.subrange(0, k + 1).drop_last() =~= sts.subrange(0, k));
}

proof fn lemma_stored_prefix(
    es: Seq<EntryModel>,
    sigs: Seq<(Option<Seq<char>>, Option<Seq<char>>)>,
    sts: Seq<VerificationStatus>,
    k: int,
)
    requires
        0 <= k <= es.len(),
        sigs.len() == es.len(),
        sts.len() == es.len(),
    ensures
        is_prefix(stored_body(es.subrange(0, k), sigs.subrange(0, k), sts.subrange(0, k)), stored_body(es, sigs, sts)),
    decreases es.len() - k,
{
    if k == es.len() {
        assert(es.subrange(0, k) =~= es);
        assert(sigs.subrange(0, k) =~= sigs);
        assert(sts.subrange(0, k) =~= sts);
        let b = stored_body(es, sigs, sts);
        assert(b.subrange(0, b.len() as int) =~= b);
    } else {
        lemma_stored_prefix(es, sigs, sts, k + 1);
        lemma_stored_step(es, sigs, sts, k);
        let a = stored_body(es.subrange(0, k), sigs.subrange(0, k), sts.subrange(0, k));
        let b = stored_body(es.subrange(0, k + 1), sigs.subrange(0, k + 1), sts.subrange(0, k + 1));
        assert(b.subrange(0, a.len() as int) =~= a);
        lemma_prefix_trans(a, b, stored_body(es, sigs, sts));
    }
}

proof fn lemma_subtrees_len(t: Seq<SubtreeModel>)
    ensures
        enc_subtrees_text(t).len() >= t.len(),
    decreases t.len(),
{
    if t.len() > 0 {
        lemma_subtrees_len(t.drop_last());
        crate::crdt::lemma_digits_basic(t.last().name.len());
    }
}

/// The stored form of `e` with `g` and `st` stands at `pos`, and `e` is in
/// canonical form.
pub open spec fn entry_at(
    cs: Seq<char>,
    pos: int,
    e: EntryModel,
    g: (Option<Seq<char>>, Option<Seq<char>>),
    st: VerificationStatus,
) -> bool {
    starts(cs, pos, enc_stored(e, g, st)) && canonical_model(e)
}

/// The stored form of one subtree: name, payload, parents.
pub open spec fn subtree_item(t: SubtreeModel) -> Seq<char> {
    enc_text(t.name) + enc_text(t.data) + enc_texts(t.parents)
}

spec fn off_parents(pos: int, e: EntryModel) -> int {
    pos + enc_text(e.root).len()
}

spec fn off_count(pos: int, e: EntryModel) -> int {
    off_parents(pos, e) + enc_texts(e.parents).len()
}

spec fn off_subs(pos: int, e: EntryModel) -> int {
    off_count(pos, e) + digits(e.subtrees.len()).len() + 1
}

spec fn off_key(pos: int, e: EntryModel) -> int {
    off_subs(pos, e) + enc_subtrees_text(e.subtrees).len()
}

spec fn off_sig(pos: int, e: EntryModel, g: (Option<Seq<char>>, Option<Seq<char>>)) -> int {
    off_key(pos, e) + enc_opt(g.0).len()
}

spec fn off_status(pos: int, e: EntryModel, g: (Option<Seq<char>>, Option<Seq<char>>)) -> int {
    off_sig(pos, e, g) + enc_opt(g.1).len()
}

proof fn lemma_entry_layout(
    cs: Seq<char>,
    pos: int,
    e: EntryModel,
    g: (Option<Seq<char>>, Option<Seq<char>>),
    st: VerificationStatus,
)
    requires
        starts(cs, pos, enc_stored(e, g, st)),
    ensures
        starts(cs, pos, enc_text(e.root)),
        starts(cs, off_parents(pos, e), enc_texts(e.parents)),
        crate::crdt::num_at(cs, off_count(pos, e), e.subtrees.len()),
        e.subtrees.len() <= cs.len(),
        cs[off_count(pos, e) + digits(e.subtrees.len()).len()] == ':',
        starts(cs, off_subs(pos, e), enc_subtrees_text(e.subtrees)),
        starts(cs, off_key(pos, e), enc_opt(g.0)),
        starts(cs, off_sig(pos, e, g), enc_opt(g.1)),
        off_status(pos, e, g) < cs.len(),
        cs[off_status(pos, e, g)] == (if st == VerificationStatus::Verified {
            'V'
        } else {
            'F'
        }),
        off_status(pos, e, g) + 1 == pos + enc_stored(e, g, st).len(),
{
    let d = digits(e.subtrees.len());
    let sc = if st == VerificationStatus::Verified {
        seq!['V']
    } else {
        seq!['F']
    };
    let a1 = enc_text(e.root);
    let a2 = enc_texts(e.parents);
    let a4 = enc_subtrees_text(e.subtrees);
    lemma_starts_split(cs, pos, enc_content(e), enc_trailer(g, st));
    lemma_starts_split(cs, pos, a1 + a2 + d + seq![':'], a4);
    lemma_starts_split(cs, pos, a1 + a2 + d, seq![':']);
    lemma_starts_split(cs, pos, a1 + a2, d);
    lemma_starts_split(cs, pos, a1, a2);
    let t0 = pos + enc_content(e).len();
    lemma_starts_split(cs, t0, enc_opt(g.0) + enc_opt(g.1), sc);
    lemma_starts_split(cs, t0, enc_opt(g.0), enc_opt(g.1));
    let c = off_count(pos, e);
    assert(cs[c + d.len()] == cs.subrange(c + d.len(), c + d.len() + 1)[0]);
    assert(cs[off_status(pos, e, g)] == cs.subrange(off_status(pos, e, g), off_status(pos, e, g) + 1)[0]);
    lemma_subtrees_len(e.subtrees);
}

/// A storage content that a well-formed storage can have: one status and
/// one signature block per entry, distinct ids, parents stored first, and
/// every entry in canonical form.
pub open spec fn valid_store(sm: StoreModel) -> bool {
    &&& sm.statuses.len() == sm.entries.len()
    &&& sm.sigs.len() == sm.entries.len()
    &&& unique_ids(sm.entries)
    &&& stored_before(sm.entries)
    &&& forall|i: int| 0 <= i < sm.entries.len() ==> canonical_model(#[trigger] sm.entries[i])
}

/// The first `k` entries of a storage content.
pub open spec fn prefix_store(sm: StoreModel, k: int) -> StoreModel {
    StoreModel {
        entries: sm.entries.subrange(0, k),
        statuses: sm.statuses.subrange(0, k),
        sigs: sm.sigs.subrange(0, k),
    }
}

proof fn lemma_stored_len(
    es: Seq<EntryModel>,
    sigs: Seq<(Option<Seq<char>>, Option<Seq<char>>)>,
    sts: Seq<VerificationStatus>,
)
    requires
        sigs.len() == es.len(),
        sts.len() == es.len(),
    ensures
        stored_body(es, sigs, sts).len() >= es.len(),
    decreases es.len(),
{
    if es.len() > 0 {
        lemma_stored_len(es.drop_last(), sigs.drop_last(), sts.drop_last());
    }
}

/// The index at which the entry with id `x` is stored.
pub open spec fn id_index(s: Seq<EntryModel>, x: Seq<char>) -> int {
    choose|i: int| 0 <= i < s.len() && sid(s, i) == x
}

proof fn lemma_id_index(s: Seq<EntryModel>, i: int)
    requires
        unique_ids(s),
        0 <= i < s.len(),
    ensures
        id_index(s, sid(s, i)) == i,
{
    let c = id_index(s, sid(s, i));
    assert(0 <= c < s.len() && sid(s, c) == sid(s, i));
    if c != i {
        assert(sid(s, c) != sid(s, i));
    }
}

/// The content of the storage: entries in the order they were stored, and
/// the verification status of each.
pub struct StoreModel {
    pub entries: Seq<EntryModel>,
    pub statuses: Seq<VerificationStatus>,
    /// the signature block of each entry
    pub sigs: Seq<(Option<Seq<char>>, Option<Seq<char>>)>,
}

/// An in-memory storage of entries.
#[derive(Debug)]
pub struct InMemory {
    entries: Vec<Entry>,
    ids: Vec<String>,
    statuses: Vec<VerificationStatus>,
}

impl View for InMemory {
    type V = StoreModel;

    closed spec fn view(&self) -> StoreModel {
        StoreModel {
            entries: self.entries@.map_values(|e: Entry| e@),
            statuses: self.statuses@,
            sigs: self.entries@.map_values(|e: Entry| e.spec_sig()),
        }
    }
}

fn contains_str(v: &Vec<String>, x: &String) -> (r: bool)
    ensures
        r == views(v@).contains(x@),
{
    let mut i: usize = 0;
    while i < v.len()
        invariant
            i <= v@.len(),
            forall|j: int| 0 <= j < i ==> (#[trigger] v@[j])@ != x@,
        decreases v@.len() - i,
    {
        if v[i] == *x {
            assert(views(v@)[i as int] == x@);
            return true;
        }
        i = i + 1;
    }
    proof {
        if views(v@).contains(x@) {
            let j = choose|j: int| 0 <= j < views(v@).len() && views(v@)[j] == x@;
            assert(v@[j]@ == x@);
        }
    }
    false
}

impl InMemory {
    /// The storage's own invariant.
    pub closed spec fn wf(&self) -> bool {
        &&& self.entries@.len() == self.ids@.len()
        &&& self.entries@.len() == self.statuses@.len()
        &&& forall|i: int| 0 <= i < self.ids@.len() ==> (#[trigger] self.ids@[i])@ == entry_id(self.entries@[i]@)
        &&& unique_ids(self@.entries)
        &&& stored_before(self@.entries)
        &&& forall|i: int| 0 <= i < self@.entries.len() ==> canonical_model(#[trigger] self@.entries[i])
    }

    proof fn lemma_view(&self)
        requires
            self.wf(),
        ensures
            self@.entries.len() == self.entries@.len(),
            self@.statuses.len() == self.entries@.len(),
            forall|i: int| 0 <= i < self.entries@.len() ==> #[trigger] self@.entries[i] == self.entries@[i]@,
            forall|i: int| 0 <= i < self.entries@.len() ==> #[trigger] sid(self@.entries, i) == self.ids@[i]@,
    {
    }

    /// An empty storage.
    pub fn new() -> (r: InMemory)
        ensures
            r.wf(),
            r@.entries.len() == 0,
            r@.statuses.len() == 0,
            r@.sigs.len() == 0,
    {
        let r = InMemory { entries: Vec::new(), ids: Vec::new(), statuses: Vec::new() };
        assert(r@.entries =~= Seq::<EntryModel>::empty());
        proof {
            reveal(stored_before);
        }
        r
    }

    /// The index of the entry with id `id`.
    fn index_of(&self, id: &String) -> (r: Option<usize>)
        requires
            self.wf(),
        ensures
            match r {
                Some(i) => i < self@.entries.len() && sid(self@.entries, i as int) == id@,
                None => !known(self@.entries, id@),
            },
    {
        proof {
            self.lemma_view();
        }
        let mut i: usize = 0;
        while i < self.ids.len()
            invariant
                self.wf(),
                i <= self.ids@.len(),
                forall|j: int| 0 <= j < i ==> (#[trigger] self.ids@[j])@ != id@,
            decreases self.ids@.len() - i,
        {
            if self.ids[i] == *id {
                proof {
                    self.lemma_view();
                }
                return Some(i);
            }
            i = i + 1;
        }
        proof {
            self.lemma_view();
            if known(self@.entries, id@) {
                let j = choose|j: int| 0 <= j < self@.entries.len() && sid(self@.entries, j) == id@;
                assert(self.ids@[j]@ == id@);
            }
        }
        None
    }

    /// Whether every id in `v` is stored.
    fn all_known(&self, v: &Vec<String>) -> (r: bool)
        requires
            self.wf(),
        ensures
            r == forall|k: int| 0 <= k < v@.len() ==> known(self@.entries, #[trigger] views(v@)[k]),
    {
        let mut i: usize = 0;
        while i < v.len()
            invariant
                self.wf(),
                i <= v@.len(),
                forall|k: int| 0 <= k < i ==> known(self@.entries, #[trigger] views(v@)[k]),
            decreases v@.len() - i,
        {
            if self.index_of(&v[i]).is_none() {
                assert(!known(self@.entries, views(v@)[i as int]));
                return false;
            }
            i = i + 1;
        }
        true
    }

    /// Whether every parent that `e` names is stored.
    fn parents_stored(&self, e: &Entry) -> (r: bool)
        requires
            self.wf(),
        ensures
            r == parents_known(self@.entries, e@),
    {
        let ghost s = self@.entries;
        let ps0 = e.parents();
        if !self.all_known(ps0) {
            proof {
                let k = choose|k: int| 0 <= k < views(ps0@).len() && !known(s, #[trigger] views(ps0@)[k]);
                assert(links(e@, None)[k] == views(ps0@)[k]);
            }
            return false;
        }
        let names = e.subtrees();
        let mut t: usize = 0;
        while t < names.len()
            invariant
                self.wf(),
                s == self@.entries,
                t <= names@.len(),
                views(names@) == crate::entry::subtree_names(e@.subtrees),
                forall|k: int| 0 <= k < links(e@, None).len() ==> known(s, #[trigger] links(e@, None)[k]),
                forall|u: int, k: int| 0 <= u < t && 0 <= k < links(e@, Some(names@[u]@)).len() ==> known(s, #[trigger] links(e@, Some(names@[u]@))[k]),
            decreases names@.len() - t,
        {
            match e.subtree_parents(names[t].as_str()) {
                Some(ps) => {
                    if !self.all_known(ps) {
                        proof {
                            let k = choose|k: int| 0 <= k < views(ps@).len() && !known(s, #[trigger] views(ps@)[k]);
                            assert(links(e@, Some(names@[t as int]@))[k] == views(ps@)[k]);
                        }
                        return false;
                    }
                    proof {
                        assert forall|k: int| 0 <= k < links(e@, Some(names@[t as int]@)).len() implies known(s, #[trigger] links(e@, Some(names@[t as int]@))[k]) by {
                            assert(links(e@, Some(names@[t as int]@))[k] == views(ps@)[k]);
                        }
                    }
                },
                None => {},
            }
            t = t + 1;
        }
        proof {
            assert forall|sub: Option<Seq<char>>, k: int| 0 <= k < links(e@, sub).len() implies known(s, #[trigger] links(e@, sub)[k]) by {
                if let Some(n) = sub {
                    let m = e@;
                    if find_subtree(m, n) is Some {
                        let c = choose|c: int| 0 <= c < m.subtrees.len() && (#[trigger] m.subtrees[c]).name == n;
                        assert(crate::entry::subtree_names(m.subtrees).len() == m.subtrees.len());
                        assert(views(names@).len() == names@.len());
                        assert(crate::entry::subtree_names(m.subtrees)[c] == n);
                        assert(views(names@)[c] == names@[c]@);
                        assert(names@[c]@ == n);
                        assert(c < t);
                        assert(links(e@, Some(names@[c]@)) == links(e@, sub));
                    }
                }
            }
        }
        true
    }

    /// Stores `entry` with verification status `status`. Every parent the
    /// entry names must be stored already, else nothing changes and the
    /// result is `MissingParent`. An entry whose id is stored already is kept
    /// as it was; only its status is updated.
    #[verifier::rlimit(40)]
    pub fn put(&mut self, status: VerificationStatus, entry: Entry) -> (r: Result<(), Error>)
        requires
            old(self).wf(),
        ensures
            final(self).wf(),
            r is Ok <==> parents_known(old(self)@.entries, entry@),
            r is Err ==> (r matches Err(Error::MissingParent { .. })) && final(self)@ == old(self)@,
            r is Ok && known(old(self)@.entries, entry_id(entry@)) ==> final(self)@.entries == old(self)@.entries
                && final(self)@.sigs == old(self)@.sigs && forall|i: int| 0 <= i < old(self)@.entries.len() && sid(old(self)@.entries, i) == entry_id(entry@)
                    ==> final(self)@.statuses == old(self)@.statuses.update(i, status),
            r is Ok && !known(old(self)@.entries, entry_id(entry@)) ==> final(self)@.entries == old(self)@.entries.push(entry@)
                && final(self)@.statuses == old(self)@.statuses.push(status) && final(self)@.sigs == old(self)@.sigs.push(
                entry.spec_sig(),
            ),
    {
        proof {
            self.lemma_view();
        }
        let ghost esig = entry.spec_sig();
        let id = entry.id();
        if !self.parents_stored(&entry) {
            return Err(Error::MissingParent { id });
        }
        match self.index_of(&id) {
            Some(i) => {
                self.statuses.set(i, status);
                proof {
                    self.lemma_view();
                    assert(self@.entries =~= old(self)@.entries);
                    assert(self@.sigs =~= old(self)@.sigs);
                    assert forall|j: int| 0 <= j < old(self)@.entries.len() && sid(old(self)@.entries, j) == entry_id(entry@)
                        implies final(self)@.statuses == old(self)@.statuses.update(j, status) by {
                        if j != i {
                            assert(sid(old(self)@.entries, i as int) == entry_id(entry@));
                        }
                    }
                }
                Ok(())
            },
            None => {
                let ghost olds = old(self)@.entries;
                self.entries.push(entry);
                self.ids.push(id);
                self.statuses.push(status);
                proof {
                    assert(self@.entries =~= olds.push(entry@));
                    assert(self@.sigs =~= old(self)@.sigs.push(esig));
                    assert forall|i: int| 0 <= i < self.ids@.len() implies (#[trigger] self.ids@[i])@ == entry_id(self.entries@[i]@) by {
                        if i < olds.len() {
                            assert(self.ids@[i] == old(self).ids@[i]);
                            assert(self.entries@[i] == old(self).entries@[i]);
                        }
                    }
                    lemma_push_keeps_order(olds, entry@);
                }
                Ok(())
            },
        }
    }

    /// Stores `entry` as verified.
    pub fn put_verified(&mut self, entry: Entry) -> (r: Result<(), Error>)
        requires
            old(self).wf(),
        ensures
            final(self).wf(),
            r is Ok <==> parents_known(old(self)@.entries, entry@),
            r is Err ==> final(self)@ == old(self)@,
            r is Ok && !known(old(self)@.entries, entry_id(entry@)) ==> final(self)@.entries == old(self)@.entries.push(entry@)
                && final(self)@.statuses == old(self)@.statuses.push(VerificationStatus::Verified),
            r is Ok && known(old(self)@.entries, entry_id(entry@)) ==> final(self)@.entries == old(self)@.entries,
    {
        self.put(VerificationStatus::Verified, entry)
    }

    /// Stores `entry` as having failed verification.
    pub fn put_unverified(&mut self, entry: Entry) -> (r: Result<(), Error>)
        requires
            old(self).wf(),
        ensures
            final(self).wf(),
            r is Ok <==> parents_known(old(self)@.entries, entry@),
            r is Err ==> final(self)@ == old(self)@,
            r is Ok && !known(old(self)@.entries, entry_id(entry@)) ==> final(self)@.entries == old(self)@.entries.push(entry@)
                && final(self)@.statuses == old(self)@.statuses.push(VerificationStatus::Failed),
            r is Ok && known(old(self)@.entries, entry_id(entry@)) ==> final(self)@.entries == old(self)@.entries,
    {
        self.put(VerificationStatus::Failed, entry)
    }

    /// The entry with id `id`.
    pub fn get(&self, id: &str) -> (r: Result<&Entry, Error>)
        requires
            self.wf(),
        ensures
            r is Ok <==> known(self@.entries, id@),
            r matches Ok(e) ==> exists|i: int| 0 <= i < self@.entries.len() && sid(self@.entries, i) == id@ && self@.entries[i] == e@,
            r is Err ==> r matches Err(Error::NotFound { .. }),
    {
        let key = id.to_owned();
        match self.index_of(&key) {
            Some(i) => {
                proof {
                    self.lemma_view();
                }
                Ok(&self.entries[i])
            },
            None => Err(Error::NotFound { id: key }),
        }
    }

    /// The verification status of the entry with id `id`.
    pub fn get_verification_status(&self, id: &str) -> (r: Result<VerificationStatus, Error>)
        requires
            self.wf(),
        ensures
            r is Ok <==> known(self@.entries, id@),
            r matches Ok(st) ==> exists|i: int| 0 <= i < self@.entries.len() && sid(self@.entries, i) == id@ && self@.statuses[i] == st,
            r is Err ==> r matches Err(Error::NotFound { .. }),
    {
        let key = id.to_owned();
        match self.index_of(&key) {
            Some(i) => {
                proof {
                    self.lemma_view();
                }
                Ok(self.statuses[i])
            },
            None => Err(Error::NotFound { id: key }),
        }
    }

    /// Sets the verification status of the entry with id `id`.
    pub fn update_verification_status(&mut self, id: &str, status: VerificationStatus) -> (r: Result<(), Error>)
        requires
            old(self).wf(),
        ensures
            final(self).wf(),
            r is Ok <==> known(old(self)@.entries, id@),
            r is Err ==> (r matches Err(Error::NotFound { .. })) && final(self)@ == old(self)@,
            final(self)@.entries == old(self)@.entries,
            forall|i: int| 0 <= i < old(self)@.entries.len() && sid(old(self)@.entries, i) == id@
                ==> final(self)@.statuses == old(self)@.statuses.update(i, status),
    {
        proof {
            self.lemma_view();
        }
        let key = id.to_owned();
        match self.index_of(&key) {
            Some(i) => {
                self.statuses.set(i, status);
                proof {
                    self.lemma_view();
                    assert(self@.entries =~= old(self)@.entries);
                    assert forall|j: int| 0 <= j < old(self)@.entries.len() && sid(old(self)@.entries, j) == id@
                        implies final(self)@.statuses == old(self)@.statuses.update(j, status) by {
                        if j != i {
                            assert(sid(old(self)@.entries, i as int) == id@);
                        }
                    }
                }
                Ok(())
            },
            None => Err(Error::NotFound { id: key }),
        }
    }

    /// The ids of the entries whose flag is set, in the order they were
    /// stored.
    fn collect_ids(&self, flags: &Vec<bool>) -> (r: Vec<String>)
        requires
            self.wf(),
            flags@.len() == self@.entries.len(),
        ensures
            views(r@).no_duplicates(),
            forall|x: Seq<char>| views(r@).contains(x) <==> exists|i: int| 0 <= i < flags@.len() && flags@[i] && sid(self@.entries, i) == x,
            forall|a: int, b: int| 0 <= a < b < r@.len() ==> id_index(self@.entries, (#[trigger] r@[a])@) < id_index(
                self@.entries,
                (#[trigger] r@[b])@,
            ),
    {
        proof {
            self.lemma_view();
        }
        let ghost s = self@.entries;
        let mut r: Vec<String> = Vec::new();
        let ghost mut idx: Seq<int> = Seq::empty();
        let mut i: usize = 0;
        while i < flags.len()
            invariant
                s == self@.entries,
                self.ids@.len() == s.len(),
                forall|j: int| 0 <= j < s.len() ==> #[trigger] sid(s, j) == self.ids@[j]@,
                flags@.len() == s.len(),
                i <= s.len(),
                r@.len() == idx.len(),
                forall|k: int| 0 <= k < idx.len() ==> 0 <= #[trigger] idx[k] < i && flags@[idx[k]] && r@[k]@ == sid(s, idx[k]),
                forall|k: int, l: int| 0 <= k < l < idx.len() ==> #[trigger] idx[k] < #[trigger] idx[l],
                forall|j: int| 0 <= j < i && flags@[j] ==> exists|k: int| 0 <= k < idx.len() && #[trigger] idx[k] == j,
            decreases s.len() - i,
        {
            if flags[i] {
                r.push(self.ids[i].clone());
                proof {
                    let old_idx = idx;
                    idx = idx.push(i as int);
                    assert forall|j: int| 0 <= j < i + 1 && flags@[j] implies exists|k: int| 0 <= k < idx.len() && #[trigger] idx[k] == j by {
                        if j == i {
                            assert(idx[idx.len() - 1] == j);
                        } else {
                            let k = choose|k: int| 0 <= k < old_idx.len() && #[trigger] old_idx[k] == j;
                            assert(idx[k] == old_idx[k]);
                        }
                    }
                    assert forall|k: int| 0 <= k < idx.len() implies 0 <= #[trigger] idx[k] < i + 1 && flags@[idx[k]] && r@[k]@ == sid(s, idx[k]) by {
                        if k < old_idx.len() {
                            assert(idx[k] == old_idx[k]);
                        }
                    }
                    assert forall|k: int, l: int| 0 <= k < l < idx.len() implies #[trigger] idx[k] < #[trigger] idx[l] by {
                        if l < old_idx.len() {
                            assert(idx[k] == old_idx[k] && idx[l] == old_idx[l]);
                        } else {
                            assert(idx[k] == old_idx[k]);
                        }
                    }
                }
            }
            i = i + 1;
        }
        proof {
            assert forall|k: int, l: int| 0 <= k < views(r@).len() && 0 <= l < views(r@).len() && k != l implies views(r@)[k] != views(r@)[l] by {
                if k < l {
                    assert(idx[k] < idx[l]);
                } else {
                    assert(idx[l] < idx[k]);
                }
            }
            assert forall|x: Seq<char>| views(r@).contains(x) <==> exists|i: int| 0 <= i < flags@.len() && flags@[i] && sid(s, i) == x by {
                if views(r@).contains(x) {
                    let k = choose|k: int| 0 <= k < views(r@).len() && views(r@)[k] == x;
                    assert(idx[k] >= 0);
                    assert(sid(s, idx[k]) == x);
                }
                if exists|i: int| 0 <= i < flags@.len() && flags@[i] && sid(s, i) == x {
                    let j = choose|j: int| 0 <= j < flags@.len() && flags@[j] && sid(s, j) == x;
                    let k = choose|k: int| 0 <= k < idx.len() && #[trigger] idx[k] == j;
                    assert(views(r@)[k] == x);
                }
            }
            assert forall|a: int, b: int| 0 <= a < b < r@.len() implies id_index(s, (#[trigger] r@[a])@) < id_index(
                s,
                (#[trigger] r@[b])@,
            ) by {
                lemma_id_index(s, idx[a]);
                lemma_id_index(s, idx[b]);
                assert(idx[a] < idx[b]);
            }
        }
        r
    }

    /// The ids of the entries whose status is `status`, in the order they were
    /// stored.
    pub fn get_entries_by_verification_status(&self, status: VerificationStatus) -> (r: Vec<String>)
        requires
            self.wf(),
        ensures
            views(r@).no_duplicates(),
            forall|x: Seq<char>| views(r@).contains(x) <==> exists|i: int| 0 <= i < self@.entries.len()
                && sid(self@.entries, i) == x && self@.statuses[i] == status,
    {
        proof {
            self.lemma_view();
        }
        let mut flags: Vec<bool> = Vec::new();
        let mut i: usize = 0;
        while i < self.statuses.len()
            invariant
                self.wf(),
                i <= self.statuses@.len(),
                flags@.len() == i,
                forall|j: int| 0 <= j < i ==> flags@[j] == (self@.statuses[j] == status),
            decreases self.statuses@.len() - i,
        {
            flags.push(self.statuses[i] == status);
            i = i + 1;
        }
        let r = self.collect_ids(&flags);
        proof {
            assert forall|x: Seq<char>| views(r@).contains(x) <==> exists|i: int| 0 <= i < self@.entries.len()
                && sid(self@.entries, i) == x && self@.statuses[i] == status by {
                if views(r@).contains(x) {
                    let j = choose|j: int| 0 <= j < flags@.len() && flags@[j] && sid(self@.entries, j) == x;
                }
                if exists|i: int| 0 <= i < self@.entries.len() && sid(self@.entries, i) == x && self@.statuses[i] == status {
                    let j = choose|j: int| 0 <= j < self@.entries.len() && sid(self@.entries, j) == x && self@.statuses[j] == status;
                    assert(flags@[j]);
                }
            }
        }
        r
    }

    /// The ids of every stored root entry.
    pub fn all_roots(&self) -> (r: Vec<String>)
        requires
            self.wf(),
        ensures
            views(r@).no_duplicates(),
            forall|x: Seq<char>| views(r@).contains(x) <==> exists|i: int| 0 <= i < self@.entries.len()
                && sid(self@.entries, i) == x && self@.entries[i].root.len() == 0,
            forall|a: int, b: int| 0 <= a < b < r@.len() ==> id_index(self@.entries, (#[trigger] r@[a])@) < id_index(
                self@.entries,
                (#[trigger] r@[b])@,
            ),
    {
        proof {
            self.lemma_view();
        }
        let mut flags: Vec<bool> = Vec::new();
        let mut i: usize = 0;
        while i < self.entries.len()
            invariant
                self.wf(),
                i <= self.entries@.len(),
                flags@.len() == i,
                forall|j: int| 0 <= j < i ==> flags@[j] == (self@.entries[j].root.len() == 0),
            decreases self.entries@.len() - i,
        {
            proof {
                self.lemma_view();
            }
            flags.push(self.entries[i].is_root());
            i = i + 1;
        }
        let r = self.collect_ids(&flags);
        proof {
            assert forall|x: Seq<char>| views(r@).contains(x) <==> exists|i: int| 0 <= i < self@.entries.len()
                && sid(self@.entries, i) == x && self@.entries[i].root.len() == 0 by {
                if views(r@).contains(x) {
                    let j = choose|j: int| 0 <= j < flags@.len() && flags@[j] && sid(self@.entries, j) == x;
                }
                if exists|i: int| 0 <= i < self@.entries.len() && sid(self@.entries, i) == x && self@.entries[i].root.len() == 0 {
                    let j = choose|j: int| 0 <= j < self@.entries.len() && sid(self@.entries, j) == x && self@.entries[j].root.len() == 0;
                    assert(flags@[j]);
                }
            }
        }
        r
    }

    fn member_at(&self, i: usize, root: &String, sub: Option<&str>) -> (r: bool)
        requires
            self.wf(),
            i < self@.entries.len(),
        ensures
            r == member(self@.entries[i as int], root@, opt_view(sub)),
    {
        proof {
            self.lemma_view();
        }
        let e = &self.entries[i];
        let t = *e.root() == *root || self.ids[i] == *root;
        match sub {
            None => t,
            Some(n) => t && e.in_subtree(n),
        }
    }

    fn links_contain(&self, j: usize, sub: Option<&str>, x: &String) -> (r: bool)
        requires
            self.wf(),
            j < self@.entries.len(),
        ensures
            r == links(self@.entries[j as int], opt_view(sub)).contains(x@),
    {
        proof {
            self.lemma_view();
        }
        let e = &self.entries[j];
        match sub {
            None => contains_str(e.parents(), x),
            Some(n) => match e.subtree_parents(n) {
                Some(p) => contains_str(p, x),
                None => false,
            },
        }
    }

    #[verifier::loop_isolation(false)]
    fn tips(&self, root: &String, sub: Option<&str>) -> (r: Vec<String>)
        requires
            self.wf(),
        ensures
            views(r@).no_duplicates(),
            views(r@).to_set() == tips_of(self@.entries, root@, opt_view(sub)),
    {
        proof {
            self.lemma_view();
        }
        let ghost s = self@.entries;
        let ghost sv = opt_view(sub);
        let n = self.entries.len();
        let mut flags: Vec<bool> = Vec::new();
        let mut i: usize = 0;
        while i < n
            invariant
                i <= n,
                flags@.len() == i,
                forall|k: int| 0 <= k < i ==> flags@[k] == is_tip(s, root@, sv, k),
            decreases n - i,
        {
            let mut tip = self.member_at(i, root, sub);
            let mut j: usize = 0;
            while j < n && tip
                invariant
                    j <= n,
                    tip ==> member(s[i as int], root@, sv),
                    tip ==> forall|l: int| 0 <= l < j && member(s[l], root@, sv) ==> !(#[trigger] links(s[l], sv)).contains(sid(s, i as int)),
                    !tip ==> !is_tip(s, root@, sv, i as int),
                decreases n - j,
            {
                if self.member_at(j, root, sub) && self.links_contain(j, sub, &self.ids[i]) {
                    tip = false;
                }
                j = j + 1;
            }
            flags.push(tip);
            i = i + 1;
        }
        let r = self.collect_ids(&flags);
        proof {
            assert forall|x: Seq<char>| views(r@).to_set().contains(x) <==> tips_of(s, root@, sv).contains(x) by {
                if views(r@).contains(x) {
                    let j = choose|j: int| 0 <= j < flags@.len() && flags@[j] && sid(s, j) == x;
                }
                if tips_of(s, root@, sv).contains(x) {
                    let j = choose|j: int| 0 <= j < s.len() && sid(s, j) == x && is_tip(s, root@, sv, j);
                    assert(flags@[j]);
                }
            }
            assert(views(r@).to_set() =~= tips_of(s, root@, sv));
        }
        r
    }

    /// The tips of the tree rooted at `root_id`: its entries that no entry of
    /// the tree names as a main parent. Unknown roots give no tips.
    pub fn get_tips(&self, root_id: &str) -> (r: Vec<String>)
        requires
            self.wf(),
        ensures
            views(r@).no_duplicates(),
            views(r@).to_set() == tips_of(self@.entries, root_id@, None),
    {
        self.tips(&root_id.to_owned(), None)
    }

    /// The tips of subtree `subtree` of the tree rooted at `root_id`: its
    /// entries that no entry of the subtree names as a subtree parent.
    pub fn get_subtree_tips(&self, root_id: &str, subtree: &str) -> (r: Vec<String>)
        requires
            self.wf(),
        ensures
            views(r@).no_duplicates(),
            views(r@).to_set() == tips_of(self@.entries, root_id@, Some(subtree@)),
    {
        self.tips(&root_id.to_owned(), Some(subtree))
    }

    /// The height of every entry, member of the DAG or not.
    #[verifier::loop_isolation(false)]
    fn heights(&self, root: &String, sub: Option<&str>) -> (r: Vec<usize>)
        requires
            self.wf(),
        ensures
            r@.len() == self@.entries.len(),
            forall|i: int| 0 <= i < r@.len() ==> #[trigger] r@[i] == height(self@.entries, root@, opt_view(sub), i),
            forall|i: int| 0 <= i < r@.len() ==> #[trigger] r@[i] <= i,
    {
        proof {
            self.lemma_view();
        }
        let ghost s = self@.entries;
        let ghost sv = opt_view(sub);
        let n = self.entries.len();
        let mut hs: Vec<usize> = Vec::new();
        let mut i: usize = 0;
        while i < n
            invariant
                i <= n,
                hs@.len() == i,
                forall|k: int| 0 <= k < i ==> #[trigger] hs@[k] == height(s, root@, sv, k),
                forall|k: int| 0 <= k < i ==> #[trigger] hs@[k] <= k,
            decreases n - i,
        {
            let mut m: usize = 0;
            let mut j: usize = 0;
            while j < i
                invariant
                    j <= i,
                    m == hmax(s, root@, sv, i as int, j as int),
                    m <= j,
                decreases i - j,
            {
                if self.member_at(j, root, sub) && self.links_contain(i, sub, &self.ids[j]) {
                    if hs[j] + 1 > m {
                        m = hs[j] + 1;
                    }
                }
                j = j + 1;
            }
            hs.push(m);
            i = i + 1;
        }
        hs
    }

    /// The height of each entry of the DAG: the tree rooted at `root_id`
    /// (`subtree` is `None`) or its subtree `subtree`. Sources have height 0.
    #[verifier::loop_isolation(false)]
    #[verifier::rlimit(40)]
    pub fn calculate_heights(&self, root_id: &str, subtree: Option<&str>) -> (r: Vec<(String, usize)>)
        requires
            self.wf(),
        ensures
            forall|t: int| 0 <= t < r@.len() ==> is_height_of(self@.entries, root_id@, opt_view(subtree), #[trigger] r@[t]),
            forall|i: int| 0 <= i < self@.entries.len() && member(self@.entries[i], root_id@, opt_view(subtree))
                ==> exists|t: int| 0 <= t < r@.len() && (#[trigger] r@[t]).0@ == sid(self@.entries, i),
    {
        proof {
            self.lemma_view();
        }
        let ghost s = self@.entries;
        let ghost sv = opt_view(subtree);
        let root = root_id.to_owned();
        let hs = self.heights(&root, subtree);
        let mut r: Vec<(String, usize)> = Vec::new();
        let ghost mut idx: Seq<int> = Seq::empty();
        let n = self.entries.len();
        let mut i: usize = 0;
        while i < n
            invariant
                i <= n,
                r@.len() == idx.len(),
                forall|t: int| 0 <= t < idx.len() ==> 0 <= #[trigger] idx[t] < i && member(s[idx[t]], root_id@, sv)
                    && r@[t].0@ == sid(s, idx[t]) && r@[t].1 == hs@[idx[t]],
                forall|k: int| 0 <= k < i && member(s[k], root_id@, sv) ==> exists|t: int| 0 <= t < idx.len() && #[trigger] idx[t] == k,
            decreases n - i,
        {
            if self.member_at(i, &root, subtree) {
                r.push((self.ids[i].clone(), hs[i]));
                proof {
                    let old_idx = idx;
                    idx = idx.push(i as int);
                    assert forall|t: int| 0 <= t < idx.len() implies 0 <= #[trigger] idx[t] < i + 1 && member(s[idx[t]], root_id@, sv)
                        && r@[t].0@ == sid(s, idx[t]) && r@[t].1 == hs@[idx[t]] by {
                        if t < old_idx.len() {
                            assert(idx[t] == old_idx[t]);
                        }
                    }
                    assert forall|k: int| 0 <= k < i + 1 && member(s[k], root_id@, sv) implies exists|t: int| 0 <= t < idx.len()
                        && #[trigger] idx[t] == k by {
                        if k < i {
                            let t = choose|t: int| 0 <= t < old_idx.len() && #[trigger] old_idx[t] == k;
                            assert(idx[t] == old_idx[t]);
                        } else {
                            assert(idx[old_idx.len() as int] == k);
                        }
                    }
                }
            }
            i = i + 1;
        }
        proof {
            assert forall|t: int| 0 <= t < r@.len() implies is_height_of(s, root_id@, sv, #[trigger] r@[t]) by {
                let k = idx[t];
                assert(hs@[k] == height(s, root@, sv, k));
                assert(0 <= k < s.len() && member(s[k], root_id@, sv) && r@[t].0@ == sid(s, k)
                    && r@[t].1 as nat == height(s, root_id@, sv, k));
            }
            assert(s == self@.entries);
            assert(sv == opt_view(subtree));
            assert forall|k: int| 0 <= k < s.len() && member(s[k], root_id@, sv)
                implies exists|t: int| 0 <= t < r@.len() && (#[trigger] r@[t]).0@ == sid(s, k) by {
                let t = choose|t: int| 0 <= t < idx.len() && #[trigger] idx[t] == k;
                assert(r@[t].0@ == sid(s, k));
            }
        }
        r
    }

    /// Where node `i` goes in the topologically sorted `ord`.
    fn place(&self, ord: &Vec<usize>, i: usize, hs: &Vec<usize>, Ghost(root): Ghost<Seq<char>>, Ghost(sv): Ghost<Option<Seq<char>>>) -> (p: usize)
        requires
            self.wf(),
            i < self@.entries.len(),
            hs@.len() == self@.entries.len(),
            forall|k: int| 0 <= k < hs@.len() ==> #[trigger] hs@[k] == height(self@.entries, root, sv, k),
            forall|t: int| 0 <= t < ord@.len() ==> (#[trigger] ord@[t]) < i,
            forall|a: int, b: int| 0 <= a < b < ord@.len() ==> topo_lt(self@.entries, root, sv, #[trigger] ord@[a] as int, #[trigger] ord@[b] as int),
        ensures
            p <= ord@.len(),
            forall|t: int| 0 <= t < p ==> topo_lt(self@.entries, root, sv, #[trigger] ord@[t] as int, i as int),
            forall|t: int| p <= t < ord@.len() ==> topo_lt(self@.entries, root, sv, i as int, #[trigger] ord@[t] as int),
    {
        proof {
            self.lemma_view();
        }
        let ghost s = self@.entries;
        let mut p: usize = 0;
        while p < ord.len() && (hs[ord[p]] < hs[i] || (hs[ord[p]] == hs[i] && less_than(
            self.ids[ord[p]].as_str(),
            self.ids[i].as_str(),
        )))
            invariant
                self.wf(),
                s == self@.entries,
                i < s.len(),
                hs@.len() == s.len(),
                forall|k: int| 0 <= k < hs@.len() ==> #[trigger] hs@[k] == height(s, root, sv, k),
                forall|t: int| 0 <= t < ord@.len() ==> (#[trigger] ord@[t]) < i,
                p <= ord@.len(),
                forall|t: int| 0 <= t < p ==> topo_lt(s, root, sv, #[trigger] ord@[t] as int, i as int),
            decreases ord@.len() - p,
        {
            proof {
                self.lemma_view();
            }
            p = p + 1;
        }
        proof {
            self.lemma_view();
            if p < ord.len() {
                let q = ord@[p as int] as int;
                assert(q != i);
                assert(!topo_lt(s, root, sv, q, i as int));
                lemma_topo_total(s, root, sv, q, i as int);
            }
            assert forall|t: int| p <= t < ord@.len() implies topo_lt(s, root, sv, i as int, #[trigger] ord@[t] as int) by {
                let q = ord@[p as int] as int;
                lemma_topo_total(s, root, sv, q, i as int);
                if t > p {
                    lemma_topo_trans(s, root, sv, i as int, q, ord@[t] as int);
                }
            }
        }
        p
    }

    /// The indices of the nodes of the DAG, in topological order.
    #[verifier::rlimit(40)]
    fn topo_indices(&self, root: &String, sub: Option<&str>, keep: &Vec<bool>) -> (r: Vec<usize>)
        requires
            self.wf(),
            keep@.len() == self@.entries.len(),
        ensures
            forall|t: int| 0 <= t < r@.len() ==> (#[trigger] r@[t]) < self@.entries.len()
                && member(self@.entries[r@[t] as int], root@, opt_view(sub)) && keep@[r@[t] as int],
            forall|i: int| 0 <= i < self@.entries.len() && member(self@.entries[i], root@, opt_view(sub)) && keep@[i]
                ==> exists|t: int| 0 <= t < r@.len() && r@[t] == i,
            forall|a: int, b: int| 0 <= a < b < r@.len() ==> topo_lt(self@.entries, root@, opt_view(sub), #[trigger] r@[a] as int, #[trigger] r@[b] as int),
    {
        proof {
            self.lemma_view();
        }
        let ghost s = self@.entries;
        let ghost sv = opt_view(sub);
        let hs = self.heights(root, sub);
        let n = self.entries.len();
        let mut ord: Vec<usize> = Vec::new();
        let mut i: usize = 0;
        while i < n
            invariant
                self.wf(),
                s == self@.entries,
                sv == opt_view(sub),
                n == s.len(),
                hs@.len() == s.len(),
                forall|k: int| 0 <= k < hs@.len() ==> #[trigger] hs@[k] == height(s, root@, sv, k),
                i <= n,
                keep@.len() == n,
                forall|t: int| 0 <= t < ord@.len() ==> (#[trigger] ord@[t]) < i && member(s[ord@[t] as int], root@, sv) && keep@[ord@[t] as int],
                forall|k: int| 0 <= k < i && member(s[k], root@, sv) && keep@[k] ==> exists|t: int| 0 <= t < ord@.len() && ord@[t] == k,
                forall|a: int, b: int| 0 <= a < b < ord@.len() ==> topo_lt(s, root@, sv, #[trigger] ord@[a] as int, #[trigger] ord@[b] as int),
            decreases n - i,
        {
            if keep[i] && self.member_at(i, root, sub) {
                let p = self.place(&ord, i, &hs, Ghost(root@), Ghost(sv));
                let ghost before = ord@;
                ord.insert(p, i);
                proof {
                    assert(ord@ == before.insert(p as int, i));
                    assert forall|a: int, b: int| 0 <= a < b < ord@.len() implies topo_lt(s, root@, sv, #[trigger] ord@[a] as int, #[trigger] ord@[b] as int) by {
                        if b < p {
                            assert(ord@[a] == before[a] && ord@[b] == before[b]);
                        } else if a > p {
                            assert(ord@[a] == before[a - 1] && ord@[b] == before[b - 1]);
                        } else if a == p {
                            assert(ord@[b] == before[b - 1]);
                        } else if b == p {
                            assert(ord@[a] == before[a]);
                        } else {
                            assert(ord@[a] == before[a] && ord@[b] == before[b - 1]);
                        }
                    }
                    assert forall|t: int| 0 <= t < ord@.len() implies (#[trigger] ord@[t]) < i + 1 && member(s[ord@[t] as int], root@, sv) && keep@[ord@[t] as int] by {
                        if t < p {
                            assert(ord@[t] == before[t]);
                        } else if t > p {
                            assert(ord@[t] == before[t - 1]);
                        }
                    }
                    assert forall|k: int| 0 <= k < i + 1 && member(s[k], root@, sv) && keep@[k] implies exists|t: int| 0 <= t < ord@.len() && ord@[t] == k by {
                        if k == i {
                            assert(ord@[p as int] == k);
                        } else {
                            let t = choose|t: int| 0 <= t < before.len() && before[t] == k;
                            if t < p {
                                assert(ord@[t] == k);
                            } else {
                                assert(ord@[t + 1] == k);
                            }
                        }
                    }
                }
            }
            i = i + 1;
        }
        ord
    }

    #[verifier::loop_isolation(false)]
    fn sorted_entries(&self, root: &String, sub: Option<&str>, keep: &Vec<bool>) -> (r: Vec<Entry>)
        requires
            self.wf(),
            keep@.len() == self@.entries.len(),
        ensures
            forall|t: int| 0 <= t < r@.len() ==> is_kept_entry(self@.entries, root@, opt_view(sub), keep@, #[trigger] r@[t]@),
            forall|i: int| 0 <= i < self@.entries.len() && member(self@.entries[i], root@, opt_view(sub)) && keep@[i]
                ==> exists|t: int| 0 <= t < r@.len() && r@[t]@ == self@.entries[i],
            forall|a: int, b: int| 0 <= a < b < r@.len() ==> topo_lt(
                self@.entries,
                root@,
                opt_view(sub),
                index_in(self@.entries, #[trigger] r@[a]@),
                index_in(self@.entries, #[trigger] r@[b]@),
            ),
    {
        proof {
            self.lemma_view();
        }
        let ghost s = self@.entries;
        let ghost sv = opt_view(sub);
        let ord = self.topo_indices(root, sub, keep);
        let mut r: Vec<Entry> = Vec::new();
        let mut t: usize = 0;
        while t < ord.len()
            invariant
                t <= ord@.len(),
                r@.len() == t,
                forall|u: int| 0 <= u < t ==> (#[trigger] r@[u])@ == s[ord@[u] as int],
            decreases ord@.len() - t,
        {
            r.push(self.entries[ord[t]].duplicate());
            t = t + 1;
        }
        proof {
            assert forall|i: int, j: int| 0 <= i < s.len() && 0 <= j < s.len() && s[i] == s[j] implies i == j by {
                if i != j {
                    assert(sid(s, i) != sid(s, j));
                }
            }
            assert forall|u: int| 0 <= u < r@.len() implies index_in(s, #[trigger] r@[u]@) == ord@[u] as int by {
                let k = ord@[u] as int;
                assert(s[k] == r@[u]@);
                let c = index_in(s, r@[u]@);
                assert(0 <= c < s.len() && s[c] == r@[u]@);
            }
            assert forall|u: int| 0 <= u < r@.len() implies is_kept_entry(s, root@, sv, keep@, #[trigger] r@[u]@) by {
                let k = ord@[u] as int;
                assert(s[k] == r@[u]@);
            }
            assert forall|i: int| 0 <= i < s.len() && member(s[i], root@, sv) && keep@[i] implies exists|u: int| 0 <= u < r@.len() && r@[u]@ == s[i] by {
                let u = choose|u: int| 0 <= u < ord@.len() && ord@[u] == i;
                assert(r@[u]@ == s[i]);
            }
            assert forall|a: int, b: int| 0 <= a < b < r@.len() implies topo_lt(s, root@, sv, index_in(s, #[trigger] r@[a]@), index_in(s, #[trigger] r@[b]@)) by {
                assert(index_in(s, r@[a]@) == ord@[a] as int);
                assert(index_in(s, r@[b]@) == ord@[b] as int);
            }
        }
        r
    }

    /// Every entry of the tree rooted at `root_id`, in topological order:
    /// by height, then by id.
    pub fn get_tree(&self, root_id: &str) -> (r: Vec<Entry>)
        requires
            self.wf(),
        ensures
            forall|t: int| 0 <= t < r@.len() ==> is_member_entry(self@.entries, root_id@, None, #[trigger] r@[t]@),
            forall|i: int| 0 <= i < self@.entries.len() && member(self@.entries[i], root_id@, None)
                ==> exists|t: int| 0 <= t < r@.len() && r@[t]@ == self@.entries[i],
            forall|a: int, b: int| 0 <= a < b < r@.len() ==> topo_lt(
                self@.entries,
                root_id@,
                None,
                index_in(self@.entries, #[trigger] r@[a]@),
                index_in(self@.entries, #[trigger] r@[b]@),
            ),
    {
        let keep = self.all_true();
        let root = root_id.to_owned();
        let r = self.sorted_entries(&root, None, &keep);
        proof {
            assert forall|i: int| 0 <= i < self@.entries.len() && member(self@.entries[i], root_id@, None)
                implies exists|t: int| 0 <= t < r@.len() && r@[t]@ == self@.entries[i] by {
                assert(keep@[i]);
            }
            assert forall|t: int| 0 <= t < r@.len() implies is_member_entry(self@.entries, root_id@, None, #[trigger] r@[t]@) by {
                let i = choose|i: int| 0 <= i < self@.entries.len() && self@.entries[i] == r@[t]@ && member(self@.entries[i], root_id@, None) && keep@[i];
            }
        }
        r
    }

    /// Every entry of subtree `subtree` of the tree rooted at `root_id`, in
    /// topological order: by subtree height, then by id.
    pub fn get_subtree(&self, root_id: &str, subtree: &str) -> (r: Vec<Entry>)
        requires
            self.wf(),
        ensures
            forall|t: int| 0 <= t < r@.len() ==> is_member_entry(self@.entries, root_id@, Some(subtree@), #[trigger] r@[t]@),
            forall|i: int| 0 <= i < self@.entries.len() && member(self@.entries[i], root_id@, Some(subtree@))
                ==> exists|t: int| 0 <= t < r@.len() && r@[t]@ == self@.entries[i],
            forall|a: int, b: int| 0 <= a < b < r@.len() ==> topo_lt(
                self@.entries,
                root_id@,
                Some(subtree@),
                index_in(self@.entries, #[trigger] r@[a]@),
                index_in(self@.entries, #[trigger] r@[b]@),
            ),
    {
        let keep = self.all_true();
        let root = root_id.to_owned();
        let r = self.sorted_entries(&root, Some(subtree), &keep);
        proof {
            assert forall|i: int| 0 <= i < self@.entries.len() && member(self@.entries[i], root_id@, Some(subtree@))
                implies exists|t: int| 0 <= t < r@.len() && r@[t]@ == self@.entries[i] by {
                assert(keep@[i]);
            }
            assert forall|t: int| 0 <= t < r@.len() implies is_member_entry(self@.entries, root_id@, Some(subtree@), #[trigger] r@[t]@) by {
                let i = choose|i: int| 0 <= i < self@.entries.len() && self@.entries[i] == r@[t]@ && member(self@.entries[i], root_id@, Some(subtree@)) && keep@[i];
            }
        }
        r
    }

    fn all_true(&self) -> (r: Vec<bool>)
        requires
            self.wf(),
        ensures
            r@.len() == self@.entries.len(),
            forall|i: int| 0 <= i < r@.len() ==> r@[i],
    {
        proof {
            self.lemma_view();
        }
        let mut r: Vec<bool> = Vec::new();
        let mut i: usize = 0;
        while i < self.entries.len()
            invariant
                i <= self.entries@.len(),
                r@.len() == i,
                forall|k: int| 0 <= k < i ==> r@[k],
            decreases self.entries@.len() - i,
        {
            r.push(true);
            i = i + 1;
        }
        r
    }

    /// Whether some reached node after `i` names entry `i` as a parent.
    fn child_hit(&self, flags: &Vec<bool>, i: usize, root: &String, sub: Option<&str>, Ghost(ts): Ghost<Set<Seq<char>>>) -> (r: bool)
        requires
            self.wf(),
            i < self@.entries.len(),
            flags@.len() == self@.entries.len(),
            forall|k: int| i < k < flags@.len() ==> flags@[k] == reach(self@.entries, root@, opt_view(sub), ts, k),
        ensures
            r == child_reach(self@.entries, root@, opt_view(sub), ts, i as int, i + 1),
    {
        proof {
            self.lemma_view();
        }
        let ghost s = self@.entries;
        let ghost sv = opt_view(sub);
        let n = self.entries.len();
        let mut hit = false;
        let mut k: usize = n;
        while k > i + 1
            invariant
                self.wf(),
                s == self@.entries,
                sv == opt_view(sub),
                n == s.len(),
                i < n,
                flags@.len() == n,
                forall|w: int| i < w < flags@.len() ==> flags@[w] == reach(s, root@, sv, ts, w),
                i + 1 <= k <= n,
                hit == child_reach(s, root@, sv, ts, i as int, k as int),
            decreases k,
        {
            k = k - 1;
            let l = self.links_contain(k, sub, &self.ids[i]);
            proof {
                self.lemma_view();
            }
            hit = (flags[k] && l) || hit;
        }
        hit
    }

    /// Which entries are reached from `tips`.
    #[verifier::loop_isolation(false)]
    fn reached(&self, root: &String, sub: Option<&str>, tips: &Vec<String>) -> (r: Vec<bool>)
        requires
            self.wf(),
        ensures
            r@.len() == self@.entries.len(),
            forall|i: int| 0 <= i < r@.len() ==> r@[i] == reach(self@.entries, root@, opt_view(sub), views(tips@).to_set(), i),
    {
        proof {
            self.lemma_view();
        }
        let ghost s = self@.entries;
        let ghost sv = opt_view(sub);
        let ghost ts = views(tips@).to_set();
        let n = self.entries.len();
        let mut flags: Vec<bool> = Vec::new();
        let mut c: usize = 0;
        while c < n
            invariant
                c <= n,
                flags@.len() == c,
            decreases n - c,
        {
            flags.push(false);
            c = c + 1;
        }
        let mut i: usize = n;
        while i > 0
            invariant
                i <= n,
                flags@.len() == n,
                forall|k: int| i <= k < n ==> flags@[k] == reach(s, root@, sv, ts, k),
            decreases i,
        {
            i = i - 1;
            let mut hit = false;
            if self.member_at(i, root, sub) {
                if contains_str(tips, &self.ids[i]) {
                    hit = true;
                } else {
                    hit = self.child_hit(&flags, i, root, sub, Ghost(ts));
                }
            }
            flags.set(i, hit);
        }
        flags
    }

    /// The entries of the tree rooted at `root_id` reached from `tips` by
    /// parent links, in topological order. Unknown tips reach nothing.
    pub fn get_tree_from_tips(&self, root_id: &str, tips: &Vec<String>) -> (r: Vec<Entry>)
        requires
            self.wf(),
        ensures
            forall|t: int| 0 <= t < r@.len() ==> is_reached_entry(self@.entries, root_id@, None, views(tips@).to_set(), #[trigger] r@[t]@),
            forall|i: int| 0 <= i < self@.entries.len() && reach(self@.entries, root_id@, None, views(tips@).to_set(), i)
                ==> exists|t: int| 0 <= t < r@.len() && r@[t]@ == self@.entries[i],
            forall|a: int, b: int| 0 <= a < b < r@.len() ==> topo_lt(
                self@.entries,
                root_id@,
                None,
                index_in(self@.entries, #[trigger] r@[a]@),
                index_in(self@.entries, #[trigger] r@[b]@),
            ),
    {
        self.from_tips(root_id, None, tips)
    }

    /// The entries of subtree `subtree` of the tree rooted at `root_id`
    /// reached from `tips` by subtree parent links, in topological order.
    pub fn get_subtree_from_tips(&self, root_id: &str, subtree: &str, tips: &Vec<String>) -> (r: Vec<Entry>)
        requires
            self.wf(),
        ensures
            forall|t: int| 0 <= t < r@.len() ==> is_reached_entry(self@.entries, root_id@, Some(subtree@), views(tips@).to_set(), #[trigger] r@[t]@),
            forall|i: int| 0 <= i < self@.entries.len() && reach(self@.entries, root_id@, None, views(tips@).to_set(), i)
                && member(self@.entries[i], root_id@, Some(subtree@)) ==> exists|t: int| 0 <= t < r@.len() && r@[t]@ == self@.entries[i],
            forall|a: int, b: int| 0 <= a < b < r@.len() ==> topo_lt(
                self@.entries,
                root_id@,
                Some(subtree@),
                index_in(self@.entries, #[trigger] r@[a]@),
                index_in(self@.entries, #[trigger] r@[b]@),
            ),
    {
        self.from_tips(root_id, Some(subtree), tips)
    }

    fn from_tips(&self, root_id: &str, sub: Option<&str>, tips: &Vec<String>) -> (r: Vec<Entry>)
        requires
            self.wf(),
        ensures
            forall|t: int| 0 <= t < r@.len() ==> is_reached_entry(self@.entries, root_id@, opt_view(sub), views(tips@).to_set(), #[trigger] r@[t]@),
            forall|i: int| 0 <= i < self@.entries.len() && reach(self@.entries, root_id@, None, views(tips@).to_set(), i)
                && member(self@.entries[i], root_id@, opt_view(sub)) ==> exists|t: int| 0 <= t < r@.len() && r@[t]@ == self@.entries[i],
            forall|a: int, b: int| 0 <= a < b < r@.len() ==> topo_lt(
                self@.entries,
                root_id@,
                opt_view(sub),
                index_in(self@.entries, #[trigger] r@[a]@),
                index_in(self@.entries, #[trigger] r@[b]@),
            ),
    {
        let root = root_id.to_owned();
        let keep = self.reached(&root, None, tips);
        let r = self.sorted_entries(&root, sub, &keep);
        proof {
            let s = self@.entries;
            let ts = views(tips@).to_set();
            assert forall|t: int| 0 <= t < r@.len() implies is_reached_entry(s, root_id@, opt_view(sub), ts, #[trigger] r@[t]@) by {
                let i = choose|i: int| 0 <= i < s.len() && s[i] == r@[t]@ && member(s[i], root@, opt_view(sub)) && keep@[i];
            }
            assert forall|i: int| 0 <= i < s.len() && reach(s, root_id@, None, ts, i) && member(s[i], root_id@, opt_view(sub))
                implies exists|t: int| 0 <= t < r@.len() && r@[t]@ == s[i] by {
                assert(keep@[i]);
            }
        }
        r
    }

    /// The stored form of the storage: the number of entries, a colon, and
    /// each entry in the order it was stored.
    pub open spec fn spec_text(&self) -> Seq<char> {
        store_text(self@)
    }

    fn write_texts(out: &mut String, l: &Vec<String>)
        ensures
            final(out)@ == old(out)@ + enc_texts(views(l@)),
    {
        push_digits(out, l.len());
        out.append(":");
        proof {
            reveal_strlit(":");
        }
        let ghost head = out@;
        let mut i: usize = 0;
        while i < l.len()
            invariant
                i <= l@.len(),
                out@ == head + enc_texts_body(views(l@).subrange(0, i as int)),
            decreases l@.len() - i,
        {
            push_text(out, l[i].as_str());
            proof {
                let p = views(l@).subrange(0, i + 1);
                assert(p.drop_last() =~= views(l@).subrange(0, i as int));
            }
            i = i + 1;
        }
        assert(views(l@).subrange(0, i as int) =~= views(l@));
        assert(final(out)@ =~= old(out)@ + enc_texts(views(l@)));
    }

    fn write_opt(out: &mut String, o: &Option<String>)
        ensures
            final(out)@ == old(out)@ + enc_opt(match o {
                Some(t) => Some(t@),
                None => None::<Seq<char>>,
            }),
    {
        match o {
            Some(t) => {
                out.append("S");
                proof {
                    reveal_strlit("S");
                }
                push_text(out, t.as_str());
            },
            None => {
                out.append("N");
                proof {
                    reveal_strlit("N");
                }
            },
        }
        assert(final(out)@ =~= old(out)@ + enc_opt(match o {
            Some(t) => Some(t@),
            None => None::<Seq<char>>,
        }));
    }

    fn write_subtree(out: &mut String, e: &Entry, name: &str, Ghost(i): Ghost<int>)
        requires
            0 <= i < e@.subtrees.len(),
            name@ == e@.subtrees[i].name,
            crate::order::strictly_sorted(crate::entry::subtree_names(e@.subtrees)),
        ensures
            final(out)@ == old(out)@ + enc_text(e@.subtrees[i].name) + enc_text(e@.subtrees[i].data) + enc_texts(
                e@.subtrees[i].parents,
            ),
    {
        proof {
            crate::entry::lemma_find_sorted(e@, i);
        }
        let data = match e.data(name) {
            Some(d) => d,
            None => {
                proof {
                    assert(false);
                }
                return;
            },
        };
        let ps = match e.subtree_parents(name) {
            Some(p) => p,
            None => {
                proof {
                    assert(false);
                }
                return;
            },
        };
        push_text(out, name);
        push_text(out, data.as_str());
        Self::write_texts(out, ps);
        assert(final(out)@ =~= old(out)@ + enc_text(e@.subtrees[i].name) + enc_text(e@.subtrees[i].data) + enc_texts(
            e@.subtrees[i].parents,
        ));
    }

    fn write_content(out: &mut String, e: &Entry)
        ensures
            final(out)@ == old(out)@ + enc_content(e@),
    {
        push_text(out, e.root().as_str());
        Self::write_texts(out, e.parents());
        let names = e.subtrees();
        assert(names@.len() == e@.subtrees.len()) by {
            assert(views(names@).len() == names@.len());
            assert(crate::entry::subtree_names(e@.subtrees).len() == e@.subtrees.len());
        }
        push_digits(out, names.len());
        out.append(":");
        proof {
            reveal_strlit(":");
        }
        let ghost head = out@;
        let ghost ss = e@.subtrees;
        let mut i: usize = 0;
        while i < names.len()
            invariant
                i <= names@.len(),
                names@.len() == ss.len(),
                views(names@) == crate::entry::subtree_names(ss),
                ss == e@.subtrees,
                crate::order::strictly_sorted(views(names@)),
                out@ == head + enc_subtrees_text(ss.subrange(0, i as int)),
            decreases names@.len() - i,
        {
            proof {
                assert(views(names@)[i as int] == names@[i as int]@);
                assert(crate::entry::subtree_names(ss)[i as int] == ss[i as int].name);
            }
            Self::write_subtree(out, e, names[i].as_str(), Ghost(i as int));
            proof {
                let p = ss.subrange(0, i + 1);
                assert(p.drop_last() =~= ss.subrange(0, i as int));
                assert(p.last() == ss[i as int]);
            }
            i = i + 1;
        }
        assert(ss.subrange(0, i as int) =~= ss);
        assert(final(out)@ =~= old(out)@ + enc_content(e@));
    }

    fn write_trailer(out: &mut String, e: &Entry, st: VerificationStatus)
        ensures
            final(out)@ == old(out)@ + enc_trailer(e.spec_sig(), st),
    {
        Self::write_opt(out, &e.sig().key);
        Self::write_opt(out, &e.sig().sig);
        if st == VerificationStatus::Verified {
            out.append("V");
            proof {
                reveal_strlit("V");
            }
        } else {
            out.append("F");
            proof {
                reveal_strlit("F");
            }
        }
        assert(final(out)@ =~= old(out)@ + enc_trailer(e.spec_sig(), st));
    }

    fn write_entry(out: &mut String, e: &Entry, st: VerificationStatus)
        ensures
            final(out)@ == old(out)@ + enc_stored(e@, e.spec_sig(), st),
    {
        Self::write_content(out, e);
        Self::write_trailer(out, e, st);
        assert(final(out)@ =~= old(out)@ + enc_stored(e@, e.spec_sig(), st));
    }

    /// The stored form of the storage, to be written to a file.
    pub fn to_text(&self) -> (r: String)
        requires
            self.wf(),
        ensures
            r@ == self.spec_text(),
    {
        let mut out = String::new();
        push_digits(&mut out, self.entries.len());
        out.append(":");
        proof {
            reveal_strlit(":");
        }
        let ghost head = out@;
        let mut i: usize = 0;
        while i < self.entries.len()
            invariant
                self.wf(),
                i <= self.entries@.len(),
                out@ == head + stored_body(self@.entries.subrange(0, i as int), self@.sigs.subrange(0, i as int), self@.statuses.subrange(0, i as int)),
            decreases self.entries@.len() - i,
        {
            Self::write_entry(&mut out, &self.entries[i], self.statuses[i]);
            proof {
                let pe = self@.entries.subrange(0, i + 1);
                let pg = self@.sigs.subrange(0, i + 1);
                let ps = self@.statuses.subrange(0, i + 1);
                assert(pe.drop_last() =~= self@.entries.subrange(0, i as int));
                assert(pg.drop_last() =~= self@.sigs.subrange(0, i as int));
                assert(ps.drop_last() =~= self@.statuses.subrange(0, i as int));
                assert(pe.last() == self.entries@[i as int]@);
                assert(pg.last() == self.entries@[i as int].spec_sig());
            }
            i = i + 1;
        }
        assert(self@.entries.subrange(0, i as int) =~= self@.entries);
        assert(self@.sigs.subrange(0, i as int) =~= self@.sigs);
        assert(self@.statuses.subrange(0, i as int) =~= self@.statuses);
        assert(out@ =~= self.spec_text());
        out
    }

    fn read_texts(src: &str, cs: &Vec<char>, pos: usize) -> (r: Option<(Vec<String>, usize)>)
        requires
            cs@ == src@,
            pos <= cs@.len(),
        ensures
            r matches Some((_, q)) ==> pos < q <= cs@.len(),
            forall|l: Seq<Seq<char>>| #[trigger] starts(cs@, pos as int, enc_texts(l)) ==> (r matches Some((v, q)) && views(v@)
                == l && q == pos + enc_texts(l).len()),
    {
        proof {
            assert forall|l: Seq<Seq<char>>| #[trigger] starts(cs@, pos as int, enc_texts(l)) implies crate::crdt::num_at(
                cs@,
                pos as int,
                l.len(),
            ) && l.len() <= cs@.len() && cs@[pos + digits(l.len()).len()] == ':' && starts(
                cs@,
                pos + digits(l.len()).len() + 1,
                enc_texts_body(l),
            ) by {
                let d = digits(l.len());
                lemma_starts_split(cs@, pos as int, d + seq![':'], enc_texts_body(l));
                lemma_starts_split(cs@, pos as int, d, seq![':']);
                assert(cs@[pos + d.len()] == cs@.subrange(pos + d.len(), pos + d.len() + 1)[0]);
                lemma_texts_len(l);
            }
        }
        let (n, p) = match crate::crdt::parse_num(cs, pos, cs.len()) {
            Some(x) => x,
            None => {
                return None;
            },
        };
        if p >= cs.len() || cs[p] != ':' {
            return None;
        }
        let mut q = p + 1;
        let mut out: Vec<String> = Vec::new();
        let mut k: usize = 0;
        while k < n
            invariant
                cs@ == src@,
                pos < q <= cs@.len(),
                out@.len() == k,
                k <= n,
                forall|l: Seq<Seq<char>>| #[trigger] starts(cs@, pos as int, enc_texts(l)) ==> n == l.len() && p == pos + digits(
                    l.len(),
                ).len() && views(out@) == l.subrange(0, k as int) && q == p + 1 + enc_texts_body(l.subrange(0, k as int)).len()
                    && starts(cs@, p + 1, enc_texts_body(l)),
            decreases n - k,
        {
            proof {
                assert forall|l: Seq<Seq<char>>| #[trigger] starts(cs@, pos as int, enc_texts(l)) implies starts(
                    cs@,
                    q as int,
                    enc_text(l[k as int]),
                ) by {
                    lemma_texts_prefix(l, k + 1);
                    lemma_texts_step(l, k as int);
                    lemma_starts_prefix(cs@, p + 1, enc_texts_body(l.subrange(0, k + 1)), enc_texts_body(l));
                    lemma_starts_split(cs@, p + 1, enc_texts_body(l.subrange(0, k as int)), enc_text(l[k as int]));
                }
            }
            match crate::crdt::parse_text(src, cs, q) {
                Some((t, q2)) => {
                    let ghost before = out@;
                    out.push(t);
                    proof {
                        assert forall|l: Seq<Seq<char>>| #[trigger] starts(cs@, pos as int, enc_texts(l)) implies views(out@)
                            == l.subrange(0, k + 1) && q2 == p + 1 + enc_texts_body(l.subrange(0, k + 1)).len() by {
                            lemma_texts_step(l, k as int);
                            assert(starts(cs@, q as int, enc_text(l[k as int])));
                            assert forall|x: int| 0 <= x < k implies views(out@)[x] == views(before)[x] by {
                                assert(out@[x] == before[x]);
                            }
                            assert(views(out@) =~= l.subrange(0, k + 1));
                        }
                    }
                    q = q2;
                },
                None => {
                    proof {
                        assert forall|l: Seq<Seq<char>>| #[trigger] starts(cs@, pos as int, enc_texts(l)) implies false by {
                            assert(starts(cs@, q as int, enc_text(l[k as int])));
                        }
                    }
                    return None;
                },
            }
            k = k + 1;
        }
        proof {
            assert forall|l: Seq<Seq<char>>| #[trigger] starts(cs@, pos as int, enc_texts(l)) implies views(out@) == l && q
                == pos + enc_texts(l).len() by {
                assert(l.subrange(0, k as int) =~= l);
            }
        }
        Some((out, q))
    }

    fn read_opt(src: &str, cs: &Vec<char>, pos: usize) -> (r: Option<(Option<String>, usize)>)
        requires
            cs@ == src@,
            pos <= cs@.len(),
        ensures
            r matches Some((_, q)) ==> pos < q <= cs@.len(),
            forall|o: Option<Seq<char>>| #[trigger] starts(cs@, pos as int, enc_opt(o)) ==> (r matches Some((v, q)) && (match v {
                Some(t) => Some(t@),
                None => None::<Seq<char>>,
            }) == o && q == pos + enc_opt(o).len()),
    {
        proof {
            assert forall|o: Option<Seq<char>>| #[trigger] starts(cs@, pos as int, enc_opt(o)) implies pos < cs@.len() && cs@[pos as int]
                == enc_opt(o)[0] && (o matches Some(t) ==> starts(cs@, pos + 1, enc_text(t))) by {
                assert(cs@[pos as int] == cs@.subrange(pos as int, pos + enc_opt(o).len())[0]);
                if let Some(t) = o {
                    lemma_starts_split(cs@, pos as int, seq!['S'], enc_text(t));
                }
            }
        }
        if pos >= cs.len() {
            return None;
        }
        if cs[pos] == 'N' {
            Some((None, pos + 1))
        } else if cs[pos] == 'S' {
            match crate::crdt::parse_text(src, cs, pos + 1) {
                Some((t, q)) => Some((Some(t), q)),
                None => None,
            }
        } else {
            None
        }
    }

    fn read_subtree(src: &str, cs: &Vec<char>, pos: usize) -> (r: Option<(SubtreeNode, usize)>)
        requires
            cs@ == src@,
            pos <= cs@.len(),
        ensures
            r matches Some((_, q)) ==> pos < q <= cs@.len(),
            forall|t: SubtreeModel| #[trigger] starts(cs@, pos as int, subtree_item(t)) ==> (r matches Some((n, q)) && n@ == t && q
                == pos + subtree_item(t).len()),
    {
        proof {
            assert forall|t: SubtreeModel| #[trigger] starts(cs@, pos as int, subtree_item(t)) implies starts(cs@, pos as int, enc_text(t.name))
                && starts(cs@, pos + enc_text(t.name).len(), enc_text(t.data)) && starts(
                cs@,
                pos + enc_text(t.name).len() + enc_text(t.data).len(),
                enc_texts(t.parents),
            ) by {
                let a = enc_text(t.name);
                let b = enc_text(t.data);
                let c = enc_texts(t.parents);
                lemma_starts_split(cs@, pos as int, a + b, c);
                lemma_starts_split(cs@, pos as int, a, b);
            }
        }
        let (name, q1) = match crate::crdt::parse_text(src, cs, pos) {
            Some(x) => x,
            None => {
                return None;
            },
        };
        let (data, q2) = match crate::crdt::parse_text(src, cs, q1) {
            Some(x) => x,
            None => {
                return None;
            },
        };
        let (sps, q3) = match Self::read_texts(src, cs, q2) {
            Some(x) => x,
            None => {
                return None;
            },
        };
        let node = SubtreeNode::new(name, data, sps);
        Some((node, q3))
    }

    #[verifier::rlimit(60)]
    fn read_entry(src: &str, cs: &Vec<char>, pos: usize) -> (r: Option<(Entry, VerificationStatus, usize)>)
        requires
            cs@ == src@,
            pos <= cs@.len(),
        ensures
            r matches Some((_, _, q)) ==> pos < q <= cs@.len(),
            forall|e: EntryModel, g: (Option<Seq<char>>, Option<Seq<char>>), st: VerificationStatus|
                #[trigger] entry_at(cs@, pos as int, e, g, st) ==> (r matches Some((x, st2, q)) && x@ == e && x.spec_sig() == g
                    && st2 == st && q == pos + enc_stored(e, g, st).len()),
    {
        proof {
            assert forall|e: EntryModel, g: (Option<Seq<char>>, Option<Seq<char>>), st: VerificationStatus|
                #[trigger] entry_at(cs@, pos as int, e, g, st) implies starts(cs@, pos as int, enc_text(e.root)) by {
                lemma_entry_layout(cs@, pos as int, e, g, st);
            }
        }
        let (root, p) = match crate::crdt::parse_text(src, cs, pos) {
            Some(x) => x,
            None => {
                return None;
            },
        };
        proof {
            assert forall|e: EntryModel, g: (Option<Seq<char>>, Option<Seq<char>>), st: VerificationStatus|
                #[trigger] entry_at(cs@, pos as int, e, g, st) implies starts(cs@, p as int, enc_texts(e.parents)) by {
                lemma_entry_layout(cs@, pos as int, e, g, st);
            }
        }
        let (parents, p) = match Self::read_texts(src, cs, p) {
            Some(x) => x,
            None => {
                return None;
            },
        };
        proof {
            assert forall|e: EntryModel, g: (Option<Seq<char>>, Option<Seq<char>>), st: VerificationStatus|
                #[trigger] entry_at(cs@, pos as int, e, g, st) implies crate::crdt::num_at(cs@, p as int, e.subtrees.len())
                && e.subtrees.len() <= cs@.len() by {
                lemma_entry_layout(cs@, pos as int, e, g, st);
            }
        }
        let (nsub, p2) = match crate::crdt::parse_num(cs, p, cs.len()) {
            Some(x) => x,
            None => {
                return None;
            },
        };
        if p2 >= cs.len() || cs[p2] != ':' {
            proof {
                assert forall|e: EntryModel, g: (Option<Seq<char>>, Option<Seq<char>>), st: VerificationStatus|
                    #[trigger] entry_at(cs@, pos as int, e, g, st) implies false by {
                    lemma_entry_layout(cs@, pos as int, e, g, st);
                }
            }
            return None;
        }
        let mut q = p2 + 1;
        let mut nodes: Vec<SubtreeNode> = Vec::new();
        let mut j: usize = 0;
        while j < nsub
            invariant
                cs@ == src@,
                pos < q <= cs@.len(),
                nodes@.len() == j,
                j <= nsub,
                forall|e: EntryModel, g: (Option<Seq<char>>, Option<Seq<char>>), st: VerificationStatus|
                    #[trigger] entry_at(cs@, pos as int, e, g, st) ==> nsub == e.subtrees.len() && root@ == e.root && views(parents@)
                        == e.parents && p2 + 1 == off_subs(pos as int, e) && node_views(nodes@) == e.subtrees.subrange(0, j as int)
                        && q == off_subs(pos as int, e) + enc_subtrees_text(e.subtrees.subrange(0, j as int)).len(),
            decreases nsub - j,
        {
            proof {
                assert forall|e: EntryModel, g: (Option<Seq<char>>, Option<Seq<char>>), st: VerificationStatus|
                    #[trigger] entry_at(cs@, pos as int, e, g, st) implies starts(cs@, q as int, subtree_item(e.subtrees[j as int])) by {
                    lemma_entry_layout(cs@, pos as int, e, g, st);
                    let t = e.subtrees;
                    lemma_subtrees_prefix(t, j + 1);
                    lemma_subtrees_step(t, j as int);
                    let o = off_subs(pos as int, e);
                    lemma_starts_prefix(cs@, o, enc_subtrees_text(t.subrange(0, j + 1)), enc_subtrees_text(t));
                    let a = enc_text(t[j as int].name);
                    let b = enc_text(t[j as int].data);
                    let c = enc_texts(t[j as int].parents);
                    assert(a + b + c == subtree_item(t[j as int]));
                    assert(enc_subtrees_text(t.subrange(0, j + 1)) =~= enc_subtrees_text(t.subrange(0, j as int)) + (a + b + c));
                    lemma_starts_split(cs@, o, enc_subtrees_text(t.subrange(0, j as int)), a + b + c);
                }
            }
            let (node, q3) = match Self::read_subtree(src, cs, q) {
                Some(x) => x,
                None => {
                    return None;
                },
            };
            let ghost before = nodes@;
            nodes.push(node);
            proof {
                assert forall|e: EntryModel, g: (Option<Seq<char>>, Option<Seq<char>>), st: VerificationStatus|
                    #[trigger] entry_at(cs@, pos as int, e, g, st) implies node_views(nodes@) == e.subtrees.subrange(0, j + 1)
                    && q3 == off_subs(pos as int, e) + enc_subtrees_text(e.subtrees.subrange(0, j + 1)).len() by {
                    lemma_subtrees_step(e.subtrees, j as int);
                    assert(starts(cs@, q as int, subtree_item(e.subtrees[j as int])));
                    assert(nodes@[j as int]@ == e.subtrees[j as int]);
                    assert forall|x: int| 0 <= x < j implies node_views(nodes@)[x] == node_views(before)[x] by {
                        assert(nodes@[x] == before[x]);
                    }
                    assert(node_views(nodes@) =~= e.subtrees.subrange(0, j + 1));
                }
            }
            q = q3;
            j = j + 1;
        }
        proof {
            assert forall|e: EntryModel, g: (Option<Seq<char>>, Option<Seq<char>>), st: VerificationStatus|
                #[trigger] entry_at(cs@, pos as int, e, g, st) implies node_views(nodes@) == e.subtrees && q == off_key(pos as int, e)
                && starts(cs@, q as int, enc_opt(g.0)) by {
                lemma_entry_layout(cs@, pos as int, e, g, st);
                assert(e.subtrees.subrange(0, j as int) =~= e.subtrees);
            }
        }
        let (key, q) = match Self::read_opt(src, cs, q) {
            Some(x) => x,
            None => {
                return None;
            },
        };
        proof {
            assert forall|e: EntryModel, g: (Option<Seq<char>>, Option<Seq<char>>), st: VerificationStatus|
                #[trigger] entry_at(cs@, pos as int, e, g, st) implies q == off_sig(pos as int, e, g) && starts(cs@, q as int, enc_opt(g.1)) by {
                lemma_entry_layout(cs@, pos as int, e, g, st);
            }
        }
        let (sig, q) = match Self::read_opt(src, cs, q) {
            Some(x) => x,
            None => {
                return None;
            },
        };
        proof {
            assert forall|e: EntryModel, g: (Option<Seq<char>>, Option<Seq<char>>), st: VerificationStatus|
                #[trigger] entry_at(cs@, pos as int, e, g, st) implies q == off_status(pos as int, e, g) && q < cs@.len() && cs@[q as int] == (
                if st == VerificationStatus::Verified {
                    'V'
                } else {
                    'F'
                }) by {
                lemma_entry_layout(cs@, pos as int, e, g, st);
            }
        }
        if q >= cs.len() {
            return None;
        }
        let st = if cs[q] == 'V' {
            VerificationStatus::Verified
        } else if cs[q] == 'F' {
            VerificationStatus::Failed
        } else {
            return None;
        };
        let ghost kv = key;
        let ghost sv = sig;
        match Entry::from_parts(root, parents, nodes, crate::entry::SigInfo { key, sig }) {
            Some(entry) => {
                proof {
                    assert forall|e: EntryModel, g: (Option<Seq<char>>, Option<Seq<char>>), st0: VerificationStatus|
                        #[trigger] entry_at(cs@, pos as int, e, g, st0) implies entry@ == e && entry.spec_sig() == g && st == st0
                        && q + 1 == pos + enc_stored(e, g, st0).len() by {
                        lemma_entry_layout(cs@, pos as int, e, g, st0);
                    }
                }
                Some((entry, st, q + 1))
            },
            None => {
                proof {
                    assert forall|e: EntryModel, g: (Option<Seq<char>>, Option<Seq<char>>), st0: VerificationStatus|
                        #[trigger] entry_at(cs@, pos as int, e, g, st0) implies false by {
                        assert(canonical_model(e));
                    }
                }
                None
            },
        }
    }

    /// Reads `n` stored entries from `p + 1` on into a new storage.
    #[verifier::rlimit(60)]
    fn read_entries(text: &str, cs: &Vec<char>, p: usize, n: usize) -> (r: Option<(InMemory, usize)>)
        requires
            cs@ == text@,
            p < cs@.len(),
        ensures
            r matches Some((m, q)) ==> m.wf() && p < q <= cs@.len(),
            forall|sm: StoreModel| #[trigger] store_text(sm) == text@ && valid_store(sm) && n == sm.entries.len() && p == digits(
                sm.entries.len(),
            ).len() && starts(cs@, p + 1, stored_body(sm.entries, sm.sigs, sm.statuses)) ==> (r matches Some((m, q)) && m@ == sm
                && q == p + 1 + stored_body(sm.entries, sm.sigs, sm.statuses).len()),
    {
        let mut store = InMemory::new();
        let total = cs.len();
        assert(p < total);
        let mut q = p + 1;
        let mut k: usize = 0;
        proof {
            assert forall|sm: StoreModel| #[trigger] store_text(sm) == text@ && valid_store(sm) && n == sm.entries.len() && p == digits(sm.entries.len()).len() && starts(cs@, p + 1, stored_body(sm.entries, sm.sigs, sm.statuses)) implies store@ == prefix_store(sm, 0)
                && stored_body(sm.entries.subrange(0, 0), sm.sigs.subrange(0, 0), sm.statuses.subrange(0, 0)).len() == 0 by {
                assert(store@.entries =~= sm.entries.subrange(0, 0));
                assert(store@.statuses =~= sm.statuses.subrange(0, 0));
                assert(store@.sigs =~= sm.sigs.subrange(0, 0));
                assert(store@ =~= prefix_store(sm, 0));
            }
        }
        while k < n
            invariant
                cs@ == text@,
                p < q <= cs@.len(),
                store.wf(),
                k <= n,
                forall|sm: StoreModel| #[trigger] store_text(sm) == text@ && valid_store(sm) && n == sm.entries.len() && p == digits(sm.entries.len()).len() && starts(cs@, p + 1, stored_body(sm.entries, sm.sigs, sm.statuses)) ==> n == sm.entries.len() && p
                    == digits(sm.entries.len()).len() && starts(cs@, p + 1, stored_body(sm.entries, sm.sigs, sm.statuses))
                    && store@ == prefix_store(sm, k as int) && q == p + 1 + stored_body(
                    sm.entries.subrange(0, k as int),
                    sm.sigs.subrange(0, k as int),
                    sm.statuses.subrange(0, k as int),
                ).len(),
            decreases n - k,
        {
            proof {
                assert forall|sm: StoreModel| #[trigger] store_text(sm) == text@ && valid_store(sm) && n == sm.entries.len() && p == digits(sm.entries.len()).len() && starts(cs@, p + 1, stored_body(sm.entries, sm.sigs, sm.statuses)) implies entry_at(
                    cs@,
                    q as int,
                    sm.entries[k as int],
                    sm.sigs[k as int],
                    sm.statuses[k as int],
                ) by {
                    lemma_stored_prefix(sm.entries, sm.sigs, sm.statuses, k + 1);
                    lemma_stored_step(sm.entries, sm.sigs, sm.statuses, k as int);
                    lemma_starts_prefix(
                        cs@,
                        p + 1,
                        stored_body(sm.entries.subrange(0, k + 1), sm.sigs.subrange(0, k + 1), sm.statuses.subrange(0, k + 1)),
                        stored_body(sm.entries, sm.sigs, sm.statuses),
                    );
                    lemma_starts_split(
                        cs@,
                        p + 1,
                        stored_body(sm.entries.subrange(0, k as int), sm.sigs.subrange(0, k as int), sm.statuses.subrange(0, k as int)),
                        enc_stored(sm.entries[k as int], sm.sigs[k as int], sm.statuses[k as int]),
                    );
                }
            }
            let (entry, st, q2) = match Self::read_entry(text, &cs, q) {
                Some(x) => x,
                None => {
                    proof {
                        assert forall|sm: StoreModel| #[trigger] store_text(sm) == text@ && valid_store(sm) && n == sm.entries.len() && p == digits(sm.entries.len()).len() && starts(cs@, p + 1, stored_body(sm.entries, sm.sigs, sm.statuses)) implies false by {
                            assert(entry_at(cs@, q as int, sm.entries[k as int], sm.sigs[k as int], sm.statuses[k as int]));
                        }
                    }
                    return None;
                },
            };
            proof {
                assert forall|sm: StoreModel| #[trigger] store_text(sm) == text@ && valid_store(sm) && n == sm.entries.len() && p == digits(sm.entries.len()).len() && starts(cs@, p + 1, stored_body(sm.entries, sm.sigs, sm.statuses)) implies parents_known(
                    store@.entries,
                    entry@,
                ) && !known(store@.entries, entry_id(entry@)) by {
                    assert(entry_at(cs@, q as int, sm.entries[k as int], sm.sigs[k as int], sm.statuses[k as int]));
                    reveal(stored_before);
                    assert(store@.entries == sm.entries.subrange(0, k as int));
                    assert(parents_known(sm.entries.subrange(0, k as int), sm.entries[k as int]));
                    if known(store@.entries, entry_id(entry@)) {
                        let w = choose|w: int| 0 <= w < store@.entries.len() && sid(store@.entries, w) == entry_id(entry@);
                        assert(sid(sm.entries, w) == sid(sm.entries, k as int));
                    }
                }
            }
            let ghost before = store@;
            let ghost ent = entry@;
            let ghost esig = entry.spec_sig();
            match store.put(st, entry) {
                Ok(()) => {},
                Err(e) => {
                    return None;
                },
            }
            proof {
                assert forall|sm: StoreModel| #[trigger] store_text(sm) == text@ && valid_store(sm) && n == sm.entries.len() && p == digits(sm.entries.len()).len() && starts(cs@, p + 1, stored_body(sm.entries, sm.sigs, sm.statuses)) implies store@ == prefix_store(
                    sm,
                    k + 1,
                ) && q2 == p + 1 + stored_body(
                    sm.entries.subrange(0, k + 1),
                    sm.sigs.subrange(0, k + 1),
                    sm.statuses.subrange(0, k + 1),
                ).len() by {
                    assert(entry_at(cs@, q as int, sm.entries[k as int], sm.sigs[k as int], sm.statuses[k as int]));
                    lemma_stored_step(sm.entries, sm.sigs, sm.statuses, k as int);
                    assert(store@.entries =~= sm.entries.subrange(0, k + 1));
                    assert(store@.statuses =~= sm.statuses.subrange(0, k + 1));
                    assert(store@.sigs =~= sm.sigs.subrange(0, k + 1));
                }
            }
            q = q2;
            k = k + 1;
        }
        proof {
            assert forall|sm: StoreModel| #[trigger] store_text(sm) == text@ && valid_store(sm) && n == sm.entries.len() && p
                == digits(sm.entries.len()).len() && starts(cs@, p + 1, stored_body(sm.entries, sm.sigs, sm.statuses)) implies store@
                == sm && q == p + 1 + stored_body(sm.entries, sm.sigs, sm.statuses).len() by {
                assert(sm.entries.subrange(0, k as int) =~= sm.entries);
                assert(sm.sigs.subrange(0, k as int) =~= sm.sigs);
                assert(sm.statuses.subrange(0, k as int) =~= sm.statuses);
                assert(store@ =~= sm);
            }
        }
        Some((store, q))
    }

    /// Reads a storage from its stored form. Whatever it returns writes back
    /// to exactly `text`, and the stored form of any well-formed storage is
    /// read back as that storage.
    pub fn from_text(text: &str) -> (r: Result<InMemory, Error>)
        ensures
            r matches Ok(m) ==> m.wf() && store_text(m@) == text@,
            forall|sm: StoreModel| #[trigger] store_text(sm) == text@ && valid_store(sm) ==> (r matches Ok(m) && m@ == sm),
    {
        let cs = crate::crdt::chars_of(text);
        let bad = "the stored form is malformed";
        proof {
            assert forall|sm: StoreModel| #[trigger] store_text(sm) == text@ && valid_store(sm) implies crate::crdt::num_at(
                cs@,
                0,
                sm.entries.len(),
            ) && sm.entries.len() <= cs@.len() && cs@[digits(sm.entries.len()).len() as int] == ':' && starts(
                cs@,
                digits(sm.entries.len()).len() as int + 1,
                stored_body(sm.entries, sm.sigs, sm.statuses),
            ) by {
                let d = digits(sm.entries.len());
                assert(starts(cs@, 0, store_text(sm))) by {
                    assert(cs@.subrange(0, cs@.len() as int) =~= cs@);
                }
                lemma_starts_split(cs@, 0, d + seq![':'], stored_body(sm.entries, sm.sigs, sm.statuses));
                lemma_starts_split(cs@, 0, d, seq![':']);
                assert(cs@[d.len() as int] == cs@.subrange(d.len() as int, d.len() as int + 1)[0]);
                lemma_stored_len(sm.entries, sm.sigs, sm.statuses);
            }
        }
        let (n, p) = match crate::crdt::parse_num(&cs, 0, cs.len()) {
            Some(x) => x,
            None => {
                return Err(Error::InvalidData { reason: bad.to_owned() });
            },
        };
        if p >= cs.len() || cs[p] != ':' {
            return Err(Error::InvalidData { reason: bad.to_owned() });
        }
        let (store, q) = match Self::read_entries(text, &cs, p, n) {
            Some(x) => x,
            None => {
                return Err(Error::InvalidData { reason: bad.to_owned() });
            },
        };
        if q != cs.len() {
            proof {
                assert forall|sm: StoreModel| #[trigger] store_text(sm) == text@ && valid_store(sm) implies false by {
                    lemma_stored_len(sm.entries, sm.sigs, sm.statuses);
                }
            }
            return Err(Error::InvalidData { reason: bad.to_owned() });
        }
        let written = store.to_text();
        if written != text.to_owned() {
            proof {
                assert forall|sm: StoreModel| #[trigger] store_text(sm) == text@ && valid_store(sm) implies false by {
                    assert(store@ == sm);
                }
            }
            return Err(Error::InvalidData { reason: bad.to_owned() });
        }
        Ok(store)
    }

    /// Every stored entry is in canonical form: its main parents, its subtree
    /// names and each subtree's parents are sorted and free of duplicates, and
    /// no subtree has an empty payload.
    pub proof fn law_stored_entries_canonical(&self)
        requires
            self.wf(),
        ensures
            forall|i: int| 0 <= i < self@.entries.len() ==> canonical_model(#[trigger] self@.entries[i]),
    {
    }

    /// A well-formed storage holds no two entries with one id, and stores
    /// every entry after all the parents it names.
    pub proof fn lemma_well_formed(&self)
        requires
            self.wf(),
        ensures
            unique_ids(self@.entries),
            stored_before(self@.entries),
    {
    }

    /// The content of a well-formed storage is a valid storage content: this
    /// is what `from_text` reads back from `to_text`.
    pub proof fn lemma_valid_store(&self)
        requires
            self.wf(),
        ensures
            valid_store(self@),
    {
    }
}

} // verus!
