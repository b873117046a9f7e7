//! Immutable, content-addressed entries and the builder that makes them.
use vstd::prelude::*;
use sha2::Digest;
use vstd::utf8::encode_utf8;
use crate::crdt::Nested;
use crate::order::{is_strictly_sorted, sorted_set, strictly_sorted, views, lemma_sorted_unique, str_lt, lemma_lt_irrefl};

verus! {

/// A name for the lowercase hexadecimal SHA-256 digest of some bytes.
pub uninterp spec fn sha256_hex_of(b: Seq<u8>) -> Seq<char>;

/// Relies on sha2's `Sha256::digest` and the lowercase hex formatting of its
/// 32-byte output: the result depends on the bytes alone, and is 64
/// lowercase hex digits.
#[verifier::external_body]
fn sha256_hex(b: &[u8]) -> (r: String)
    ensures
        r@ == sha256_hex_of(b@),
        r@.len() == 64,
        forall|i: int| 0 <= i < 64 ==> ('0' <= #[trigger] r@[i] && r@[i] <= '9') || ('a' <= r@[i] && r@[i] <= 'f'),
{
    format!("{:x}", sha2::Sha256::digest(b))
}

/// What one subtree of an entry holds.
pub struct SubtreeModel {
    pub name: Seq<char>,
    pub data: Seq<char>,
    pub parents: Seq<Seq<char>>,
}

/// The content of an entry, signature excluded.
pub struct EntryModel {
    pub root: Seq<char>,
    pub parents: Seq<Seq<char>>,
    pub subtrees: Seq<SubtreeModel>,
}

/// The content of a builder: order and repetition are not part of it.
pub struct BuilderModel {
    pub root: Seq<char>,
    pub parents: Set<Seq<char>>,
    /// subtree name to its payload and its parents
    pub subtrees: Map<Seq<char>, (Seq<char>, Set<Seq<char>>)>,
}

/// The names of the subtrees of an entry, in order.
pub open spec fn subtree_names(s: Seq<SubtreeModel>) -> Seq<Seq<char>> {
    s.map_values(|n: SubtreeModel| n.name)
}

/// Every id list is strictly sorted, subtree names are strictly sorted, and
/// no subtree has an empty payload.
pub open spec fn canonical_model(m: EntryModel) -> bool {
    &&& strictly_sorted(m.parents)
    &&& strictly_sorted(subtree_names(m.subtrees))
    &&& forall|i: int| 0 <= i < m.subtrees.len() ==> {
        &&& strictly_sorted((#[trigger] m.subtrees[i]).parents)
        &&& m.subtrees[i].data.len() > 0
    }
}

/// The strictly sorted sequence that holds exactly the elements of `s`.
pub open spec fn sorted_of(s: Set<Seq<char>>) -> Seq<Seq<char>> {
    choose|q: Seq<Seq<char>>| strictly_sorted(q) && q.to_set() == s
}

pub proof fn lemma_sorted_of(q: Seq<Seq<char>>)
    requires
        strictly_sorted(q),
    ensures
        sorted_of(q.to_set()) == q,
{
    let c = sorted_of(q.to_set());
    lemma_sorted_unique(c, q);
}

/// The entry that a builder with content `b` makes.
pub open spec fn built(b: BuilderModel) -> EntryModel {
    let ne = nonempty_nodes(b.subtrees);
    EntryModel {
        root: b.root,
        parents: sorted_of(b.parents),
        subtrees: sorted_of(ne.dom()).map_values(
            |n: Seq<char>| SubtreeModel { name: n, data: ne[n].0, parents: sorted_of(ne[n].1) },
        ),
    }
}

/// The decimal digits of `n`, as ASCII bytes.
pub open spec fn decimal(n: nat) -> Seq<u8>
    decreases n,
{
    if n < 10 {
        seq![(48 + n) as u8]
    } else {
        decimal(n / 10).push((48 + n % 10) as u8)
    }
}

/// A string as its UTF-8 byte length, a colon, and its UTF-8 bytes.
pub open spec fn enc_str(s: Seq<char>) -> Seq<u8> {
    decimal(encode_utf8(s).len()) + seq![58u8] + encode_utf8(s)
}

pub open spec fn enc_strs(l: Seq<Seq<char>>) -> Seq<u8>
    decreases l.len(),
{
    if l.len() == 0 {
        seq![]
    } else {
        enc_strs(l.drop_last()) + enc_str(l.last())
    }
}

/// A list of strings as its length, a colon, and each string in turn.
pub open spec fn enc_list(l: Seq<Seq<char>>) -> Seq<u8> {
    decimal(l.len()) + seq![58u8] + enc_strs(l)
}

pub open spec fn enc_subtree(n: SubtreeModel) -> Seq<u8> {
    enc_str(n.name) + enc_str(n.data) + enc_list(n.parents)
}

pub open spec fn enc_subtrees(s: Seq<SubtreeModel>) -> Seq<u8>
    decreases s.len(),
{
    if s.len() == 0 {
        seq![]
    } else {
        enc_subtrees(s.drop_last()) + enc_subtree(s.last())
    }
}

/// The canonical bytes of an entry: root, main parents, then each subtree
/// with its payload and its parents. The signature is not part of them.
pub open spec fn canonical_bytes(m: EntryModel) -> Seq<u8> {
    enc_str(m.root) + enc_list(m.parents) + decimal(m.subtrees.len()) + seq![58u8] + enc_subtrees(m.subtrees)
}

/// The id of an entry: the hash of its canonical bytes.
pub open spec fn entry_id(m: EntryModel) -> Seq<char> {
    sha256_hex_of(canonical_bytes(m))
}

fn push_decimal(out: &mut Vec<u8>, n: usize)
    ensures
        final(out)@ == old(out)@ + decimal(n as nat),
    decreases n,
{
    if n >= 10 {
        push_decimal(out, n / 10);
    }
    out.push((48 + n % 10) as u8);
    proof {
        if n >= 10 {
            assert(final(out)@ =~= old(out)@ + decimal(n as nat));
        } else {
            assert(final(out)@ =~= old(out)@ + decimal(n as nat));
        }
    }
}

fn push_bytes(out: &mut Vec<u8>, b: &[u8])
    ensures
        final(out)@ == old(out)@ + b@,
{
    let ghost start = out@;
    let mut i: usize = 0;
    while i < b.len()
        invariant
            i <= b@.len(),
            out@ == start + b@.subrange(0, i as int),
        decreases b@.len() - i,
    {
        out.push(b[i]);
        assert(b@.subrange(0, i + 1) =~= b@.subrange(0, i as int).push(b@[i as int]));
        i = i + 1;
    }
    assert(b@.subrange(0, i as int) =~= b@);
}

fn push_str(out: &mut Vec<u8>, s: &str)
    ensures
        final(out)@ == old(out)@ + enc_str(s@),
{
    let b = s.as_bytes();
    push_decimal(out, b.len());
    out.push(58u8);
    push_bytes(out, b);
    assert(final(out)@ =~= old(out)@ + enc_str(s@));
}

fn push_list(out: &mut Vec<u8>, l: &Vec<String>)
    ensures
        final(out)@ == old(out)@ + enc_list(views(l@)),
{
    let ghost start = out@;
    push_decimal(out, l.len());
    out.push(58u8);
    let ghost head = out@;
    let mut i: usize = 0;
    while i < l.len()
        invariant
            i <= l@.len(),
            out@ == head + enc_strs(views(l@).subrange(0, i as int)),
            head == start + decimal(l@.len() as nat) + seq![58u8],
        decreases l@.len() - i,
    {
        push_str(out, l[i].as_str());
        proof {
            let p = views(l@).subrange(0, i + 1);
            assert(p.drop_last() =~= views(l@).subrange(0, i as int));
            assert(p.last() == l@[i as int]@);
        }
        assert(out@ =~= head + enc_strs(views(l@).subrange(0, i + 1)));
        i = i + 1;
    }
    assert(views(l@).subrange(0, i as int) =~= views(l@));
    assert(final(out)@ =~= old(out)@ + enc_list(views(l@)));
}

/// One subtree of an entry: its payload and its own parents.
#[derive(Debug)]
pub struct SubtreeNode {
    pub(crate) name: String,
    pub(crate) data: String,
    pub(crate) parents: Vec<String>,
}

impl SubtreeNode {
    /// A subtree with this name, payload and parents.
    pub fn new(name: String, data: String, parents: Vec<String>) -> (r: SubtreeNode)
        ensures
            r@ == (SubtreeModel { name: name@, data: data@, parents: views(parents@) }),
    {
        SubtreeNode { name, data, parents }
    }
}

impl View for SubtreeNode {
    type V = SubtreeModel;

    closed spec fn view(&self) -> SubtreeModel {
        SubtreeModel { name: self.name@, data: self.data@, parents: views(self.parents@) }
    }
}

/// The signature block of an entry.
#[derive(Debug)]
pub struct SigInfo {
    /// Name of the key that signed the entry
    pub key: Option<String>,
    /// The signature, encoded as text
    pub sig: Option<String>,
}

/// An immutable entry of the database.
#[derive(Debug)]
pub struct Entry {
    root: String,
    parents: Vec<String>,
    subtrees: Vec<SubtreeNode>,
    sig: SigInfo,
}

pub open spec fn node_views(s: Seq<SubtreeNode>) -> Seq<SubtreeModel> {
    s.map_values(|n: SubtreeNode| n@)
}

impl View for Entry {
    type V = EntryModel;

    closed spec fn view(&self) -> EntryModel {
        EntryModel { root: self.root@, parents: views(self.parents@), subtrees: node_views(self.subtrees@) }
    }
}

impl Entry {
    /// A builder for an entry of the tree whose root is `root`.
    pub fn builder(root: &str) -> (r: EntryBuilder)
        ensures
            r.wf(),
            r@ == (BuilderModel { root: root@, parents: Set::empty(), subtrees: Map::empty() }),
    {
        let r = EntryBuilder { root: root.to_owned(), parents: Vec::new(), subtrees: Vec::new() };
        assert(views(r.parents@).to_set() =~= Set::empty());
        assert(nodes_map(r.subtrees@) =~= Map::empty());
        r
    }

    /// A builder for a root entry: its root is empty, and it carries the
    /// `_root` subtree, which holds an empty map.
    pub fn root_builder() -> (r: EntryBuilder)
        ensures
            r.wf(),
            r@ == (BuilderModel {
                root: Seq::empty(),
                parents: Set::empty(),
                subtrees: Map::empty().insert("_root"@, (seq!['M', '0', ':'], Set::empty())),
            }),
    {
        let empty = Nested::new();
        let marker = empty.to_text();
        let r = EntryBuilder { root: String::new(), parents: Vec::new(), subtrees: Vec::new() };
        assert(views(r.parents@).to_set() =~= Set::empty());
        assert(nodes_map(r.subtrees@) =~= Map::empty());
        let r = r.set_subtree_data("_root", marker.as_str());
        assert(r@.subtrees =~= Map::empty().insert("_root"@, (seq!['M', '0', ':'], Set::empty())));
        r
    }

    #[verifier::type_invariant]
    closed spec fn inv(&self) -> bool {
        canonical_model(self@)
    }

    /// The key name and signature attached to this entry.
    pub closed spec fn spec_sig(&self) -> (Option<Seq<char>>, Option<Seq<char>>) {
        (
            match self.sig.key {
                Some(k) => Some(k@),
                None => None,
            },
            match self.sig.sig {
                Some(s) => Some(s@),
                None => None,
            },
        )
    }

    /// The entry with exactly these parts, where they are in canonical form.
    pub fn from_parts(root: String, parents: Vec<String>, subtrees: Vec<SubtreeNode>, sig: SigInfo) -> (r: Option<Entry>)
        ensures
            canonical_model(EntryModel { root: root@, parents: views(parents@), subtrees: node_views(subtrees@) }) <==> r is Some,
            r matches Some(e) ==> e@ == (EntryModel { root: root@, parents: views(parents@), subtrees: node_views(subtrees@) })
                && e.spec_sig() == (
                match sig.key {
                    Some(k) => Some(k@),
                    None => None,
                },
                match sig.sig {
                    Some(g) => Some(g@),
                    None => None,
                },
            ),
    {
        let ghost m = EntryModel { root: root@, parents: views(parents@), subtrees: node_views(subtrees@) };
        if !is_strictly_sorted(&parents) {
            return None;
        }
        let mut names: Vec<String> = Vec::new();
        let mut i: usize = 0;
        while i < subtrees.len()
            invariant
                m == (EntryModel { root: root@, parents: views(parents@), subtrees: node_views(subtrees@) }),
                i <= subtrees@.len(),
                names@.len() == i,
                forall|j: int| 0 <= j < i ==> (#[trigger] names@[j])@ == subtrees@[j]@.name,
                forall|j: int| 0 <= j < i ==> strictly_sorted((#[trigger] subtrees@[j])@.parents) && subtrees@[j]@.data.len() > 0,
            decreases subtrees@.len() - i,
        {
            if !is_strictly_sorted(&subtrees[i].parents) || subtrees[i].data.as_str().is_empty() {
                proof {
                    assert(m.subtrees[i as int] == subtrees@[i as int]@);
                }
                return None;
            }
            names.push(subtrees[i].name.clone());
            i = i + 1;
        }
        assert(views(names@) =~= subtree_names(m.subtrees));
        if !is_strictly_sorted(&names) {
            return None;
        }
        assert forall|j: int| 0 <= j < m.subtrees.len() implies strictly_sorted((#[trigger] m.subtrees[j]).parents)
            && m.subtrees[j].data.len() > 0 by {
            assert(m.subtrees[j] == subtrees@[j]@);
        }
        Some(Entry { root, parents, subtrees, sig })
    }

    /// A copy of this entry, signature included.
    pub fn duplicate(&self) -> (r: Entry)
        ensures
            r@ == self@,
            r.spec_sig() == self.spec_sig(),
    {
        proof {
            use_type_invariant(self);
        }
        let mut nodes: Vec<SubtreeNode> = Vec::new();
        let mut i: usize = 0;
        while i < self.subtrees.len()
            invariant
                i <= self.subtrees@.len(),
                nodes@.len() == i,
                forall|j: int| 0 <= j < i ==> (#[trigger] nodes@[j])@ == self.subtrees@[j]@,
            decreases self.subtrees@.len() - i,
        {
            let n = &self.subtrees[i];
            nodes.push(SubtreeNode { name: n.name.clone(), data: n.data.clone(), parents: copy_strings(&n.parents) });
            i = i + 1;
        }
        let key = match &self.sig.key {
            Some(k) => Some(k.clone()),
            None => None,
        };
        let sig = match &self.sig.sig {
            Some(g) => Some(g.clone()),
            None => None,
        };
        assert(node_views(nodes@) =~= node_views(self.subtrees@));
        Entry { root: self.root.clone(), parents: copy_strings(&self.parents), subtrees: nodes, sig: SigInfo { key, sig } }
    }

    /// The id of the tree root; empty for a root entry.
    pub fn root(&self) -> (r: &String)
        ensures
            r@ == self@.root,
    {
        &self.root
    }

    /// The main parents, sorted and free of duplicates.
    pub fn parents(&self) -> (r: &Vec<String>)
        ensures
            views(r@) == self@.parents,
            strictly_sorted(views(r@)),
    {
        proof {
            use_type_invariant(self);
        }
        &self.parents
    }

    /// The names of the subtrees, sorted.
    pub fn subtrees(&self) -> (r: Vec<String>)
        ensures
            views(r@) == subtree_names(self@.subtrees),
            strictly_sorted(views(r@)),
    {
        proof {
            use_type_invariant(self);
        }
        let mut r: Vec<String> = Vec::new();
        let mut i: usize = 0;
        while i < self.subtrees.len()
            invariant
                i <= self.subtrees@.len(),
                r@.len() == i,
                forall|j: int| 0 <= j < i ==> (#[trigger] r@[j])@ == self.subtrees@[j]@.name,
            decreases self.subtrees@.len() - i,
        {
            r.push(self.subtrees[i].name.clone());
            i = i + 1;
        }
        assert(views(r@) =~= subtree_names(self@.subtrees));
        r
    }

    fn find(&self, name: &str) -> (r: Option<usize>)
        ensures
            match r {
                Some(i) => i < self@.subtrees.len() && self@.subtrees[i as int].name == name@ && find_subtree(self@, name@)
                    == Some(self@.subtrees[i as int]),
                None => find_subtree(self@, name@) is None,
            },
    {
        proof {
            use_type_invariant(self);
        }
        let k = name.to_owned();
        let mut i: usize = 0;
        while i < self.subtrees.len()
            invariant
                i <= self.subtrees@.len(),
                k@ == name@,
                forall|j: int| 0 <= j < i ==> (#[trigger] self.subtrees@[j])@.name != name@,
            decreases self.subtrees@.len() - i,
        {
            if self.subtrees[i].name == k {
                proof {
                    use_type_invariant(self);
                    let m = self@;
                    assert(m.subtrees[i as int].name == name@);
                    let c = choose|c: int| 0 <= c < m.subtrees.len() && (#[trigger] m.subtrees[c]).name == name@;
                    if c != i {
                        let ns = subtree_names(m.subtrees);
                        assert(ns.len() == m.subtrees.len());
                        assert(ns[c] == name@ && ns[i as int] == name@);
                        if c < i {
                            assert(str_lt(ns[c], ns[i as int]));
                        } else {
                            assert(str_lt(ns[i as int], ns[c]));
                        }
                        lemma_lt_irrefl(name@);
                    }
                }
                return Some(i);
            }
            i = i + 1;
        }
        proof {
            let m = self@;
            if exists|c: int| 0 <= c < m.subtrees.len() && (#[trigger] m.subtrees[c]).name == name@ {
                let c = choose|c: int| 0 <= c < m.subtrees.len() && (#[trigger] m.subtrees[c]).name == name@;
                assert(self.subtrees@[c]@.name == name@);
            }
        }
        None
    }

    /// The payload of subtree `name`, if the entry has that subtree.
    pub fn data(&self, name: &str) -> (r: Option<&String>)
        ensures
            match r {
                Some(d) => find_subtree(self@, name@) matches Some(n) && n.data == d@,
                None => find_subtree(self@, name@) is None,
            },
    {
        match self.find(name) {
            Some(i) => Some(&self.subtrees[i].data),
            None => None,
        }
    }

    /// The parents of subtree `name` within that subtree, sorted, if the
    /// entry has that subtree.
    pub fn subtree_parents(&self, name: &str) -> (r: Option<&Vec<String>>)
        ensures
            match r {
                Some(p) => find_subtree(self@, name@) matches Some(n) && n.parents == views(p@)
                    && strictly_sorted(views(p@)),
                None => find_subtree(self@, name@) is None,
            },
    {
        proof {
            use_type_invariant(self);
        }
        match self.find(name) {
            Some(i) => {
                assert(self@.subtrees[i as int] == self.subtrees@[i as int]@);
                Some(&self.subtrees[i].parents)
            },
            None => None,
        }
    }

    /// Whether the entry carries subtree `name`.
    pub fn in_subtree(&self, name: &str) -> (r: bool)
        ensures
            r == (find_subtree(self@, name@) is Some),
    {
        self.find(name).is_some()
    }

    /// Whether this is a root entry: its root is empty.
    pub fn is_root(&self) -> (r: bool)
        ensures
            r == (self@.root.len() == 0),
    {
        self.root.as_str().is_empty()
    }

    /// Whether this is a root entry that also carries the `_root` subtree.
    pub fn is_toplevel_root(&self) -> (r: bool)
        ensures
            r == (self@.root.len() == 0 && find_subtree(self@, "_root"@) is Some),
    {
        self.is_root() && self.in_subtree("_root")
    }

    /// Whether the entry belongs to the tree whose root is `root_id`: it names
    /// that root, or it is that root.
    pub fn in_tree(&self, root_id: &str) -> (r: bool)
        ensures
            r == (self@.root == root_id@ || entry_id(self@) == root_id@),
    {
        let t = root_id.to_owned();
        if self.root == t {
            true
        } else {
            let id = self.id();
            id == t
        }
    }

    /// The signature block.
    pub fn sig(&self) -> (r: &SigInfo)
        ensures
            r.key matches Some(k) ==> self.spec_sig().0 == Some(k@),
            r.key is None ==> self.spec_sig().0 is None,
            r.sig matches Some(g) ==> self.spec_sig().1 == Some(g@),
            r.sig is None ==> self.spec_sig().1 is None,
    {
        &self.sig
    }

    /// Attaches a signature block. The content, and so the id, stay as they
    /// were.
    pub fn set_sig(&mut self, sig: SigInfo)
        ensures
            final(self)@ == old(self)@,
            entry_id(final(self)@) == entry_id(old(self)@),
            final(self).spec_sig() == (
                match sig.key {
                    Some(k) => Some(k@),
                    None => None,
                },
                match sig.sig {
                    Some(g) => Some(g@),
                    None => None,
                },
            ),
    {
        proof {
            use_type_invariant(&*self);
        }
        self.sig = sig;
    }

    /// The canonical bytes of this entry, which its id hashes and a signature
    /// signs.
    pub fn canonical_bytes(&self) -> (r: Vec<u8>)
        ensures
            r@ == canonical_bytes(self@),
    {
        let mut out: Vec<u8> = Vec::new();
        push_str(&mut out, self.root.as_str());
        push_list(&mut out, &self.parents);
        push_decimal(&mut out, self.subtrees.len());
        out.push(58u8);
        let ghost head = out@;
        let ghost s = node_views(self.subtrees@);
        let mut i: usize = 0;
        while i < self.subtrees.len()
            invariant
                i <= self.subtrees@.len(),
                s == node_views(self.subtrees@),
                out@ == head + enc_subtrees(s.subrange(0, i as int)),
            decreases self.subtrees@.len() - i,
        {
            let n = &self.subtrees[i];
            push_str(&mut out, n.name.as_str());
            push_str(&mut out, n.data.as_str());
            push_list(&mut out, &n.parents);
            proof {
                let p = s.subrange(0, i + 1);
                assert(p.drop_last() =~= s.subrange(0, i as int));
                assert(p.last() == s[i as int]);
            }
            assert(out@ =~= head + enc_subtrees(s.subrange(0, i + 1)));
            i = i + 1;
        }
        assert(s.subrange(0, i as int) =~= s);
        assert(out@ =~= canonical_bytes(self@));
        out
    }

    /// The content-hash id of this entry, which is in canonical form.
    pub fn id(&self) -> (r: String)
        ensures
            r@ == entry_id(self@),
            canonical_model(self@),
    {
        proof {
            use_type_invariant(self);
        }
        let b = self.canonical_bytes();
        sha256_hex(b.as_slice())
    }
}

/// What the builder records for one subtree: its payload and the set of
/// its parents.
pub open spec fn node_val(n: SubtreeNode) -> (Seq<char>, Set<Seq<char>>) {
    (n@.data, n@.parents.to_set())
}

/// No two subtrees share a name.
pub open spec fn names_unique(s: Seq<SubtreeNode>) -> bool {
    forall|i: int, j: int| 0 <= i < s.len() && 0 <= j < s.len() && i != j ==> (#[trigger] s[i])@.name != (#[trigger] s[j])@.name
}

pub open spec fn nodes_map(s: Seq<SubtreeNode>) -> Map<Seq<char>, (Seq<char>, Set<Seq<char>>)> {
    Map::new(
        |k: Seq<char>| exists|i: int| 0 <= i < s.len() && (#[trigger] s[i])@.name == k,
        |k: Seq<char>| node_val(s[choose|i: int| 0 <= i < s.len() && (#[trigger] s[i])@.name == k]),
    )
}

proof fn lemma_nodes_at(s: Seq<SubtreeNode>, i: int)
    requires
        names_unique(s),
        0 <= i < s.len(),
    ensures
        nodes_map(s).contains_key(s[i]@.name),
        nodes_map(s)[s[i]@.name] == node_val(s[i]),
{
    let k = s[i]@.name;
    assert(exists|j: int| 0 <= j < s.len() && (#[trigger] s[j])@.name == k);
    let j = choose|j: int| 0 <= j < s.len() && (#[trigger] s[j])@.name == k;
    assert(j == i);
}

proof fn lemma_nodes_update(s: Seq<SubtreeNode>, i: int, n: SubtreeNode)
    requires
        names_unique(s),
        0 <= i < s.len(),
        n@.name == s[i]@.name,
    ensures
        names_unique(s.update(i, n)),
        nodes_map(s.update(i, n)) == nodes_map(s).insert(n@.name, node_val(n)),
{
    let t = s.update(i, n);
    assert(names_unique(t)) by {
        assert forall|a: int, b: int| 0 <= a < t.len() && 0 <= b < t.len() && a != b implies (#[trigger] t[a])@.name
            != (#[trigger] t[b])@.name by {
            assert(t[a]@.name == s[a]@.name);
            assert(t[b]@.name == s[b]@.name);
        }
    }
    assert forall|k: Seq<char>| #![auto] nodes_map(t).contains_key(k) == nodes_map(s).insert(n@.name, node_val(n)).contains_key(k) by {
        if nodes_map(t).contains_key(k) {
            let j = choose|j: int| 0 <= j < t.len() && (#[trigger] t[j])@.name == k;
            assert(s[j]@.name == k);
        }
        if nodes_map(s).contains_key(k) {
            let j = choose|j: int| 0 <= j < s.len() && (#[trigger] s[j])@.name == k;
            assert(t[j]@.name == k);
        }
        if k == n@.name {
            assert(t[i]@.name == k);
        }
    }
    assert forall|k: Seq<char>| #[trigger] nodes_map(t).contains_key(k) implies nodes_map(t)[k] == nodes_map(s).insert(
        n@.name,
        node_val(n),
    )[k] by {
        let j = choose|j: int| 0 <= j < t.len() && (#[trigger] t[j])@.name == k;
        lemma_nodes_at(t, j);
        if j != i {
            lemma_nodes_at(s, j);
        }
    }
    assert(nodes_map(t) =~= nodes_map(s).insert(n@.name, node_val(n)));
}

proof fn lemma_nodes_push(s: Seq<SubtreeNode>, n: SubtreeNode)
    requires
        names_unique(s),
        forall|j: int| 0 <= j < s.len() ==> (#[trigger] s[j])@.name != n@.name,
    ensures
        names_unique(s.push(n)),
        nodes_map(s.push(n)) == nodes_map(s).insert(n@.name, node_val(n)),
{
    let t = s.push(n);
    let len = s.len() as int;
    assert(names_unique(t)) by {
        assert forall|a: int, b: int| 0 <= a < t.len() && 0 <= b < t.len() && a != b implies (#[trigger] t[a])@.name
            != (#[trigger] t[b])@.name by {
            if a < len && b < len {
                assert(t[a] == s[a] && t[b] == s[b]);
            } else if a < len {
                assert(t[a] == s[a]);
            } else {
                assert(t[b] == s[b]);
            }
        }
    }
    assert forall|k: Seq<char>| #![auto] nodes_map(t).contains_key(k) == nodes_map(s).insert(n@.name, node_val(n)).contains_key(k) by {
        if nodes_map(t).contains_key(k) {
            let j = choose|j: int| 0 <= j < t.len() && (#[trigger] t[j])@.name == k;
            if j < len {
                assert(s[j]@.name == k);
            }
        }
        if nodes_map(s).contains_key(k) {
            let j = choose|j: int| 0 <= j < s.len() && (#[trigger] s[j])@.name == k;
            assert(t[j]@.name == k);
        }
        if k == n@.name {
            assert(t[len]@.name == k);
        }
    }
    assert forall|k: Seq<char>| #[trigger] nodes_map(t).contains_key(k) implies nodes_map(t)[k] == nodes_map(s).insert(
        n@.name,
        node_val(n),
    )[k] by {
        let j = choose|j: int| 0 <= j < t.len() && (#[trigger] t[j])@.name == k;
        lemma_nodes_at(t, j);
        if j < len {
            assert(t[j] == s[j]);
            lemma_nodes_at(s, j);
        }
    }
    assert(nodes_map(t) =~= nodes_map(s).insert(n@.name, node_val(n)));
}

/// The payload a builder holds for `k`, empty where it holds none.
pub open spec fn data_or_empty(m: Map<Seq<char>, (Seq<char>, Set<Seq<char>>)>, k: Seq<char>) -> Seq<char> {
    if m.contains_key(k) {
        m[k].0
    } else {
        Seq::empty()
    }
}

/// The parents a builder holds for `k`, empty where it holds none.
pub open spec fn parents_or_empty(m: Map<Seq<char>, (Seq<char>, Set<Seq<char>>)>, k: Seq<char>) -> Set<Seq<char>> {
    if m.contains_key(k) {
        m[k].1
    } else {
        Set::empty()
    }
}

fn copy_strings(v: &Vec<String>) -> (r: Vec<String>)
    ensures
        views(r@) == views(v@),
{
    let mut r: Vec<String> = Vec::new();
    let mut i: usize = 0;
    while i < v.len()
        invariant
            i <= v@.len(),
            r@.len() == i,
            views(r@) == views(v@).subrange(0, i as int),
        decreases v@.len() - i,
    {
        let ghost before = r@;
        let c = v[i].clone();
        r.push(c);
        assert(r@ == before.push(c));
        assert(c@ == v@[i as int]@);
        assert forall|j: int| 0 <= j < i implies views(r@)[j] == views(before)[j] by {
            assert(r@[j] == before[j]);
        }
        assert(views(r@)[i as int] == c@);
        assert(views(r@) =~= views(v@).subrange(0, i + 1));
        i = i + 1;
    }
    assert(views(v@).subrange(0, i as int) =~= views(v@));
    r
}

/// A mutable builder of an entry.
#[derive(Debug)]
pub struct EntryBuilder {
    root: String,
    parents: Vec<String>,
    subtrees: Vec<SubtreeNode>,
}

impl View for EntryBuilder {
    type V = BuilderModel;

    closed spec fn view(&self) -> BuilderModel {
        BuilderModel {
            root: self.root@,
            parents: views(self.parents@).to_set(),
            subtrees: nodes_map(self.subtrees@),
        }
    }
}

impl EntryBuilder {
    /// The builder's own invariant.
    pub closed spec fn wf(&self) -> bool {
        names_unique(self.subtrees@)
    }

    fn find(&self, name: &str) -> (r: Option<usize>)
        requires
            self.wf(),
        ensures
            match r {
                Some(i) => i < self.subtrees@.len() && self.subtrees@[i as int]@.name == name@,
                None => forall|j: int| 0 <= j < self.subtrees@.len() ==> (#[trigger] self.subtrees@[j])@.name != name@,
            },
    {
        let k = name.to_owned();
        let mut i: usize = 0;
        while i < self.subtrees.len()
            invariant
                i <= self.subtrees@.len(),
                k@ == name@,
                forall|j: int| 0 <= j < i ==> (#[trigger] self.subtrees@[j])@.name != name@,
            decreases self.subtrees@.len() - i,
        {
            if self.subtrees[i].name == k {
                return Some(i);
            }
            i = i + 1;
        }
        None
    }

    /// Replaces the record of subtree `name`.
    fn put_node(&mut self, n: SubtreeNode)
        requires
            old(self).wf(),
        ensures
            final(self).wf(),
            final(self)@ == (BuilderModel { subtrees: old(self)@.subtrees.insert(n@.name, node_val(n)), ..old(self)@ }),
    {
        match self.find(n.name.as_str()) {
            Some(i) => {
                proof {
                    lemma_nodes_update(self.subtrees@, i as int, n);
                }
                self.subtrees.set(i, n);
            },
            None => {
                proof {
                    lemma_nodes_push(self.subtrees@, n);
                }
                self.subtrees.push(n);
            },
        }
    }

    /// Sets the main parents, replacing those set before.
    pub fn set_parents_mut(&mut self, parents: Vec<String>)
        requires
            old(self).wf(),
        ensures
            final(self).wf(),
            final(self)@ == (BuilderModel { parents: views(parents@).to_set(), ..old(self)@ }),
    {
        self.parents = parents;
    }

    /// Sets the main parents, replacing those set before.
    pub fn set_parents(self, parents: Vec<String>) -> (r: Self)
        requires
            self.wf(),
        ensures
            r.wf(),
            r@ == (BuilderModel { parents: views(parents@).to_set(), ..self@ }),
    {
        let mut b = self;
        b.set_parents_mut(parents);
        b
    }

    /// Adds one main parent.
    pub fn add_parent_mut(&mut self, parent: &str)
        requires
            old(self).wf(),
        ensures
            final(self).wf(),
            final(self)@ == (BuilderModel { parents: old(self)@.parents.insert(parent@), ..old(self)@ }),
    {
        self.parents.push(parent.to_owned());
        proof {
            let ghost o = views(old(self).parents@);
            assert(views(self.parents@) =~= o.push(parent@));
            o.lemma_push_to_set_commute(parent@);
        }
    }

    /// Adds one main parent.
    pub fn add_parent(self, parent: &str) -> (r: Self)
        requires
            self.wf(),
        ensures
            r.wf(),
            r@ == (BuilderModel { parents: self@.parents.insert(parent@), ..self@ }),
    {
        let mut b = self;
        b.add_parent_mut(parent);
        b
    }

    /// Sets the payload of subtree `name`, keeping its parents.
    pub fn set_subtree_data_mut(&mut self, name: &str, data: &str)
        requires
            old(self).wf(),
        ensures
            final(self).wf(),
            final(self)@ == (BuilderModel {
                subtrees: old(self)@.subtrees.insert(name@, (data@, parents_or_empty(old(self)@.subtrees, name@))),
                ..old(self)@
            }),
    {
        let parents = match self.find(name) {
            Some(i) => {
                proof {
                    lemma_nodes_at(self.subtrees@, i as int);
                }
                copy_strings(&self.subtrees[i].parents)
            },
            None => Vec::new(),
        };
        let n = SubtreeNode { name: name.to_owned(), data: data.to_owned(), parents };
        assert(node_val(n) == (data@, parents_or_empty(self@.subtrees, name@))) by {
            if !self@.subtrees.contains_key(name@) {
                assert(views(n.parents@).to_set() =~= Set::empty());
            }
        }
        self.put_node(n);
    }

    /// Sets the payload of subtree `name`, keeping its parents.
    pub fn set_subtree_data(self, name: &str, data: &str) -> (r: Self)
        requires
            self.wf(),
        ensures
            r.wf(),
            r@ == (BuilderModel {
                subtrees: self@.subtrees.insert(name@, (data@, parents_or_empty(self@.subtrees, name@))),
                ..self@
            }),
    {
        let mut b = self;
        b.set_subtree_data_mut(name, data);
        b
    }

    /// Sets the parents of subtree `name`, keeping its payload.
    pub fn set_subtree_parents_mut(&mut self, name: &str, parents: Vec<String>)
        requires
            old(self).wf(),
        ensures
            final(self).wf(),
            final(self)@ == (BuilderModel {
                subtrees: old(self)@.subtrees.insert(name@, (data_or_empty(old(self)@.subtrees, name@), views(parents@).to_set())),
                ..old(self)@
            }),
    {
        let data = match self.find(name) {
            Some(i) => {
                proof {
                    lemma_nodes_at(self.subtrees@, i as int);
                }
                self.subtrees[i].data.clone()
            },
            None => String::new(),
        };
        let n = SubtreeNode { name: name.to_owned(), data, parents };
        self.put_node(n);
    }

    /// Sets the parents of subtree `name`, keeping its payload.
    pub fn set_subtree_parents(self, name: &str, parents: Vec<String>) -> (r: Self)
        requires
            self.wf(),
        ensures
            r.wf(),
            r@ == (BuilderModel {
                subtrees: self@.subtrees.insert(name@, (data_or_empty(self@.subtrees, name@), views(parents@).to_set())),
                ..self@
            }),
    {
        let mut b = self;
        b.set_subtree_parents_mut(name, parents);
        b
    }

    /// Adds one parent to subtree `name`.
    pub fn add_subtree_parent_mut(&mut self, name: &str, parent: &str)
        requires
            old(self).wf(),
        ensures
            final(self).wf(),
            final(self)@ == (BuilderModel {
                subtrees: old(self)@.subtrees.insert(
                    name@,
                    (data_or_empty(old(self)@.subtrees, name@), parents_or_empty(old(self)@.subtrees, name@).insert(parent@)),
                ),
                ..old(self)@
            }),
    {
        let (data, mut parents) = match self.find(name) {
            Some(i) => {
                proof {
                    lemma_nodes_at(self.subtrees@, i as int);
                }
                (self.subtrees[i].data.clone(), copy_strings(&self.subtrees[i].parents))
            },
            None => (String::new(), Vec::new()),
        };
        let ghost before = views(parents@);
        parents.push(parent.to_owned());
        proof {
            assert(views(parents@) =~= before.push(parent@));
            before.lemma_push_to_set_commute(parent@);
            if !self@.subtrees.contains_key(name@) {
                assert(before.to_set() =~= Set::empty());
            }
        }
        let n = SubtreeNode { name: name.to_owned(), data, parents };
        self.put_node(n);
    }

    /// Adds one parent to subtree `name`.
    pub fn add_subtree_parent(self, name: &str, parent: &str) -> (r: Self)
        requires
            self.wf(),
        ensures
            r.wf(),
            r@ == (BuilderModel {
                subtrees: self@.subtrees.insert(
                    name@,
                    (data_or_empty(self@.subtrees, name@), parents_or_empty(self@.subtrees, name@).insert(parent@)),
                ),
                ..self@
            }),
    {
        let mut b = self;
        b.add_subtree_parent_mut(name, parent);
        b
    }

    /// Drops every subtree whose payload is empty.
    pub fn remove_empty_subtrees_mut(&mut self)
        requires
            old(self).wf(),
        ensures
            final(self).wf(),
            final(self)@ == (BuilderModel { subtrees: nonempty_nodes(old(self)@.subtrees), ..old(self)@ }),
    {
        let ghost s = self.subtrees@;
        let mut kept: Vec<SubtreeNode> = Vec::new();
        let mut old_nodes: Vec<SubtreeNode> = Vec::new();
        std::mem::swap(&mut old_nodes, &mut self.subtrees);
        assert(old_nodes@ == s);
        let mut i: usize = 0;
        proof {
            assert(nodes_map(kept@) =~= nonempty_nodes(nodes_map(s.subrange(0, 0))));
        }
        while i < old_nodes.len()
            invariant
                old_nodes@ == s,
                names_unique(s),
                i <= s.len(),
                names_unique(kept@),
                forall|a: int| 0 <= a < kept@.len() ==> exists|b: int| 0 <= b < i && (#[trigger] s[b])@.name == (#[trigger] kept@[a])@.name,
                nodes_map(kept@) == nonempty_nodes(nodes_map(s.subrange(0, i as int))),
            decreases s.len() - i,
        {
            let n = &old_nodes[i];
            let ghost pre = s.subrange(0, i as int);
            proof {
                assert(s.subrange(0, i + 1) =~= pre.push(s[i as int]));
                assert(names_unique(pre));
                assert forall|j: int| 0 <= j < pre.len() implies (#[trigger] pre[j])@.name != s[i as int]@.name by {
                    assert(pre[j] == s[j]);
                }
                lemma_nodes_push(pre, s[i as int]);
            }
            if !n.data.as_str().is_empty() {
                let c = SubtreeNode { name: n.name.clone(), data: n.data.clone(), parents: copy_strings(&n.parents) };
                proof {
                    assert forall|j: int| 0 <= j < kept@.len() implies (#[trigger] kept@[j])@.name != c@.name by {
                        let b = choose|b: int| 0 <= b < i && (#[trigger] s[b])@.name == kept@[j]@.name;
                        assert(b != i);
                    }
                    lemma_nodes_push(kept@, c);
                    assert(nonempty_nodes(nodes_map(s.subrange(0, i + 1))) =~= nonempty_nodes(nodes_map(pre)).insert(
                        c@.name,
                        node_val(c),
                    ));
                }
                kept.push(c);
                proof {
                    assert forall|a: int| 0 <= a < kept@.len() implies exists|b: int| 0 <= b < i + 1 && (#[trigger] s[b])@.name
                        == (#[trigger] kept@[a])@.name by {
                        if a == kept@.len() - 1 {
                            assert(s[i as int]@.name == kept@[a]@.name);
                        } else {
                            let b = choose|b: int| 0 <= b < i && (#[trigger] s[b])@.name == kept@[a]@.name;
                            assert(s[b]@.name == kept@[a]@.name);
                        }
                    }
                }
            } else {
                proof {
                    assert(nonempty_nodes(nodes_map(s.subrange(0, i + 1))) =~= nonempty_nodes(nodes_map(pre)));
                    assert forall|a: int| 0 <= a < kept@.len() implies exists|b: int| 0 <= b < i + 1 && (#[trigger] s[b])@.name
                        == (#[trigger] kept@[a])@.name by {
                        let b = choose|b: int| 0 <= b < i && (#[trigger] s[b])@.name == kept@[a]@.name;
                        assert(s[b]@.name == kept@[a]@.name);
                    }
                }
            }
            i = i + 1;
        }
        assert(s.subrange(0, i as int) =~= s);
        self.subtrees = kept;
    }

    /// Drops every subtree whose payload is empty.
    pub fn remove_empty_subtrees(self) -> (r: Self)
        requires
            self.wf(),
        ensures
            r.wf(),
            r@ == (BuilderModel { subtrees: nonempty_nodes(self@.subtrees), ..self@ }),
    {
        let mut b = self;
        b.remove_empty_subtrees_mut();
        b
    }

    /// The names of the subtrees with a non-empty payload.
    fn live_names(&self) -> (r: Vec<String>)
        requires
            self.wf(),
        ensures
            views(r@).to_set() == self@.subtrees.dom().filter(|k: Seq<char>| self@.subtrees[k].0.len() > 0),
    {
        let ghost s = self.subtrees@;
        let ghost m = self@.subtrees;
        let mut r: Vec<String> = Vec::new();
        let mut i: usize = 0;
        while i < self.subtrees.len()
            invariant
                s == self.subtrees@,
                m == self@.subtrees,
                names_unique(s),
                i <= s.len(),
                forall|k: Seq<char>| #![auto] views(r@).to_set().contains(k) <==> exists|j: int| 0 <= j < i && s[j]@.name == k
                    && s[j]@.data.len() > 0,
            decreases s.len() - i,
        {
            let ghost before = views(r@);
            if !self.subtrees[i].data.as_str().is_empty() {
                let c = self.subtrees[i].name.clone();
                r.push(c);
                proof {
                    assert(views(r@) =~= before.push(c@));
                    before.lemma_push_to_set_commute(c@);
                }
            }
            proof {
                assert forall|k: Seq<char>| #![auto] views(r@).to_set().contains(k) <==> exists|j: int| 0 <= j < i + 1
                    && s[j]@.name == k && s[j]@.data.len() > 0 by {
                    if exists|j: int| 0 <= j < i + 1 && s[j]@.name == k && s[j]@.data.len() > 0 {
                        let j = choose|j: int| 0 <= j < i + 1 && s[j]@.name == k && s[j]@.data.len() > 0;
                        if j < i {
                            assert(exists|j: int| 0 <= j < i && s[j]@.name == k && s[j]@.data.len() > 0);
                        }
                    }
                }
            }
            i = i + 1;
        }
        proof {
            let f = m.dom().filter(|k: Seq<char>| m[k].0.len() > 0);
            assert forall|k: Seq<char>| views(r@).to_set().contains(k) <==> f.contains(k) by {
                if views(r@).to_set().contains(k) {
                    let j = choose|j: int| 0 <= j < i && s[j]@.name == k && s[j]@.data.len() > 0;
                    lemma_nodes_at(s, j);
                }
                if f.contains(k) {
                    let j = choose|j: int| 0 <= j < s.len() && (#[trigger] s[j])@.name == k;
                    lemma_nodes_at(s, j);
                    assert(s[j]@.name == k && s[j]@.data.len() > 0);
                }
            }
            assert(views(r@).to_set() =~= f);
        }
        r
    }

    /// Finishes the entry: id lists sorted and free of duplicates, subtrees
    /// with an empty payload dropped, no signature.
    pub fn build(self) -> (r: Entry)
        requires
            self.wf(),
        ensures
            r@ == built(self@),
            r.spec_sig() == (None::<Seq<char>>, None::<Seq<char>>),
            sorted_of(nonempty_nodes(self@.subtrees).dom()).to_set() == nonempty_nodes(self@.subtrees).dom(),
            r@.parents.to_set() == self@.parents,
            forall|i: int| 0 <= i < r@.subtrees.len() ==> nonempty_nodes(self@.subtrees).contains_key(
                (#[trigger] r@.subtrees[i]).name,
            ) && r@.subtrees[i].parents.to_set() == nonempty_nodes(self@.subtrees)[r@.subtrees[i].name].1
                && r@.subtrees[i].data == nonempty_nodes(self@.subtrees)[r@.subtrees[i].name].0,
    {
        let ghost m = self@.subtrees;
        let ghost s = self.subtrees@;
        let parents = sorted_set(&self.parents);
        proof {
            lemma_sorted_of(views(parents@));
        }
        let names = self.live_names();
        let sorted = sorted_set(&names);
        let ghost ne = nonempty_nodes(m);
        let ghost f = ne.dom();
        proof {
            assert(m.dom().filter(|k: Seq<char>| m[k].0.len() > 0) =~= f);
            lemma_sorted_of(views(sorted@));
        }
        let ghost target = sorted_of(f).map_values(
            |n: Seq<char>| SubtreeModel { name: n, data: ne[n].0, parents: sorted_of(ne[n].1) },
        );
        let mut out: Vec<SubtreeNode> = Vec::new();
        let mut i: usize = 0;
        while i < sorted.len()
            invariant
                s == self.subtrees@,
                m == self@.subtrees,
                names_unique(s),
                i <= sorted@.len(),
                views(sorted@) == sorted_of(f),
                views(sorted@).to_set() == f,
                ne == nonempty_nodes(m),
                f == ne.dom(),
                target == sorted_of(f).map_values(
                    |n: Seq<char>| SubtreeModel { name: n, data: ne[n].0, parents: sorted_of(ne[n].1) },
                ),
                out@.len() == i,
                forall|j: int| 0 <= j < i ==> (#[trigger] out@[j])@ == target[j],
                forall|j: int| 0 <= j < i ==> strictly_sorted((#[trigger] out@[j])@.parents) && out@[j]@.data.len() > 0,
                forall|j: int| 0 <= j < i ==> ne.contains_key((#[trigger] out@[j])@.name) && out@[j]@.parents.to_set() == ne[out@[j]@.name].1,
            decreases sorted@.len() - i,
        {
            let name = &sorted[i];
            proof {
                assert(views(sorted@)[i as int] == name@);
                assert(f.contains(name@));
            }
            match self.find(name.as_str()) {
                Some(k) => {
                    proof {
                        lemma_nodes_at(s, k as int);
                    }
                    let node = &self.subtrees[k];
                    let ps = sorted_set(&node.parents);
                    proof {
                        lemma_sorted_of(views(ps@));
                    }
                    let c = SubtreeNode { name: name.clone(), data: node.data.clone(), parents: ps };
                    assert(c@ == target[i as int]);
                    assert(ne.contains_key(c@.name) && c@.parents.to_set() == ne[c@.name].1);
                    out.push(c);
                },
                None => {
                    proof {
                        let j = choose|j: int| 0 <= j < s.len() && (#[trigger] s[j])@.name == name@;
                        assert(false);
                    }
                },
            }
            i = i + 1;
        }
        proof {
            assert(node_views(out@) =~= target);
            assert(subtree_names(target) =~= sorted_of(f));
            assert forall|j: int| 0 <= j < target.len() implies strictly_sorted((#[trigger] target[j]).parents)
                && target[j].data.len() > 0 by {
                assert(out@[j]@ == target[j]);
            }
        }
        let r = Entry {
            root: self.root,
            parents,
            subtrees: out,
            sig: SigInfo { key: None, sig: None },
        };
        r
    }
}

/// The subtree of `m` named `n`, if there is one.
pub open spec fn find_subtree(m: EntryModel, n: Seq<char>) -> Option<SubtreeModel> {
    if exists|i: int| 0 <= i < m.subtrees.len() && (#[trigger] m.subtrees[i]).name == n {
        Some(m.subtrees[choose|i: int| 0 <= i < m.subtrees.len() && (#[trigger] m.subtrees[i]).name == n])
    } else {
        None
    }
}

/// Two builders that set the same root, the same main parents and the same
/// subtrees with non-empty payloads, each with the same payload and parents,
/// build entries with equal content and so equal ids, whatever the order in
/// which things were set and however often.
pub proof fn law_content_addressed(b1: BuilderModel, b2: BuilderModel)
    requires
        b1.root == b2.root,
        b1.parents == b2.parents,
        nonempty_nodes(b1.subtrees) == nonempty_nodes(b2.subtrees),
    ensures
        built(b1) == built(b2),
        entry_id(built(b1)) == entry_id(built(b2)),
{
    assert(built(b1) =~= built(b2));
}

/// In an entry with sorted subtree names, looking up the name at index `i`
/// finds the subtree at index `i`.
pub proof fn lemma_find_sorted(m: EntryModel, i: int)
    requires
        strictly_sorted(subtree_names(m.subtrees)),
        0 <= i < m.subtrees.len(),
    ensures
        find_subtree(m, m.subtrees[i].name) == Some(m.subtrees[i]),
{
    let n = m.subtrees[i].name;
    let ns = subtree_names(m.subtrees);
    assert(ns[i] == n);
    assert(exists|c: int| 0 <= c < m.subtrees.len() && (#[trigger] m.subtrees[c]).name == n);
    let c = choose|c: int| 0 <= c < m.subtrees.len() && (#[trigger] m.subtrees[c]).name == n;
    if c != i {
        assert(ns[c] == n);
        if c < i {
            assert(str_lt(ns[c], ns[i]));
        } else {
            assert(str_lt(ns[i], ns[c]));
        }
        lemma_lt_irrefl(n);
    }
}

/// The subtrees whose payload is not empty.
pub open spec fn nonempty_nodes(m: Map<Seq<char>, (Seq<char>, Set<Seq<char>>)>) -> Map<Seq<char>, (Seq<char>, Set<Seq<char>>)> {
    Map::new(|k: Seq<char>| m.contains_key(k) && m[k].0.len() > 0, |k: Seq<char>| m[k])
}

} // verus!
