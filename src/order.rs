//! Lexicographic order on strings and the canonical, sorted form of a set of
//! strings.
use vstd::prelude::*;

verus! {

/// Strings compare character by character by code point; a proper prefix
/// comes first.
pub open spec fn str_lt(a: Seq<char>, b: Seq<char>) -> bool
    decreases a.len(),
{
    if a.len() == 0 {
        b.len() > 0
    } else if b.len() == 0 {
        false
    } else if a[0] != b[0] {
        (a[0] as u32) < (b[0] as u32)
    } else {
        str_lt(a.drop_first(), b.drop_first())
    }
}

/// Every element is smaller than every later one.
pub open spec fn strictly_sorted(s: Seq<Seq<char>>) -> bool {
    forall|i: int, j: int| 0 <= i < j < s.len() ==> str_lt(#[trigger] s[i], #[trigger] s[j])
}

/// The character sequences of a sequence of strings.
pub open spec fn views(v: Seq<String>) -> Seq<Seq<char>> {
    v.map_values(|s: String| s@)
}

pub proof fn lemma_lt_irrefl(a: Seq<char>)
    ensures
        !str_lt(a, a),
    decreases a.len(),
{
    if a.len() > 0 {
        lemma_lt_irrefl(a.drop_first());
    }
}

pub proof fn lemma_lt_trans(a: Seq<char>, b: Seq<char>, c: Seq<char>)
    requires
        str_lt(a, b),
        str_lt(b, c),
    ensures
        str_lt(a, c),
    decreases a.len(),
{
    if a.len() > 0 && b.len() > 0 && c.len() > 0 {
        if a[0] == b[0] && b[0] == c[0] {
            lemma_lt_trans(a.drop_first(), b.drop_first(), c.drop_first());
        }
    }
}

pub proof fn lemma_lt_total(a: Seq<char>, b: Seq<char>)
    ensures
        a == b || str_lt(a, b) || str_lt(b, a),
    decreases a.len(),
{
    if a.len() > 0 && b.len() > 0 && a[0] == b[0] {
        lemma_lt_total(a.drop_first(), b.drop_first());
        if a.drop_first() == b.drop_first() {
            assert(a =~= seq![a[0]] + a.drop_first());
            assert(b =~= seq![b[0]] + b.drop_first());
        }
    } else if a.len() > 0 && b.len() > 0 {
        let x = a[0] as u32;
        let y = b[0] as u32;
        vstd::utf8::char_u32_cast(a[0], x);
        vstd::utf8::char_u32_cast(b[0], y);
    } else if a.len() == 0 && b.len() == 0 {
        assert(a =~= b);
    }
}

pub proof fn lemma_lt_asym(a: Seq<char>, b: Seq<char>)
    requires
        str_lt(a, b),
    ensures
        !str_lt(b, a),
        a != b,
{
    lemma_lt_irrefl(a);
    if str_lt(b, a) {
        lemma_lt_trans(a, b, a);
    }
}

/// Two strictly sorted sequences that hold the same elements are equal: the
/// sorted form of a set is unique.
pub proof fn lemma_sorted_unique(a: Seq<Seq<char>>, b: Seq<Seq<char>>)
    requires
        strictly_sorted(a),
        strictly_sorted(b),
        a.to_set() == b.to_set(),
    ensures
        a == b,
    decreases a.len(),
{
    if a.len() == 0 {
        if b.len() > 0 {
            assert(b.to_set().contains(b[0]));
        }
        assert(a =~= b);
    } else if b.len() == 0 {
        assert(a.to_set().contains(a[0]));
    } else {
        // the first elements are both the least element of the set
        assert(b.to_set().contains(a[0]));
        assert(a.to_set().contains(b[0]));
        let i = choose|i: int| 0 <= i < b.len() && b[i] == a[0];
        let j = choose|j: int| 0 <= j < a.len() && a[j] == b[0];
        if a[0] != b[0] {
            assert(i > 0 && j > 0);
            lemma_lt_asym(b[0], b[i]);
            assert(str_lt(a[0], a[j]));
            assert(false);
        }
        let ta = a.drop_first();
        let tb = b.drop_first();
        assert forall|x: Seq<char>| ta.to_set().contains(x) <==> tb.to_set().contains(x) by {
            if ta.to_set().contains(x) {
                let k = choose|k: int| 0 <= k < ta.len() && ta[k] == x;
                assert(a[k + 1] == x);
                lemma_lt_asym(a[0], x);
                assert(a.to_set().contains(x));
                let l = choose|l: int| 0 <= l < b.len() && b[l] == x;
                assert(l != 0);
                assert(tb[l - 1] == x);
            }
            if tb.to_set().contains(x) {
                let k = choose|k: int| 0 <= k < tb.len() && tb[k] == x;
                assert(b[k + 1] == x);
                lemma_lt_asym(b[0], x);
                assert(b.to_set().contains(x));
                let l = choose|l: int| 0 <= l < a.len() && a[l] == x;
                assert(l != 0);
                assert(ta[l - 1] == x);
            }
        }
        assert(ta.to_set() =~= tb.to_set());
        lemma_sorted_unique(ta, tb);
        assert(a =~= seq![a[0]] + ta);
        assert(b =~= seq![b[0]] + tb);
    }
}

/// Compares two strings by `str_lt`.
pub fn less_than(a: &str, b: &str) -> (r: bool)
    ensures
        r == str_lt(a@, b@),
{
    let la = a.unicode_len();
    let lb = b.unicode_len();
    let mut i: usize = 0;
    assert(a@.subrange(0, la as int) =~= a@);
    assert(b@.subrange(0, lb as int) =~= b@);
    assert(a@.subrange(0, 0) =~= b@.subrange(0, 0));
    while i < la && i < lb
        invariant
            la == a@.len(),
            lb == b@.len(),
            i <= la,
            i <= lb,
            a@.subrange(0, i as int) == b@.subrange(0, i as int),
            str_lt(a@, b@) == str_lt(a@.subrange(i as int, la as int), b@.subrange(i as int, lb as int)),
        decreases la - i,
    {
        let ca = a.get_char(i);
        let cb = b.get_char(i);
        let ghost sa = a@.subrange(i as int, la as int);
        let ghost sb = b@.subrange(i as int, lb as int);
        assert(sa[0] == ca && sb[0] == cb);
        if ca != cb {
            return (ca as u32) < (cb as u32);
        }
        assert(sa.drop_first() =~= a@.subrange(i + 1, la as int));
        assert(sb.drop_first() =~= b@.subrange(i + 1, lb as int));
        assert(a@.subrange(0, i + 1) =~= a@.subrange(0, i as int).push(ca));
        assert(b@.subrange(0, i + 1) =~= b@.subrange(0, i as int).push(cb));
        i = i + 1;
    }
    i < lb
}

/// Whether a sorted sequence contains `x`, and where `x` belongs in it.
fn find_slot(v: &Vec<String>, x: &String) -> (r: (usize, bool))
    requires
        strictly_sorted(views(v@)),
    ensures
        r.0 <= v@.len(),
        r.1 ==> r.0 < v@.len() && v@[r.0 as int]@ == x@,
        !r.1 ==> forall|k: int| 0 <= k < r.0 ==> str_lt(#[trigger] v@[k]@, x@),
        !r.1 ==> forall|k: int| r.0 <= k < v@.len() ==> str_lt(x@, #[trigger] v@[k]@),
{
    let mut i: usize = 0;
    while i < v.len()
        invariant
            i <= v@.len(),
            strictly_sorted(views(v@)),
            forall|k: int| 0 <= k < i ==> str_lt(#[trigger] v@[k]@, x@),
        decreases v@.len() - i,
    {
        if *x == v[i] {
            return (i, true);
        }
        if less_than(x.as_str(), v[i].as_str()) {
            assert forall|k: int| i <= k < v@.len() implies str_lt(x@, #[trigger] v@[k]@) by {
                if k > i {
                    assert(str_lt(views(v@)[i as int], views(v@)[k]));
                    lemma_lt_trans(x@, v@[i as int]@, v@[k]@);
                }
            }
            return (i, false);
        }
        proof {
            lemma_lt_total(x@, v@[i as int]@);
        }
        i = i + 1;
    }
    (i, false)
}

/// The strictly sorted sequence of the distinct strings in `v`.
pub fn sorted_set(v: &Vec<String>) -> (r: Vec<String>)
    ensures
        strictly_sorted(views(r@)),
        views(r@).to_set() == views(v@).to_set(),
{
    let mut r: Vec<String> = Vec::new();
    let mut i: usize = 0;
    while i < v.len()
        invariant
            i <= v@.len(),
            strictly_sorted(views(r@)),
            views(r@).to_set() == views(v@.subrange(0, i as int)).to_set(),
        decreases v@.len() - i,
    {
        let x = &v[i];
        let (pos, found) = find_slot(&r, x);
        let ghost old_r = r@;
        if !found {
            r.insert(pos, x.clone());
            proof {
                assert(views(r@) =~= views(old_r).insert(pos as int, x@));
                assert forall|a: int, b: int| 0 <= a < b < views(r@).len() implies str_lt(
                    #[trigger] views(r@)[a],
                    #[trigger] views(r@)[b],
                ) by {
                    if b < pos {
                        assert(views(old_r)[a] == views(r@)[a]);
                    } else if a > pos {
                        assert(views(old_r)[a - 1] == views(r@)[a]);
                        assert(views(old_r)[b - 1] == views(r@)[b]);
                    } else if a == pos {
                        assert(views(old_r)[b - 1] == views(r@)[b]);
                        assert(str_lt(x@, old_r[b - 1]@));
                    } else if b == pos {
                        assert(str_lt(old_r[a]@, x@));
                    } else {
                        assert(views(old_r)[a] == views(r@)[a]);
                        assert(views(old_r)[b - 1] == views(r@)[b]);
                    }
                }
            }
        }
        proof {
            let pre = views(v@.subrange(0, i as int));
            let post = views(v@.subrange(0, i + 1));
            assert(post =~= pre.push(x@));
            assert(views(r@).to_set() =~= views(old_r).to_set().insert(x@)) by {
                if !found {
                    assert forall|y: Seq<char>| views(r@).to_set().contains(y) <==> views(old_r).to_set().insert(x@).contains(y) by {
                        if views(r@).to_set().contains(y) {
                            let k = choose|k: int| 0 <= k < views(r@).len() && views(r@)[k] == y;
                            if k < pos {
                                assert(views(old_r)[k] == y);
                            } else if k > pos {
                                assert(views(old_r)[k - 1] == y);
                            }
                        }
                        if views(old_r).to_set().contains(y) {
                            let k = choose|k: int| 0 <= k < views(old_r).len() && views(old_r)[k] == y;
                            if k < pos {
                                assert(views(r@)[k] == y);
                            } else {
                                assert(views(r@)[k + 1] == y);
                            }
                        }
                        if y == x@ {
                            assert(views(r@)[pos as int] == y);
                        }
                    }
                } else {
                    assert(views(old_r)[pos as int] == x@);
                    assert(views(old_r).to_set().contains(x@));
                }
            }
            pre.lemma_push_to_set_commute(x@);
        }
        i = i + 1;
    }
    assert(v@.subrange(0, i as int) =~= v@);
    r
}

/// Whether `v` is strictly sorted.
pub fn is_strictly_sorted(v: &Vec<String>) -> (r: bool)
    ensures
        r == strictly_sorted(views(v@)),
{
    let mut i: usize = 1;
    if v.len() == 0 {
        return true;
    }
    while i < v.len()
        invariant
            1 <= i <= v@.len(),
            forall|a: int, b: int| 0 <= a < b < i ==> str_lt(#[trigger] views(v@)[a], #[trigger] views(v@)[b]),
        decreases v@.len() - i,
    {
        if !less_than(v[i - 1].as_str(), v[i].as_str()) {
            proof {
                assert(!str_lt(views(v@)[i - 1], views(v@)[i as int]));
            }
            return false;
        }
        proof {
            assert forall|a: int, b: int| 0 <= a < b < i + 1 implies str_lt(#[trigger] views(v@)[a], #[trigger] views(v@)[b]) by {
                if b == i && a < i - 1 {
                    lemma_lt_trans(views(v@)[a], views(v@)[i - 1], views(v@)[b]);
                }
            }
        }
        i = i + 1;
    }
    true
}

} // verus!
