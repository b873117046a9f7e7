//! The replicated value model: a recursive map with text leaves and
//! tombstones, and its merge law.
use vstd::prelude::*;

verus! {

broadcast use vstd::std_specs::vec::axiom_vec_index_decreases;

/// The mathematical meaning of a value.
pub enum Model {
    Text(Seq<char>),
    Node(Map<Seq<char>, Model>),
    Deleted,
}

/// Merging `b` into `a`: two nodes merge key by key, anything else is
/// replaced by the value from `b`.
pub open spec fn merge_model(a: Model, b: Model) -> Model
    decreases b,
{
    match b {
        Model::Node(mb) => match a {
            Model::Node(ma) => Model::Node(
                Map::new(
                    |k: Seq<char>| ma.contains_key(k) || mb.contains_key(k),
                    |k: Seq<char>|
                        if mb.contains_key(k) {
                            if ma.contains_key(k) {
                                merge_model(ma[k], mb[k])
                            } else {
                                mb[k]
                            }
                        } else {
                            ma[k]
                        },
                ),
            ),
            _ => b,
        },
        _ => b,
    }
}

/// Errors of the value model.
#[derive(Debug)]
pub enum CRDTError {
    /// A path led through something that is not a map.
    InvalidData { reason: String },
    /// The operation is not allowed on this value.
    InvalidOperation { reason: String },
}

/// A value stored in a replicated map.
#[derive(Debug)]
pub enum Value {
    Text(String),
    Node(Nested),
    Deleted,
}

/// A replicated map from string keys to values; a removed key holds a
/// tombstone.
#[derive(Debug)]
pub struct Nested {
    pub(crate) entries: Vec<(String, Value)>,
}

impl Value {
    pub closed spec fn model(self) -> Model
        decreases self, 0nat,
    {
        match self {
            Value::Text(s) => Model::Text(s@),
            Value::Node(n) => Model::Node(entries_model(n.entries, 0)),
            Value::Deleted => Model::Deleted,
        }
    }
}

pub closed spec fn entries_model(es: Vec<(String, Value)>, i: nat) -> Map<Seq<char>, Model>
    decreases es, es.len() - i,
{
    if i >= es.len() {
        Map::empty()
    } else {
        entries_model(es, i + 1).insert(es[i as int].0@, es[i as int].1.model())
    }
}

/// The values stored under each key, node by node.
pub open spec fn merge_maps(ma: Map<Seq<char>, Model>, mb: Map<Seq<char>, Model>) -> Map<Seq<char>, Model> {
    Map::new(
        |k: Seq<char>| ma.contains_key(k) || mb.contains_key(k),
        |k: Seq<char>|
            if mb.contains_key(k) {
                if ma.contains_key(k) {
                    merge_model(ma[k], mb[k])
                } else {
                    mb[k]
                }
            } else {
                ma[k]
            },
    )
}

pub proof fn lemma_merge_node(ma: Map<Seq<char>, Model>, mb: Map<Seq<char>, Model>)
    ensures
        merge_model(Model::Node(ma), Model::Node(mb)) == Model::Node(merge_maps(ma, mb)),
{
    assert(merge_maps(ma, mb) =~= match merge_model(Model::Node(ma), Model::Node(mb)) {
        Model::Node(m) => m,
        _ => Map::empty(),
    });
}

/// Two values that agree wherever both hold something: equal leaves, and
/// nodes whose shared keys hold agreeing values.
pub open spec fn compatible(a: Model, b: Model) -> bool
    decreases b,
{
    match b {
        Model::Node(mb) => match a {
            Model::Node(ma) => forall|k: Seq<char>|
                ma.contains_key(k) && mb.contains_key(k) ==> compatible(ma[k], #[trigger] mb[k]),
            _ => a == b,
        },
        _ => a == b,
    }
}

proof fn lemma_merge_model_idempotent(x: Model)
    ensures
        merge_model(x, x) == x,
    decreases x,
{
    if let Model::Node(m) = x {
        assert forall|k: Seq<char>| m.contains_key(k) implies merge_model(m[k], m[k]) == m[k] by {
            lemma_merge_model_idempotent(m[k]);
        }
        assert(merge_maps(m, m) =~= m);
        lemma_merge_node(m, m);
    }
}

proof fn lemma_merge_model_commutes(a: Model, b: Model)
    requires
        compatible(a, b),
    ensures
        merge_model(a, b) == merge_model(b, a),
    decreases b,
{
    match b {
        Model::Node(mb) => match a {
            Model::Node(ma) => {
                assert forall|k: Seq<char>| ma.contains_key(k) && mb.contains_key(k) implies merge_model(ma[k], mb[k])
                    == merge_model(mb[k], ma[k]) by {
                    lemma_merge_model_commutes(ma[k], mb[k]);
                }
                assert(merge_maps(ma, mb) =~= merge_maps(mb, ma));
                lemma_merge_node(ma, mb);
                lemma_merge_node(mb, ma);
            },
            _ => {},
        },
        _ => {},
    }
}

/// Merging in an empty map changes nothing.
pub proof fn law_merge_empty(m: Map<Seq<char>, Model>)
    ensures
        merge_maps(m, Map::empty()) == m,
{
    lemma_merge_maps_empty(m);
}

/// Merging a map into itself changes nothing.
pub proof fn law_merge_idempotent(m: Map<Seq<char>, Model>)
    ensures
        merge_maps(m, m) == m,
{
    lemma_merge_model_idempotent(Model::Node(m));
    lemma_merge_node(m, m);
}

/// A merge holds the keys of both sides.
pub proof fn law_merge_keys(a: Map<Seq<char>, Model>, b: Map<Seq<char>, Model>)
    ensures
        merge_maps(a, b).dom() == a.dom().union(b.dom()),
{
    assert(merge_maps(a, b).dom() =~= a.dom().union(b.dom()));
}

/// Merge is commutative where the two sides agree on every shared key; where
/// they conflict, the side merged in wins.
pub proof fn law_merge_commutes(a: Map<Seq<char>, Model>, b: Map<Seq<char>, Model>)
    requires
        compatible(Model::Node(a), Model::Node(b)),
    ensures
        merge_maps(a, b) == merge_maps(b, a),
{
    lemma_merge_model_commutes(Model::Node(a), Model::Node(b));
    lemma_merge_node(a, b);
    lemma_merge_node(b, a);
}

/// A tombstone on the side merged in wins over whatever was there.
pub proof fn law_tombstone_wins(a: Map<Seq<char>, Model>, b: Map<Seq<char>, Model>, k: Seq<char>)
    requires
        b.contains_key(k),
        b[k] is Deleted,
    ensures
        merge_maps(a, b).contains_key(k),
        merge_maps(a, b)[k] is Deleted,
{
}

/// A later concrete write resurrects a tombstone.
pub proof fn law_resurrection(a: Map<Seq<char>, Model>, b: Map<Seq<char>, Model>, k: Seq<char>)
    requires
        a.contains_key(k),
        a[k] is Deleted,
        b.contains_key(k),
    ensures
        merge_maps(a, b)[k] == b[k],
{
}

/// The key stored at index `j` is not stored at any index in `i..j`.
pub open spec fn first_at(es: Seq<(String, Value)>, i: int, j: int) -> bool {
    forall|l: int| i <= l < j ==> (#[trigger] es[l]).0@ != es[j].0@
}

proof fn lemma_entries_model(es: Vec<(String, Value)>, i: nat, k: Seq<char>)
    requires
        i <= es.len(),
    ensures
        entries_model(es, i).contains_key(k) <==> exists|j: int| i <= j < es.len() && (#[trigger] es@[j]).0@ == k,
        forall|j: int|
            i <= j < es.len() && (#[trigger] es@[j]).0@ == k && first_at(es@, i as int, j)
                ==> entries_model(es, i)[k] == es@[j].1.model(),
    decreases es.len() - i,
{
    reveal_with_fuel(entries_model, 2);
    if i < es.len() {
        lemma_entries_model(es, i + 1, k);
        if entries_model(es, i + 1).contains_key(k) {
            let j = choose|j: int| i + 1 <= j < es.len() && (#[trigger] es@[j]).0@ == k;
            assert(i <= j);
        }
        assert forall|j: int|
            i <= j < es.len() && (#[trigger] es@[j]).0@ == k && first_at(es@, i as int, j)
                implies entries_model(es, i)[k] == es@[j].1.model() by {
            if j > i {
                assert(es@[i as int].0@ != k);
                assert forall|l: int| i + 1 <= l < j implies (#[trigger] es@[l]).0@ != es@[j].0@ by {
                    assert(i <= l < j);
                }
            }
        }
    }
}

/// Equal keys and equal models index by index give equal maps.
proof fn lemma_entries_model_eq(a: Vec<(String, Value)>, b: Vec<(String, Value)>, i: nat)
    requires
        i <= a.len(),
        a.len() == b.len(),
        forall|j: int| 0 <= j < a.len() ==> (#[trigger] a@[j]).0@ == b@[j].0@ && a@[j].1.model() == b@[j].1.model(),
    ensures
        entries_model(a, i) == entries_model(b, i),
    decreases a.len() - i,
{
    if i < a.len() {
        lemma_entries_model_eq(a, b, i + 1);
        assert(a@[i as int].0@ == b@[i as int].0@);
    }
}

/// The first index under `k`, where there is one.
proof fn lemma_first(es: Vec<(String, Value)>, i: nat, k: Seq<char>) -> (j: int)
    requires
        i <= es.len(),
        exists|j: int| i <= j < es.len() && (#[trigger] es@[j]).0@ == k,
        forall|l: int| 0 <= l < i ==> (#[trigger] es@[l]).0@ != k,
    ensures
        0 <= j < es.len(),
        es@[j].0@ == k,
        first_at(es@, 0, j),
    decreases es.len() - i,
{
    if es@[i as int].0@ == k {
        i as int
    } else {
        assert forall|l: int| 0 <= l < i + 1 implies (#[trigger] es@[l]).0@ != k by {
            if l < i {
            }
        }
        let w = choose|j: int| i <= j < es.len() && (#[trigger] es@[j]).0@ == k;
        assert(w != i);
        lemma_first(es, i + 1, k)
    }
}

/// What the map holds under `k`: the value at the first index under `k`.
proof fn lemma_lookup(es: Vec<(String, Value)>, k: Seq<char>) -> (j: int)
    requires
        exists|j: int| 0 <= j < es.len() && (#[trigger] es@[j]).0@ == k,
    ensures
        0 <= j < es.len(),
        es@[j].0@ == k,
        first_at(es@, 0, j),
        entries_model(es, 0).contains_key(k),
        entries_model(es, 0)[k] == es@[j].1.model(),
{
    let j = lemma_first(es, 0, k);
    lemma_entries_model(es, 0, k);
    j
}

proof fn lemma_merge_maps_empty(ma: Map<Seq<char>, Model>)
    ensures
        merge_maps(ma, Map::empty()) == ma,
{
    assert(merge_maps(ma, Map::empty()) =~= ma);
}

proof fn lemma_merge_maps_insert(ma: Map<Seq<char>, Model>, mb: Map<Seq<char>, Model>, k: Seq<char>, v: Model)
    ensures
        merge_maps(ma, mb.insert(k, v)) == merge_maps(ma, mb).insert(
            k,
            if ma.contains_key(k) {
                merge_model(ma[k], v)
            } else {
                v
            },
        ),
{
    assert(merge_maps(ma, mb.insert(k, v)) =~= merge_maps(ma, mb).insert(
        k,
        if ma.contains_key(k) {
            merge_model(ma[k], v)
        } else {
            v
        },
    ));
}

impl View for Nested {
    type V = Map<Seq<char>, Model>;

    closed spec fn view(&self) -> Map<Seq<char>, Model> {
        entries_model(self.entries, 0)
    }
}

impl Value {
    /// A text value.
    pub fn text(s: &str) -> (r: Value)
        ensures
            r.model() == Model::Text(s@),
    {
        Value::Text(s.to_owned())
    }

    /// A tombstone.
    pub fn deleted() -> (r: Value)
        ensures
            r.model() == Model::Deleted,
    {
        Value::Deleted
    }

    /// A map value.
    pub fn node(n: Nested) -> (r: Value)
        ensures
            r.model() == Model::Node(n@),
    {
        Value::Node(n)
    }

    /// A copy with the same meaning.
    pub fn duplicate(&self) -> (r: Value)
        ensures
            r.model() == self.model(),
        decreases self,
    {
        match self {
            Value::Text(s) => Value::Text(s.clone()),
            Value::Node(n) => {
                let c = n.duplicate();
                proof {
                    reveal_with_fuel(Value::model, 1);
                }
                Value::Node(c)
            },
            Value::Deleted => Value::Deleted,
        }
    }

    /// Whether this value is a tombstone.
    pub fn is_deleted(&self) -> (r: bool)
        ensures
            r == (self.model() is Deleted),
    {
        matches!(self, Value::Deleted)
    }

    /// The text of a text value.
    pub fn as_text(&self) -> (r: Option<&String>)
        ensures
            match self.model() {
                Model::Text(t) => r is Some && r->0@ == t,
                _ => r is None,
            },
    {
        match self {
            Value::Text(s) => Some(s),
            _ => None,
        }
    }

    /// The map of a node value.
    pub fn as_node(&self) -> (r: Option<&Nested>)
        ensures
            match self.model() {
                Model::Node(m) => r is Some && r->0@ == m,
                _ => r is None,
            },
    {
        match self {
            Value::Node(n) => Some(n),
            _ => None,
        }
    }

    /// Merges `other` into this value by the merge law.
    pub fn merge(&self, other: &Value) -> (r: Value)
        ensures
            r.model() == merge_model(self.model(), other.model()),
        decreases other,
    {
        match other {
            Value::Node(nb) => match self {
                Value::Node(na) => {
                    let m = na.merge_nested(nb);
                    proof {
                        lemma_merge_node(na@, nb@);
                    }
                    Value::Node(m)
                },
                _ => other.duplicate(),
            },
            _ => other.duplicate(),
        }
    }
}

impl Nested {
    /// An empty map.
    pub fn new() -> (r: Nested)
        ensures
            r@ == Map::<Seq<char>, Model>::empty(),
            enc_value(Value::Node(r)) == seq!['M', '0', ':'],
    {
        let r = Nested { entries: Vec::new() };
        proof {
            reveal_with_fuel(entries_model, 1);
            reveal_strlit("0123456789");
            assert(enc_value(Value::Node(r)) =~= seq!['M', '0', ':']);
        }
        r
    }

    /// A copy with the same meaning.
    pub fn duplicate(&self) -> (r: Nested)
        ensures
            r@ == self@,
        decreases self,
    {
        let mut es: Vec<(String, Value)> = Vec::new();
        let mut i: usize = 0;
        while i < self.entries.len()
            invariant
                i <= self.entries.len(),
                es.len() == i,
                forall|j: int| 0 <= j < i ==> (#[trigger] es@[j]).0@ == self.entries@[j].0@
                    && es@[j].1.model() == self.entries@[j].1.model(),
            decreases self.entries.len() - i,
        {
            let k = self.entries[i].0.clone();
            let v = self.entries[i].1.duplicate();
            es.push((k, v));
            i = i + 1;
        }
        let r = Nested { entries: es };
        proof {
            lemma_entries_model_eq(r.entries, self.entries, 0);
        }
        r
    }

    /// Stores `v` under `key`, replacing what was there.
    fn put(&mut self, key: String, v: Value)
        ensures
            final(self)@ == old(self)@.insert(key@, v.model()),
    {
        let ghost old_es = self.entries;
        let ghost vm = v.model();
        let ghost kv = key@;
        match self.find(key.as_str()) {
            Some(i) => {
                self.entries.set(i, (key, v));
                proof {
                    let es = self.entries;
                    assert forall|q: Seq<char>| #![auto] entries_model(es, 0).contains_key(q) == entries_model(
                        old_es,
                        0,
                    ).insert(kv, vm).contains_key(q) by {
                        lemma_entries_model(es, 0, q);
                        lemma_entries_model(old_es, 0, q);
                        if exists|j: int| 0 <= j < es.len() && (#[trigger] es@[j]).0@ == q {
                            let j = choose|j: int| 0 <= j < es.len() && (#[trigger] es@[j]).0@ == q;
                            assert(old_es@[j].0@ == q);
                        }
                        if exists|j: int| 0 <= j < old_es.len() && (#[trigger] old_es@[j]).0@ == q {
                            let j = choose|j: int| 0 <= j < old_es.len() && (#[trigger] old_es@[j]).0@ == q;
                            assert(es@[j].0@ == q);
                        }
                        if q == kv {
                            assert(es@[i as int].0@ == q);
                        }
                    }
                    assert forall|q: Seq<char>| #[trigger] entries_model(es, 0).contains_key(q) implies entries_model(es, 0)[q]
                        == entries_model(old_es, 0).insert(kv, vm)[q] by {
                        lemma_entries_model(es, 0, q);
                        let j = lemma_lookup(es, q);
                        if q == kv {
                            if j != i {
                                assert(es@[i as int].0@ == q);
                                assert(i < j) by {
                                    if j < i {
                                        assert(old_es@[j].0@ == kv);
                                    }
                                }
                            }
                        } else {
                            assert(j != i);
                            assert(first_at(old_es@, 0, j)) by {
                                assert forall|l: int| 0 <= l < j implies (#[trigger] old_es@[l]).0@ != old_es@[j].0@ by {
                                    assert(es@[l].0@ == old_es@[l].0@);
                                }
                            }
                            let j2 = lemma_lookup(old_es, q);
                            assert(j2 == j) by {
                                if j2 < j {
                                    assert(es@[j2].0@ == q);
                                } else if j < j2 {
                                    assert(old_es@[j].0@ == q);
                                }
                            }
                        }
                    }
                    assert(entries_model(es, 0) =~= entries_model(old_es, 0).insert(kv, vm));
                }
            },
            None => {
                self.entries.push((key, v));
                proof {
                    let es = self.entries;
                    let n = old_es.len() as int;
                    assert forall|q: Seq<char>| #![auto] entries_model(es, 0).contains_key(q) == entries_model(
                        old_es,
                        0,
                    ).insert(kv, vm).contains_key(q) by {
                        lemma_entries_model(es, 0, q);
                        lemma_entries_model(old_es, 0, q);
                        if exists|j: int| 0 <= j < es.len() && (#[trigger] es@[j]).0@ == q {
                            let j = choose|j: int| 0 <= j < es.len() && (#[trigger] es@[j]).0@ == q;
                            if j < n {
                                assert(old_es@[j].0@ == q);
                            }
                        }
                        if exists|j: int| 0 <= j < old_es.len() && (#[trigger] old_es@[j]).0@ == q {
                            let j = choose|j: int| 0 <= j < old_es.len() && (#[trigger] old_es@[j]).0@ == q;
                            assert(es@[j].0@ == q);
                        }
                        if q == kv {
                            assert(es@[n].0@ == q);
                        }
                    }
                    assert forall|q: Seq<char>| #[trigger] entries_model(es, 0).contains_key(q) implies entries_model(es, 0)[q]
                        == entries_model(old_es, 0).insert(kv, vm)[q] by {
                        lemma_entries_model(es, 0, q);
                        let j = lemma_lookup(es, q);
                        if q == kv {
                            if j < n {
                                assert(old_es@[j].0@ == kv);
                            }
                        } else {
                            assert(j < n);
                            assert(first_at(old_es@, 0, j)) by {
                                assert forall|l: int| 0 <= l < j implies (#[trigger] old_es@[l]).0@ != old_es@[j].0@ by {
                                    assert(es@[l].0@ == old_es@[l].0@);
                                }
                            }
                            assert(old_es@[j].0@ == q);
                            let j2 = lemma_lookup(old_es, q);
                            assert(j2 == j) by {
                                if j2 < j {
                                    assert(es@[j2].0@ == q);
                                } else if j < j2 {
                                    assert(old_es@[j].0@ == q);
                                }
                            }
                        }
                    }
                    assert(entries_model(es, 0) =~= entries_model(old_es, 0).insert(kv, vm));
                }
            },
        }
    }

    /// Merges `other` into this map key by key.
    fn merge_nested(&self, other: &Nested) -> (r: Nested)
        ensures
            r@ == merge_maps(self@, other@),
        decreases other,
    {
        let mut r = self.duplicate();
        let mut j: usize = other.entries.len();
        proof {
            lemma_merge_maps_empty(self@);
        }
        while j > 0
            invariant
                j <= other.entries.len(),
                r@ == merge_maps(self@, entries_model(other.entries, j as nat)),
            decreases j,
        {
            j = j - 1;
            let k = &other.entries[j].0;
            let v = &other.entries[j].1;
            let nv = match self.find(k.as_str()) {
                Some(i) => {
                    proof {
                        lemma_lookup(self.entries, k@);
                    }
                    self.entries[i].1.merge(v)
                },
                None => {
                    proof {
                        lemma_entries_model(self.entries, 0, k@);
                    }
                    v.duplicate()
                },
            };
            r.put(k.clone(), nv);
            proof {
                lemma_merge_maps_insert(self@, entries_model(other.entries, (j + 1) as nat), k@, v.model());
            }
        }
        r
    }

    /// The live value under `key`: `None` where the key is missing or holds
    /// a tombstone.
    pub fn get(&self, key: &str) -> (r: Option<&Value>)
        ensures
            match r {
                Some(v) => self@.contains_key(key@) && v.model() == self@[key@] && !(v.model() is Deleted),
                None => !self@.contains_key(key@) || self@[key@] is Deleted,
            },
    {
        match self.get_raw(key) {
            Some(v) => {
                if v.is_deleted() {
                    None
                } else {
                    Some(v)
                }
            },
            None => None,
        }
    }

    /// The value under `key`, tombstones included.
    pub fn get_raw(&self, key: &str) -> (r: Option<&Value>)
        ensures
            match r {
                Some(v) => self@.contains_key(key@) && v.model() == self@[key@],
                None => !self@.contains_key(key@),
            },
    {
        match self.find(key) {
            Some(i) => {
                proof {
                    lemma_lookup(self.entries, key@);
                }
                Some(&self.entries[i].1)
            },
            None => {
                proof {
                    lemma_entries_model(self.entries, 0, key@);
                }
                None
            },
        }
    }

    /// The text under `key`: `None` where the key is missing, deleted, or
    /// holds something other than text.
    pub fn get_text(&self, key: &str) -> (r: Option<&String>)
        ensures
            match r {
                Some(t) => self@.contains_key(key@) && self@[key@] == Model::Text(t@),
                None => !self@.contains_key(key@) || !(self@[key@] is Text),
            },
    {
        match self.get_raw(key) {
            Some(v) => v.as_text(),
            None => None,
        }
    }

    /// Whether `key` holds a live value.
    pub fn contains_key(&self, key: &str) -> (r: bool)
        ensures
            r == (self@.contains_key(key@) && !(self@[key@] is Deleted)),
    {
        self.get(key).is_some()
    }

    /// Stores the text `value` under `key`.
    pub fn set(&mut self, key: &str, value: &str)
        ensures
            final(self)@ == old(self)@.insert(key@, Model::Text(value@)),
    {
        self.put(key.to_owned(), Value::Text(value.to_owned()));
    }

    /// Stores `value` under `key`.
    pub fn set_value(&mut self, key: &str, value: Value)
        ensures
            final(self)@ == old(self)@.insert(key@, value.model()),
    {
        self.put(key.to_owned(), value);
    }

    /// Writes a tombstone under `key` and returns the live value that was
    /// there, if any.
    pub fn remove(&mut self, key: &str) -> (r: Option<Value>)
        ensures
            final(self)@ == old(self)@.insert(key@, Model::Deleted),
            match r {
                Some(v) => old(self)@.contains_key(key@) && v.model() == old(self)@[key@]
                    && !(v.model() is Deleted),
                None => !old(self)@.contains_key(key@) || old(self)@[key@] is Deleted,
            },
    {
        let prev = match self.get(key) {
            Some(v) => Some(v.duplicate()),
            None => None,
        };
        self.put(key.to_owned(), Value::Deleted);
        prev
    }

    /// Merges `other` into this map: keys of either side are kept, and the
    /// values under a shared key merge by the merge law.
    pub fn merge(&self, other: &Nested) -> (r: Result<Nested, CRDTError>)
        ensures
            r is Ok,
            r matches Ok(m) && m@ == merge_maps(self@, other@),
    {
        Ok(self.merge_nested(other))
    }

    /// Every key the map holds, tombstones included.
    pub fn keys(&self) -> (r: Vec<String>)
        ensures
            forall|k: Seq<char>| self@.contains_key(k) <==> exists|i: int| 0 <= i < r@.len() && (#[trigger] r@[i])@ == k,
    {
        let mut r: Vec<String> = Vec::new();
        let mut i: usize = 0;
        while i < self.entries.len()
            invariant
                i <= self.entries.len(),
                r@.len() == i,
                forall|j: int| 0 <= j < i ==> (#[trigger] r@[j])@ == self.entries@[j].0@,
            decreases self.entries.len() - i,
        {
            r.push(self.entries[i].0.clone());
            i = i + 1;
        }
        proof {
            assert forall|k: Seq<char>| self@.contains_key(k) <==> exists|i: int| 0 <= i < r@.len() && (#[trigger] r@[i])@ == k by {
                lemma_entries_model(self.entries, 0, k);
                if exists|j: int| 0 <= j < self.entries.len() && (#[trigger] self.entries@[j]).0@ == k {
                    let j = choose|j: int| 0 <= j < self.entries.len() && (#[trigger] self.entries@[j]).0@ == k;
                    assert(r@[j]@ == k);
                }
                if exists|i: int| 0 <= i < r@.len() && (#[trigger] r@[i])@ == k {
                    let j = choose|i: int| 0 <= i < r@.len() && (#[trigger] r@[i])@ == k;
                    assert(self.entries@[j].0@ == k);
                }
            }
        }
        r
    }

    /// The index of the first entry under `key`.
    fn find(&self, key: &str) -> (r: Option<usize>)
        ensures
            match r {
                Some(j) => j < self.entries.len() && self.entries@[j as int].0@ == key@
                    && first_at(self.entries@, 0, j as int),
                None => forall|j: int| 0 <= j < self.entries.len() ==> (#[trigger] self.entries@[j]).0@ != key@,
            },
    {
        let k = key.to_owned();
        let mut i: usize = 0;
        while i < self.entries.len()
            invariant
                i <= self.entries.len(),
                k@ == key@,
                forall|j: int| 0 <= j < i ==> (#[trigger] self.entries@[j]).0@ != key@,
            decreases self.entries.len() - i,
        {
            if self.entries[i].0 == k {
                return Some(i);
            }
            i = i + 1;
        }
        None
    }
}

/// The decimal digits of `n`.
pub open spec fn digits(n: nat) -> Seq<char>
    decreases n,
{
    if n < 10 {
        "0123456789"@.subrange(n as int, n as int + 1)
    } else {
        digits(n / 10) + "0123456789"@.subrange((n % 10) as int, (n % 10) as int + 1)
    }
}

/// A text as its length in characters, a colon, and its characters.
pub open spec fn enc_text(s: Seq<char>) -> Seq<char> {
    digits(s.len()) + seq![':'] + s
}

/// The text form of a value: `T` and the text, `D` for a tombstone, or `M`,
/// the number of keys, a colon, and each key with its value.
pub closed spec fn enc_value(v: Value) -> Seq<char>
    decreases v, 0nat,
{
    match v {
        Value::Text(s) => seq!['T'] + enc_text(s@),
        Value::Deleted => seq!['D'],
        Value::Node(n) => seq!['M'] + digits(n.entries.len() as nat) + seq![':'] + enc_entries(n.entries, 0),
    }
}

pub closed spec fn enc_entries(es: Vec<(String, Value)>, i: nat) -> Seq<char>
    decreases es, es.len() - i,
{
    if i >= es.len() {
        Seq::empty()
    } else {
        enc_text(es[i as int].0@) + enc_value(es[i as int].1) + enc_entries(es, i + 1)
    }
}

pub(crate) fn push_digits(out: &mut String, n: usize)
    ensures
        final(out)@ == old(out)@ + digits(n as nat),
    decreases n,
{
    let table = "0123456789";
    proof {
        reveal_strlit("0123456789");
    }
    if n >= 10 {
        push_digits(out, n / 10);
    }
    let d = n % 10;
    out.append(table.substring_char(d, d + 1));
    proof {
        assert(final(out)@ =~= old(out)@ + digits(n as nat));
    }
}

pub(crate) fn push_text(out: &mut String, s: &str)
    ensures
        final(out)@ == old(out)@ + enc_text(s@),
{
    push_digits(out, s.unicode_len());
    out.append(":");
    proof {
        reveal_strlit(":");
    }
    out.append(s);
    assert(final(out)@ =~= old(out)@ + enc_text(s@));
}

impl Value {
    fn write_to(&self, out: &mut String)
        ensures
            final(out)@ == old(out)@ + enc_value(*self),
        decreases self,
    {
        match self {
            Value::Text(s) => {
                out.append("T");
                proof {
                    reveal_strlit("T");
                }
                push_text(out, s.as_str());
                assert(final(out)@ =~= old(out)@ + enc_value(*self));
            },
            Value::Deleted => {
                out.append("D");
                proof {
                    reveal_strlit("D");
                }
                assert(final(out)@ =~= old(out)@ + enc_value(*self));
            },
            Value::Node(n) => {
                out.append("M");
                proof {
                    reveal_strlit("M");
                }
                n.write_to(out);
                assert(final(out)@ =~= old(out)@ + enc_value(*self));
            },
        }
    }

    /// The text form of this value.
    pub fn to_text(&self) -> (r: String)
        ensures
            r@ == enc_value(*self),
    {
        let mut out = String::new();
        self.write_to(&mut out);
        assert(out@ =~= enc_value(*self));
        out
    }
}

impl Nested {
    fn write_to(&self, out: &mut String)
        ensures
            final(out)@ == old(out)@ + digits(self.entries.len() as nat) + seq![':'] + enc_entries(self.entries, 0),
        decreases self,
    {
        push_digits(out, self.entries.len());
        out.append(":");
        proof {
            reveal_strlit(":");
        }
        let ghost head = out@;
        let mut i: usize = 0;
        while i < self.entries.len()
            invariant
                i <= self.entries.len(),
                head + enc_entries(self.entries, 0) == out@ + enc_entries(self.entries, i as nat),
            decreases self.entries.len() - i,
        {
            let ghost before = out@;
            push_text(out, self.entries[i].0.as_str());
            self.entries[i].1.write_to(out);
            assert(before + enc_entries(self.entries, i as nat) =~= out@ + enc_entries(self.entries, (i + 1) as nat));
            i = i + 1;
        }
        assert(out@ =~= head + enc_entries(self.entries, 0));
    }

    /// The text form of this map, as a node value.
    pub fn to_text(&self) -> (r: String)
        ensures
            r@ == enc_value(Value::Node(*self)),
    {
        let mut out = String::new();
        out.append("M");
        proof {
            reveal_strlit("M");
        }
        self.write_to(&mut out);
        assert(out@ =~= enc_value(Value::Node(*self)));
        out
    }
}

proof fn lemma_digit_chars()
    ensures
        forall|d: int| 0 <= d < 10 ==> "0123456789"@[d] as u32 == 48 + d,
        "0123456789"@.len() == 10,
{
    reveal_strlit("0123456789");
}

proof fn lemma_enc_entries_push(es: Vec<(String, Value)>, es2: Vec<(String, Value)>, i: nat)
    requires
        es2@ == es@.push(es2@[es@.len() as int]),
        i <= es.len(),
    ensures
        enc_entries(es2, i) == enc_entries(es, i) + enc_text(es2@[es@.len() as int].0@) + enc_value(es2@[es@.len() as int].1),
    decreases es.len() - i,
{
    reveal_with_fuel(enc_entries, 2);
    if i < es.len() {
        lemma_enc_entries_push(es, es2, i + 1);
        assert(es2@[i as int] == es@[i as int]);
        assert(enc_entries(es2, i) =~= enc_entries(es, i) + enc_text(es2@[es@.len() as int].0@) + enc_value(es2@[es@.len() as int].1));
    } else {
        assert(enc_entries(es2, i) =~= enc_entries(es, i) + enc_text(es2@[es@.len() as int].0@) + enc_value(es2@[es@.len() as int].1));
    }
}

/// The characters of `s`.
pub fn chars_of(s: &str) -> (r: Vec<char>)
    ensures
        r@ == s@,
{
    let n = s.unicode_len();
    let mut r: Vec<char> = Vec::new();
    let mut i: usize = 0;
    while i < n
        invariant
            n == s@.len(),
            i <= n,
            r@ == s@.subrange(0, i as int),
        decreases n - i,
    {
        r.push(s.get_char(i));
        assert(r@ =~= s@.subrange(0, i + 1));
        i = i + 1;
    }
    assert(r@ =~= s@);
    r
}

/// A decimal number without leading zeros, at most `limit`.
/// At `pos`, `cs` holds the digits of `n`, not followed by another digit.
pub open spec fn num_at(cs: Seq<char>, pos: int, n: nat) -> bool {
    &&& 0 <= pos
    &&& pos + digits(n).len() <= cs.len()
    &&& cs.subrange(pos, pos + digits(n).len()) == digits(n)
    &&& (pos + digits(n).len() == cs.len() || !('0' <= cs[pos + digits(n).len()] && cs[pos + digits(n).len()] <= '9'))
}

pub(crate) proof fn lemma_digits_basic(n: nat)
    ensures
        digits(n).len() >= 1,
        forall|i: int| 0 <= i < digits(n).len() ==> '0' <= #[trigger] digits(n)[i] && digits(n)[i] <= '9',
        n >= 10 <==> digits(n).len() >= 2,
        n >= 1 ==> digits(n)[0] != '0',
    decreases n,
{
    reveal_strlit("0123456789");
    if n >= 10 {
        lemma_digits_basic(n / 10);
        let p = digits(n / 10);
        assert(digits(n)[0] == p[0]);
        assert forall|i: int| 0 <= i < digits(n).len() implies '0' <= #[trigger] digits(n)[i] && digits(n)[i] <= '9' by {
            if i < p.len() {
                assert(digits(n)[i] == p[i]);
            }
        }
    }
}

proof fn lemma_digit_char_injective(a: int, b: int)
    requires
        0 <= a < 10,
        0 <= b < 10,
        "0123456789"@[a] == "0123456789"@[b],
    ensures
        a == b,
{
    lemma_digit_chars();
}

proof fn lemma_digits_injective(a: nat, b: nat)
    requires
        digits(a) == digits(b),
    ensures
        a == b,
    decreases a,
{
    lemma_digits_basic(a);
    lemma_digits_basic(b);
    lemma_digit_chars();
    if a < 10 {
        assert(digits(a)[0] == "0123456789"@[a as int]);
        assert(digits(b)[0] == "0123456789"@[b as int]);
        lemma_digit_char_injective(a as int, b as int);
    } else {
        let la = digits(a).len();
        assert(digits(a)[la - 1] == "0123456789"@[(a % 10) as int]);
        assert(digits(b)[la - 1] == "0123456789"@[(b % 10) as int]);
        lemma_digit_char_injective((a % 10) as int, (b % 10) as int);
        assert(digits(a / 10) =~= digits(a).subrange(0, la - 1));
        assert(digits(b / 10) =~= digits(b).subrange(0, la - 1));
        lemma_digits_injective(a / 10, b / 10);
    }
}

proof fn lemma_digits_prefix(n: nat, k: int)
    requires
        1 <= k <= digits(n).len(),
    ensures
        exists|v: nat| v <= n && #[trigger] digits(v) == digits(n).subrange(0, k),
    decreases n,
{
    lemma_digits_basic(n);
    lemma_digit_chars();
    if k == digits(n).len() {
        assert(digits(n) =~= digits(n).subrange(0, k));
    } else {
        assert(n >= 10);
        let p = digits(n / 10);
        assert(p =~= digits(n).subrange(0, digits(n).len() - 1));
        lemma_digits_prefix(n / 10, k);
        let v = choose|v: nat| v <= n / 10 && #[trigger] digits(v) == p.subrange(0, k);
        assert(p.subrange(0, k) =~= digits(n).subrange(0, k));
        assert(digits(v) == digits(n).subrange(0, k));
    }
}

/// A decimal number without leading zeros, at most `limit`; it is read
/// whenever the digits of a number at most `limit` stand at `pos`.
pub(crate) fn parse_num(cs: &Vec<char>, pos: usize, limit: usize) -> (r: Option<(usize, usize)>)
    requires
        pos <= cs@.len(),
    ensures
        r matches Some((n, q)) ==> pos < q <= cs@.len() && n <= limit && cs@.subrange(pos as int, q as int) == digits(n as nat),
        forall|v: nat| num_at(cs@, pos as int, v) && v <= limit ==> #[trigger] digits(v) == digits(v) && r == Some(
            (v as usize, (pos + digits(v).len()) as usize),
        ),
{
    proof {
        lemma_digit_chars();
        reveal_strlit("0123456789");
    }
    let ghost good = exists|v: nat| num_at(cs@, pos as int, v) && v <= limit;
    let ghost v0: nat = if good {
        choose|v: nat| num_at(cs@, pos as int, v) && v <= limit
    } else {
        0
    };
    let ghost l0: int = digits(v0).len() as int;
    proof {
        lemma_digits_basic(v0);
    }
    let mut q = pos;
    let mut n: usize = 0;
    while q < cs.len() && '0' <= cs[q] && cs[q] <= '9'
        invariant
            pos <= q <= cs@.len(),
            n <= limit,
            q > pos ==> cs@.subrange(pos as int, q as int) == digits(n as nat),
            q > pos + 1 ==> n >= 10,
            q > pos && cs@[pos as int] == '0' ==> q == pos + 1,
            q == pos ==> n == 0,
            good == (exists|v: nat| num_at(cs@, pos as int, v) && v <= limit),
            good ==> num_at(cs@, pos as int, v0) && v0 <= limit && l0 == digits(v0).len() && l0 >= 1,
            good ==> q <= pos + l0,
            good ==> forall|i: int| 0 <= i < l0 ==> '0' <= #[trigger] digits(v0)[i] && digits(v0)[i] <= '9',
            good ==> (v0 >= 1 ==> digits(v0)[0] != '0'),
        decreases cs@.len() - q,
    {
        proof {
            if good {
                if q == pos + l0 {
                    assert(false);
                }
            }
        }
        if q > pos && cs[pos] == '0' {
            proof {
                if good {
                    assert(cs@[pos as int] == digits(v0)[0]);
                    if v0 >= 1 {
                        assert(false);
                    } else {
                        lemma_digits_basic(0);
                        assert(l0 == 1);
                        assert(false);
                    }
                }
            }
            proof {
                assert forall|v: nat| num_at(cs@, pos as int, v) && v <= limit implies #[trigger] digits(v) == digits(v)
                    && None::<(usize, usize)> == Some((v as usize, (pos + digits(v).len()) as usize)) by {
                    assert(good);
                }
            }
            return None;
        }
        let d = (cs[q] as u32 - 48) as usize;
        let ghost mm: int = n * 10 + d;
        proof {
            assert(d < 10);
            assert(mm / 10 == n && mm % 10 == d) by (nonlinear_arith)
                requires mm == n * 10 + d, d < 10;
            lemma_digit_chars();
            let ch = "0123456789"@[d as int];
            assert(ch == cs@[q as int]) by {
                vstd::utf8::char_u32_cast(ch, ch as u32);
                vstd::utf8::char_u32_cast(cs@[q as int], cs@[q as int] as u32);
                assert(ch as u32 == cs@[q as int] as u32);
            }
            if q == pos {
                assert(cs@.subrange(pos as int, q + 1) =~= digits(mm as nat));
            } else {
                assert(n >= 1) by {
                    reveal_strlit("0123456789");
                    if n == 0 {
                        assert(cs@.subrange(pos as int, q as int) == digits(0));
                        assert(cs@.subrange(pos as int, q as int)[0] == cs@[pos as int]);
                        assert(digits(0)[0] == '0');
                    }
                }
                assert(mm >= 10);
                assert(cs@.subrange(pos as int, q + 1) =~= cs@.subrange(pos as int, q as int).push(cs@[q as int]));
                assert(cs@.subrange(pos as int, q + 1) =~= digits(mm as nat));
            }
            if good {
                let k = q + 1 - pos;
                lemma_digits_prefix(v0, k);
                let w = choose|w: nat| w <= v0 && #[trigger] digits(w) == digits(v0).subrange(0, k);
                assert(digits(v0).subrange(0, k) =~= cs@.subrange(pos as int, q + 1));
                lemma_digits_injective(w, mm as nat);
                assert(mm <= limit);
                assert(d <= limit);
                assert(n <= (limit - d) / 10) by (nonlinear_arith)
                    requires mm == n * 10 + d, mm <= limit, d <= limit;
            }
        }
        if d > limit || n > (limit - d) / 10 {
            proof {
                assert forall|v: nat| num_at(cs@, pos as int, v) && v <= limit implies #[trigger] digits(v) == digits(v)
                    && None::<(usize, usize)> == Some((v as usize, (pos + digits(v).len()) as usize)) by {
                    assert(good);
                }
            }
            return None;
        }
        let m = n * 10 + d;
        n = m;
        q = q + 1;
    }
    proof {
        if good {
            if q < pos + l0 {
                assert(cs@[q as int] == digits(v0)[q - pos]);
                assert(false);
            }
            assert(q > pos);
            assert(cs@.subrange(pos as int, q as int) == digits(v0));
            lemma_digits_injective(n as nat, v0);
        }
        assert forall|v: nat| num_at(cs@, pos as int, v) && v <= limit implies #[trigger] digits(v) == digits(v) && (if q
            == pos {
            None
        } else {
            Some((n, q))
        }) == Some((v as usize, (pos + digits(v).len()) as usize)) by {
            assert(good);
            lemma_digits_basic(v);
            assert(cs@.subrange(pos as int, pos + digits(v).len()) == digits(v));
            lemma_digits_basic(v0);
            // both v and v0 stand at pos; the shorter is a prefix of the longer
            if digits(v).len() < l0 {
                assert(cs@[pos + digits(v).len()] == digits(v0)[digits(v).len() as int]);
            } else if digits(v).len() > l0 {
                assert(cs@[pos + l0] == digits(v)[l0]);
            }
            assert(digits(v) =~= digits(v0));
            lemma_digits_injective(v, v0);
        }
    }
    if q == pos {
        None
    } else {
        Some((n, q))
    }
}

/// A text in the form that `enc_text` gives.
/// `x` stands in `cs` at `pos`.
pub open spec fn starts(cs: Seq<char>, pos: int, x: Seq<char>) -> bool {
    0 <= pos && pos + x.len() <= cs.len() && cs.subrange(pos, pos + x.len()) == x
}

pub(crate) fn parse_text(src: &str, cs: &Vec<char>, pos: usize) -> (r: Option<(String, usize)>)
    requires
        cs@ == src@,
        pos <= cs@.len(),
    ensures
        r matches Some((t, q)) ==> pos < q <= cs@.len() && cs@.subrange(pos as int, q as int) == enc_text(t@),
        forall|t: Seq<char>| #[trigger] starts(cs@, pos as int, enc_text(t)) ==> (r matches Some((t2, q)) && t2@ == t && q
            == pos + enc_text(t).len()),
{
    proof {
        assert forall|t: Seq<char>| #[trigger] starts(cs@, pos as int, enc_text(t)) implies num_at(cs@, pos as int, t.len())
            && t.len() <= cs@.len() by {
            let e = enc_text(t);
            let l = digits(t.len()).len() as int;
            assert(cs@.subrange(pos as int, pos + l) =~= e.subrange(0, l));
            assert(e.subrange(0, l) =~= digits(t.len()));
            assert(cs@[pos + l] == e[l]);
        }
    }
    match parse_num(cs, pos, cs.len()) {
        Some((n, p)) => {
            if p < cs.len() && cs[p] == ':' && n <= cs.len() - p - 1 {
                let t = src.substring_char(p + 1, p + 1 + n).to_owned();
                assert(cs@.subrange(pos as int, (p + 1 + n) as int) =~= enc_text(t@));
                proof {
                    assert forall|w: Seq<char>| #[trigger] starts(cs@, pos as int, enc_text(w)) implies t@ == w && p + 1 + n
                        == pos + enc_text(w).len() by {
                        let e = enc_text(w);
                        assert(e.subrange(digits(w.len()).len() as int + 1, e.len() as int) =~= w);
                        assert(cs@.subrange(p + 1, p + 1 + n) =~= cs@.subrange(pos as int, pos + e.len()).subrange(
                            digits(w.len()).len() as int + 1,
                            e.len() as int,
                        ));
                    }
                }
                Some((t, p + 1 + n))
            } else {
                proof {
                    assert forall|w: Seq<char>| #[trigger] starts(cs@, pos as int, enc_text(w)) implies false by {
                        let e = enc_text(w);
                        assert(cs@[p as int] == e[digits(w.len()).len() as int]);
                    }
                }
                None
            }
        },
        None => None,
    }
}

spec fn node_entries(v: Value) -> Vec<(String, Value)> {
    v->Node_0.entries
}

proof fn lemma_enc_entries_len(es: Vec<(String, Value)>, i: nat)
    requires
        i <= es.len(),
    ensures
        enc_entries(es, i).len() >= es.len() - i,
    decreases es.len() - i,
{
    reveal_with_fuel(enc_entries, 2);
    if i < es.len() {
        lemma_enc_entries_len(es, i + 1);
        lemma_digits_basic(es[i as int].0@.len());
    }
}

/// The form of a map after its `M`: the number of keys, a colon, and each
/// key with its value.
pub open spec fn node_body(es: Vec<(String, Value)>) -> Seq<char> {
    digits(es.len() as nat) + seq![':'] + enc_entries(es, 0)
}

spec fn good_node(cs: Seq<char>, pos: int, v: Value) -> bool {
    v is Node && starts(cs, pos, node_body(node_entries(v)))
}

/// The body of a map value, read whenever the body of some map stands at
/// `pos`.
fn parse_node(src: &str, cs: &Vec<char>, pos: usize) -> (r: Option<(Nested, usize)>)
    requires
        cs@ == src@,
        pos <= cs@.len(),
    ensures
        r matches Some((n, q)) ==> pos < q <= cs@.len() && cs@.subrange(pos as int, q as int) == node_body(n.entries),
        forall|v: Value| #[trigger] good_node(cs@, pos as int, v) ==> (r matches Some((n2, q)) && q == pos + node_body(
            node_entries(v),
        ).len()),
    decreases cs@.len() - pos, 0nat,
{
    proof {
        assert forall|v: Value| #[trigger] good_node(cs@, pos as int, v) implies num_at(cs@, pos as int, node_entries(v).len() as nat)
            && node_entries(v).len() <= cs@.len() && cs@[pos + digits(node_entries(v).len() as nat).len()] == ':' && starts(
            cs@,
            pos + 1 + digits(node_entries(v).len() as nat).len(),
            enc_entries(node_entries(v), 0),
        ) by {
            let es0 = node_entries(v);
            let e = node_body(es0);
            let l0 = digits(es0.len() as nat).len() as int;
            lemma_enc_entries_len(es0, 0);
            lemma_digits_basic(es0.len() as nat);
            let w = cs@.subrange(pos as int, pos + e.len());
            assert(cs@.subrange(pos as int, pos + l0) =~= w.subrange(0, l0));
            assert(e.subrange(0, l0) =~= digits(es0.len() as nat));
            assert(cs@[pos + l0] == e[l0]);
            assert(e.subrange(1 + l0, e.len() as int) =~= enc_entries(es0, 0));
            assert(cs@.subrange(pos + 1 + l0, pos + e.len()) =~= w.subrange(1 + l0, e.len() as int));
        }
    }
    match parse_num(cs, pos, cs.len()) {
        Some((count, p)) => {
            if p >= cs.len() || cs[p] != ':' {
                proof {
                    assert forall|v: Value| #[trigger] good_node(cs@, pos as int, v) implies false by {
                        assert(num_at(cs@, pos as int, node_entries(v).len() as nat));
                    }
                }
                return None;
            }
                let mut es: Vec<(String, Value)> = Vec::new();
            let mut q = p + 1;
            let mut k: usize = 0;
            proof {
                reveal_with_fuel(enc_entries, 1);
            }
            while k < count
                invariant
                    cs@ == src@,
                    p + 1 <= q <= cs@.len(),
                    p < cs@.len(),
                    pos < p,
                    forall|v: Value| #[trigger] good_node(cs@, pos as int, v) ==> p == pos + digits(node_entries(v).len() as nat).len(),
                    es@.len() == k,
                    k <= count,
                    cs@.subrange(p + 1, q as int) == enc_entries(es, 0),
                    forall|v: Value| #[trigger] good_node(cs@, pos as int, v) ==> count == node_entries(v).len()
                        && starts(cs@, q as int, enc_entries(node_entries(v), k as nat)) && q + enc_entries(
                        node_entries(v),
                        k as nat,
                    ).len() == pos + node_body(node_entries(v)).len(),
                decreases count - k,
            {
                proof {
                    reveal_with_fuel(enc_entries, 1);
                    assert forall|v: Value| #[trigger] good_node(cs@, pos as int, v) implies starts(
                        cs@,
                        q as int,
                        enc_text(node_entries(v)@[k as int].0@),
                    ) by {
                        let es0 = node_entries(v);
                        let ek = enc_entries(es0, k as nat);
                        let kt = enc_text(es0@[k as int].0@);
                        assert(ek == kt + enc_value(es0@[k as int].1) + enc_entries(es0, (k + 1) as nat));
                        assert(cs@.subrange(q as int, q + kt.len()) =~= cs@.subrange(q as int, q + ek.len()).subrange(0, kt.len() as int));
                        assert(ek.subrange(0, kt.len() as int) =~= kt);
                    }
                }
                let (key, q1) = match parse_text(src, cs, q) {
                    Some(x) => x,
                    None => {
                        proof {
                            assert forall|v: Value| #[trigger] good_node(cs@, pos as int, v) implies false by {
                                assert(starts(cs@, q as int, enc_text(node_entries(v)@[k as int].0@)));
                            }
                        }
                        return None;
                    },
                };
                proof {
                    reveal_with_fuel(enc_entries, 1);
                    assert forall|v: Value| #[trigger] good_node(cs@, pos as int, v) implies starts(
                        cs@,
                        q1 as int,
                        enc_value(node_entries(v)@[k as int].1),
                    ) by {
                        let es0 = node_entries(v);
                        let ek = enc_entries(es0, k as nat);
                        let kt = enc_text(es0@[k as int].0@);
                        let kv = enc_value(es0@[k as int].1);
                        assert(starts(cs@, q as int, kt));
                        assert(q1 == q + kt.len());
                        assert(ek == kt + kv + enc_entries(es0, (k + 1) as nat));
                        assert(cs@.subrange(q1 as int, q1 + kv.len()) =~= cs@.subrange(q as int, q + ek.len()).subrange(
                            kt.len() as int,
                            kt.len() as int + kv.len(),
                        ));
                        assert(ek.subrange(kt.len() as int, kt.len() as int + kv.len()) =~= kv);
                    }
                }
                let (val, q2) = match parse_value(src, cs, q1) {
                    Some(x) => x,
                    None => {
                        proof {
                            assert forall|v: Value| #[trigger] good_node(cs@, pos as int, v) implies false by {
                                assert(starts(cs@, q1 as int, enc_value(node_entries(v)@[k as int].1)));
                            }
                        }
                        return None;
                    },
                };
                let ghost old_es = es;
                es.push((key, val));
                proof {
                    lemma_enc_entries_push(old_es, es, 0);
                    assert(cs@.subrange(p + 1, q2 as int) =~= cs@.subrange(p + 1, q as int) + cs@.subrange(q as int, q1 as int)
                        + cs@.subrange(q1 as int, q2 as int));
                    reveal_with_fuel(enc_entries, 1);
                    assert forall|v: Value| #[trigger] good_node(cs@, pos as int, v) implies starts(
                        cs@,
                        q2 as int,
                        enc_entries(node_entries(v), (k + 1) as nat),
                    ) && q2 + enc_entries(node_entries(v), (k + 1) as nat).len() == pos + node_body(node_entries(v)).len() by {
                        let es0 = node_entries(v);
                        let ek = enc_entries(es0, k as nat);
                        let kt = enc_text(es0@[k as int].0@);
                        let kv = enc_value(es0@[k as int].1);
                        let rest = enc_entries(es0, (k + 1) as nat);
                        assert(starts(cs@, q as int, kt));
                        assert(starts(cs@, q1 as int, kv));
                        assert(q2 == q1 + kv.len());
                        assert(ek == kt + kv + rest);
                        assert(cs@.subrange(q2 as int, q2 + rest.len()) =~= cs@.subrange(q as int, q + ek.len()).subrange(
                            kt.len() as int + kv.len(),
                            ek.len() as int,
                        ));
                        assert(ek.subrange(kt.len() as int + kv.len(), ek.len() as int) =~= rest);
                    }
                }
                q = q2;
                k = k + 1;
            }
            let n = Nested { entries: es };
            proof {
                assert(cs@.subrange(pos as int, q as int) =~= cs@.subrange(pos as int, p as int) + seq![':']
                    + cs@.subrange(p + 1, q as int));
                assert(cs@.subrange(pos as int, q as int) =~= node_body(n.entries));
                reveal_with_fuel(enc_entries, 1);
                assert forall|v: Value| #[trigger] good_node(cs@, pos as int, v) implies q == pos + node_body(node_entries(v)).len() by {
                    assert(enc_entries(node_entries(v), k as nat).len() == 0);
                }
            }
            Some((n, q))
        },
        None => {
            proof {
                assert forall|v: Value| #[trigger] good_node(cs@, pos as int, v) implies false by {
                    assert(num_at(cs@, pos as int, node_entries(v).len() as nat));
                }
            }
            None
        },
    }
}

/// A value in the form that `enc_value` gives; read whenever the form of
/// some value stands at `pos`.
fn parse_value(src: &str, cs: &Vec<char>, pos: usize) -> (r: Option<(Value, usize)>)
    requires
        cs@ == src@,
        pos <= cs@.len(),
    ensures
        r matches Some((v, q)) ==> pos < q <= cs@.len() && cs@.subrange(pos as int, q as int) == enc_value(v),
        forall|v: Value| #[trigger] starts(cs@, pos as int, enc_value(v)) ==> (r matches Some((v2, q)) && q == pos
            + enc_value(v).len()),
    decreases cs@.len() - pos, 1nat,
{
    proof {
        assert forall|v: Value| #[trigger] starts(cs@, pos as int, enc_value(v)) implies pos < cs@.len() && cs@[pos as int]
            == enc_value(v)[0] by {
            assert(enc_value(v).len() >= 1);
            assert(cs@[pos as int] == cs@.subrange(pos as int, pos + enc_value(v).len())[0]);
        }
    }
    if pos >= cs.len() {
        return None;
    }
    let c = cs[pos];
    if c == 'D' {
        assert(cs@.subrange(pos as int, pos + 1) =~= enc_value(Value::Deleted));
        proof {
            assert forall|v: Value| #[trigger] starts(cs@, pos as int, enc_value(v)) implies enc_value(v).len() == 1 by {
                assert(enc_value(v)[0] == 'D');
            }
        }
        Some((Value::Deleted, pos + 1))
    } else if c == 'T' {
        proof {
            assert forall|v: Value| #[trigger] starts(cs@, pos as int, enc_value(v)) implies v is Text && starts(
                cs@,
                pos + 1,
                enc_text(v->Text_0@),
            ) by {
                assert(enc_value(v)[0] == 'T');
                let e = enc_value(v);
                assert(e.subrange(1, e.len() as int) =~= enc_text(v->Text_0@));
                assert(cs@.subrange(pos + 1, pos + e.len()) =~= cs@.subrange(pos as int, pos + e.len()).subrange(1, e.len() as int));
            }
        }
        match parse_text(src, cs, pos + 1) {
            Some((t, q)) => {
                assert(cs@.subrange(pos as int, q as int) =~= seq!['T'] + cs@.subrange(pos + 1, q as int));
                assert(cs@.subrange(pos as int, q as int) =~= enc_value(Value::Text(t)));
                Some((Value::Text(t), q))
            },
            None => None,
        }
    } else if c == 'M' {
        proof {
            assert forall|v: Value| #[trigger] starts(cs@, pos as int, enc_value(v)) implies v is Node && starts(
                cs@,
                pos + 1,
                node_body(node_entries(v)),
            ) && enc_value(v).len() == 1 + node_body(node_entries(v)).len() by {
                let e = enc_value(v);
                assert(e[0] == 'M');
                match v {
                    Value::Node(n) => {
                        assert(e =~= seq!['M'] + node_body(node_entries(v)));
                        assert(cs@.subrange(pos + 1, pos + e.len()) =~= cs@.subrange(pos as int, pos + e.len()).subrange(
                            1,
                            e.len() as int,
                        ));
                        assert(node_body(node_entries(v)) =~= e.subrange(1, e.len() as int));
                    },
                    Value::Text(t) => {
                        assert(e[0] == 'T');
                    },
                    Value::Deleted => {
                        assert(e[0] == 'D');
                    },
                }
            }
        }
        match parse_node(src, cs, pos + 1) {
            Some((n, q)) => {
                proof {
                    assert(cs@.subrange(pos as int, q as int) =~= seq!['M'] + cs@.subrange(pos + 1, q as int));
                    assert(enc_value(Value::Node(n)) =~= seq!['M'] + node_body(n.entries));
                    assert forall|v: Value| #[trigger] starts(cs@, pos as int, enc_value(v)) implies q == pos + enc_value(v).len() by {
                        assert(good_node(cs@, pos + 1, v));
                    }
                }
                Some((Value::Node(n), q))
            },
            None => {
                proof {
                    assert forall|v: Value| #[trigger] starts(cs@, pos as int, enc_value(v)) implies false by {
                        assert(good_node(cs@, pos + 1, v));
                    }
                }
                None
            },
        }
    } else {
        proof {
            assert forall|v: Value| #[trigger] starts(cs@, pos as int, enc_value(v)) implies false by {
                let e = enc_value(v);
                assert(e[0] == 'D' || e[0] == 'T' || e[0] == 'M');
            }
        }
        None
    }
}

impl Nested {
    /// Reads a map from the text that `to_text` writes. Whatever it returns
    /// writes back to exactly `text`.
    pub fn from_text(text: &str) -> (r: Result<Nested, CRDTError>)
        ensures
            r matches Ok(n) ==> enc_value(Value::Node(n)) == text@,
            (exists|m: Nested| #[trigger] enc_value(Value::Node(m)) == text@) ==> r is Ok,
    {
        let cs = chars_of(text);
        proof {
            if exists|m: Nested| #[trigger] enc_value(Value::Node(m)) == text@ {
                let m = choose|m: Nested| #[trigger] enc_value(Value::Node(m)) == text@;
                assert(cs@.subrange(0, text@.len() as int) =~= text@);
                assert(starts(cs@, 0, enc_value(Value::Node(m))));
            }
        }
        match parse_value(text, &cs, 0) {
            Some((v, q)) => {
                match v {
                    Value::Node(n) => {
                        if q == cs.len() {
                            assert(cs@.subrange(0, q as int) =~= text@);
                            Ok(n)
                        } else {
                            Err(CRDTError::InvalidData { reason: "trailing text after the map".to_owned() })
                        }
                    },
                    _ => {
                        proof {
                            if exists|m: Nested| #[trigger] enc_value(Value::Node(m)) == text@ {
                                let m = choose|m: Nested| #[trigger] enc_value(Value::Node(m)) == text@;
                                assert(enc_value(Value::Node(m))[0] == 'M');
                                assert(cs@[0] == cs@.subrange(0, q as int)[0]);
                                assert(enc_value(v)[0] != 'M');
                            }
                        }
                        Err(CRDTError::InvalidData { reason: "not the text of a map".to_owned() })
                    },
                }
            },
            None => Err(CRDTError::InvalidData { reason: "not the text of a map".to_owned() }),
        }
    }
}

} // verus!
