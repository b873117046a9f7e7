//! Atomic operations: staged changes to the subtrees of a tree, read from a
//! snapshot of its tips and committed as one new entry.
use vstd::prelude::*;
use crate::crdt::{Model, Nested, Value, enc_value, merge_maps};
use crate::entry::{Entry, EntryModel, find_subtree};
use crate::errors::Error;
use crate::basedb::BaseDB;

verus! {

/// The fold of maps, merged in order.
pub open spec fn fold_maps(ms: Seq<Map<Seq<char>, Model>>) -> Map<Seq<char>, Model>
    decreases ms.len(),
{
    if ms.len() == 0 {
        Map::empty()
    } else {
        merge_maps(fold_maps(ms.drop_last()), ms.last())
    }
}

/// The payload of subtree `name` in `e` reads as the map `m`.
pub open spec fn reads_as(e: EntryModel, name: Seq<char>, m: Map<Seq<char>, Model>) -> bool {
    find_subtree(e, name) matches Some(x) && exists|n: Nested| #[trigger] enc_value(Value::Node(n)) == x.data && n@ == m
}

/// The payload of subtree `name` in `e` reads as some map.
pub open spec fn payload_reads(e: EntryModel, name: Seq<char>) -> bool {
    exists|m: Map<Seq<char>, Model>| #[trigger] reads_as(e, name, m)
}

/// The state of subtree `name` after `entries`: their payloads read as maps
/// and merged in order.
pub fn fold_payloads(entries: &Vec<Entry>, name: &str) -> (r: Result<Nested, Error>)
    ensures
        r matches Ok(acc) ==> exists|ms: Seq<Map<Seq<char>, Model>>| ms.len() == entries@.len()
            && (forall|i: int| 0 <= i < ms.len() ==> reads_as(entries@[i]@, name@, #[trigger] ms[i]))
            && acc@ == fold_maps(ms),
        (forall|i: int| 0 <= i < entries@.len() ==> payload_reads(#[trigger] entries@[i]@, name@)) ==> r is Ok,
{
    let mut acc = Nested::new();
    let ghost mut ms: Seq<Map<Seq<char>, Model>> = Seq::empty();
    let mut i: usize = 0;
    while i < entries.len()
        invariant
            i <= entries@.len(),
            ms.len() == i,
            forall|j: int| 0 <= j < i ==> reads_as(entries@[j]@, name@, #[trigger] ms[j]),
            acc@ == fold_maps(ms),
        decreases entries@.len() - i,
    {
        proof {
            if forall|j: int| 0 <= j < entries@.len() ==> payload_reads(#[trigger] entries@[j]@, name@) {
                assert(payload_reads(entries@[i as int]@, name@));
                let m = choose|m: Map<Seq<char>, Model>| #[trigger] reads_as(entries@[i as int]@, name@, m);
                let x = find_subtree(entries@[i as int]@, name@)->Some_0;
                let n = choose|n: Nested| #[trigger] enc_value(Value::Node(n)) == x.data && n@ == m;
            }
        }
        let data = match entries[i].data(name) {
            Some(d) => d,
            None => {
                return Err(Error::InvalidData { reason: "an entry lacks the subtree".to_owned() });
            },
        };
        let n = match Nested::from_text(data.as_str()) {
            Ok(n) => n,
            Err(_) => {
                return Err(Error::InvalidData { reason: "a subtree payload is not a map".to_owned() });
            },
        };
        let merged = match acc.merge(&n) {
            Ok(m) => m,
            Err(_) => {
                return Err(Error::InvalidData { reason: "merge failed".to_owned() });
            },
        };
        proof {
            let old_ms = ms;
            ms = ms.push(n@);
            assert(ms.drop_last() =~= old_ms);
            assert(reads_as(entries@[i as int]@, name@, n@));
            assert forall|j: int| 0 <= j < i + 1 implies reads_as(entries@[j]@, name@, #[trigger] ms[j]) by {
                if j < i {
                    assert(ms[j] == old_ms[j]);
                }
            }
        }
        acc = merged;
        i = i + 1;
    }
    Ok(acc)
}

/// The hyphenated form of a UUID: 8, 4, 4, 4 and 12 lowercase hex digits
/// joined by `-`.
pub open spec fn uuid_shaped(s: Seq<char>) -> bool {
    &&& s.len() == 36
    &&& forall|i: int| 0 <= i < 36 ==> if i == 8 || i == 13 || i == 18 || i == 23 {
        #[trigger] s[i] == '-'
    } else {
        ('0' <= s[i] && s[i] <= '9') || ('a' <= s[i] && s[i] <= 'f')
    }
}

/// Relies on uuid's `Uuid::new_v4` for a random id and on its hyphenated
/// lowercase form (`Hyphenated`, 36 characters in groups 8-4-4-4-12).
#[verifier::external_body]
fn fresh_uuid() -> (r: String)
    ensures
        uuid_shaped(r@),
{
    uuid::Uuid::new_v4().hyphenated().to_string()
}

/// `rs` lists exactly the live map records of `m`, each with its key.
pub open spec fn records_of(m: Map<Seq<char>, Model>, rs: Seq<(String, Nested)>) -> bool {
    &&& forall|i: int| 0 <= i < rs.len() ==> m.contains_key((#[trigger] rs[i]).0@) && m[rs[i].0@] == Model::Node(rs[i].1@)
    &&& forall|k: Seq<char>| m.contains_key(k) && #[trigger] m[k] is Node ==> exists|t: int| 0 <= t < rs.len() && (#[trigger] rs[t]).0@ == k
}

/// A set of staged changes to the subtrees of one tree.
#[derive(Debug)]
pub struct AtomicOp {
    pub(crate) root: String,
    pub(crate) tips: Vec<String>,
    /// subtree name to the staged state of that subtree, as a map value
    pub(crate) staged: Nested,
    pub(crate) key: Option<String>,
}

impl AtomicOp {
    /// The id of the tree's root.
    pub closed spec fn spec_root(&self) -> Seq<char> {
        self.root@
    }

    /// `m` is the current state of subtree `name`: what is staged for it,
    /// else a state folded from the entries the operation's tips reach.
    pub open spec fn current_state(&self, db: &BaseDB, name: Seq<char>, m: Map<Seq<char>, Model>) -> bool {
        ||| self.spec_staged().contains_key(name) && self.spec_staged()[name] == Model::Node(m)
        ||| !self.spec_staged().contains_key(name) && crate::basedb::folded_state(
            db.store().entries,
            self.spec_root(),
            name,
            self.spec_tips().to_set(),
            m,
        )
    }

    /// Subtree `name` can be read: it is staged as a map, or it is not staged
    /// and every payload of it that the tips reach reads as a map.
    pub open spec fn readable(&self, db: &BaseDB, name: Seq<char>) -> bool {
        ||| self.spec_staged().contains_key(name) && self.spec_staged()[name] is Node
        ||| !self.spec_staged().contains_key(name) && crate::basedb::reached_payloads_read(
            db.store().entries,
            self.spec_root(),
            name,
            self.spec_tips().to_set(),
        )
    }

    /// The tips the operation reads from and extends.
    pub closed spec fn spec_tips(&self) -> Seq<Seq<char>> {
        crate::order::views(self.tips@)
    }

    /// Staged subtree states, by subtree name.
    pub closed spec fn spec_staged(&self) -> Map<Seq<char>, Model> {
        self.staged@
    }

    /// The key the operation signs with.
    pub closed spec fn spec_key(&self) -> Option<Seq<char>> {
        match self.key {
            Some(k) => Some(k@),
            None => None,
        }
    }

    /// An operation on the tree rooted at `root` over `tips`, signing with
    /// `key`, with nothing staged.
    pub fn new(root: String, tips: Vec<String>, key: Option<String>) -> (r: AtomicOp)
        ensures
            r.spec_root() == root@,
            r.spec_tips() == crate::order::views(tips@),
            r.spec_staged() == Map::<Seq<char>, Model>::empty(),
            r.spec_key() == (match key {
                Some(k) => Some(k@),
                None => None::<Seq<char>>,
            }),
    {
        AtomicOp { root, tips, staged: Nested::new(), key }
    }

    /// The id of the tree's root.
    pub fn root_id(&self) -> (r: &String)
        ensures
            r@ == self.spec_root(),
    {
        &self.root
    }

    /// The staged subtree states, by subtree name.
    pub fn staged(&self) -> (r: &Nested)
        ensures
            r@ == self.spec_staged(),
    {
        &self.staged
    }

    /// The tips the operation reads from and extends.
    pub fn tips(&self) -> (r: &Vec<String>)
        ensures
            crate::order::views(r@) == self.spec_tips(),
    {
        &self.tips
    }

    /// The key the operation signs with.
    pub fn auth_key(&self) -> (r: Option<&String>)
        ensures
            r matches Some(k) ==> self.spec_key() == Some(k@),
            r is None ==> self.spec_key() is None,
    {
        match &self.key {
            Some(k) => Some(k),
            None => None,
        }
    }

    /// Signs with `key` instead.
    pub fn set_auth_key(&mut self, key: &str)
        ensures
            final(self).spec_key() == Some(key@),
            final(self).spec_staged() == old(self).spec_staged(),
            final(self).spec_root() == old(self).spec_root(),
            final(self).spec_tips() == old(self).spec_tips(),
    {
        self.key = Some(key.to_owned());
    }

    /// The current state of subtree `name`: what is staged for it, else its
    /// state folded from the operation's tips.
    pub fn get_subtree(&self, db: &BaseDB, name: &str) -> (r: Result<Nested, Error>)
        requires
            db.wf(),
        ensures
            self.spec_staged().contains_key(name@) && self.spec_staged()[name@] is Node ==> (r matches Ok(n)
                && Model::Node(n@) == self.spec_staged()[name@]),
            self.spec_staged().contains_key(name@) && !(self.spec_staged()[name@] is Node) ==> r is Err,
            self.readable(db, name@) ==> r is Ok,
            r matches Ok(n) ==> self.current_state(db, name@, n@),
    {
        match self.staged.get_raw(name) {
            Some(v) => match v.as_node() {
                Some(n) => Ok(n.duplicate()),
                None => Err(Error::InvalidData { reason: "a staged subtree is not a map".to_owned() }),
            },
            None => db.subtree_state(self.root.as_str(), name, &self.tips),
        }
    }

    /// Stages `value` under `key` in subtree `subtree`.
    pub fn dict_set_value(&mut self, db: &BaseDB, subtree: &str, key: &str, value: Value) -> (r: Result<(), Error>)
        requires
            db.wf(),
        ensures
            old(self).readable(db, subtree@) ==> r is Ok,
            r is Err ==> final(self).spec_staged() == old(self).spec_staged(),
            r is Ok ==> exists|m: Map<Seq<char>, Model>|
                final(self).spec_staged() == old(self).spec_staged().insert(subtree@, Model::Node(m.insert(key@, value.model())))
                    && (old(self).spec_staged().contains_key(subtree@) ==> old(self).spec_staged()[subtree@] == Model::Node(m)),
            final(self).spec_root() == old(self).spec_root(),
            final(self).spec_tips() == old(self).spec_tips(),
            final(self).spec_key() == old(self).spec_key(),
    {
        let mut state = match self.get_subtree(db, subtree) {
            Ok(n) => n,
            Err(e) => {
                return Err(e);
            },
        };
        let ghost m = state@;
        let ghost vm = value.model();
        state.set_value(key, value);
        self.staged.set_value(subtree, Value::node(state));
        proof {
            assert(state@ == m.insert(key@, vm));
        }
        Ok(())
    }

    /// Stages the text `value` under `key` in subtree `subtree`.
    pub fn dict_set(&mut self, db: &BaseDB, subtree: &str, key: &str, value: &str) -> (r: Result<(), Error>)
        requires
            db.wf(),
        ensures
            old(self).readable(db, subtree@) ==> r is Ok,
            r is Err ==> final(self).spec_staged() == old(self).spec_staged(),
            r is Ok ==> exists|m: Map<Seq<char>, Model>|
                final(self).spec_staged() == old(self).spec_staged().insert(subtree@, Model::Node(m.insert(key@, Model::Text(value@))))
                    && (old(self).spec_staged().contains_key(subtree@) ==> old(self).spec_staged()[subtree@] == Model::Node(m)),
            final(self).spec_root() == old(self).spec_root(),
            final(self).spec_tips() == old(self).spec_tips(),
            final(self).spec_key() == old(self).spec_key(),
    {
        let v = Value::text(value);
        self.dict_set_value(db, subtree, key, v)
    }

    /// Stages a tombstone under `key` in subtree `subtree`.
    pub fn dict_delete(&mut self, db: &BaseDB, subtree: &str, key: &str) -> (r: Result<(), Error>)
        requires
            db.wf(),
        ensures
            old(self).readable(db, subtree@) ==> r is Ok,
            r is Err ==> final(self).spec_staged() == old(self).spec_staged(),
            r is Ok ==> exists|m: Map<Seq<char>, Model>|
                final(self).spec_staged() == old(self).spec_staged().insert(subtree@, Model::Node(m.insert(key@, Model::Deleted)))
                    && (old(self).spec_staged().contains_key(subtree@) ==> old(self).spec_staged()[subtree@] == Model::Node(m)),
            final(self).spec_root() == old(self).spec_root(),
            final(self).spec_tips() == old(self).spec_tips(),
            final(self).spec_key() == old(self).spec_key(),
    {
        let v = Value::deleted();
        self.dict_set_value(db, subtree, key, v)
    }

    /// The live value under `key` in subtree `subtree`; `NotFound` where it
    /// is missing or deleted.
    pub fn dict_get(&self, db: &BaseDB, subtree: &str, key: &str) -> (r: Result<Value, Error>)
        requires
            db.wf(),
        ensures
            self.spec_staged().contains_key(subtree@) && self.spec_staged()[subtree@] is Node ==> (
            match r {
                Ok(v) => self.spec_staged()[subtree@]->Node_0.contains_key(key@) && self.spec_staged()[subtree@]->Node_0[key@]
                    == v.model() && !(v.model() is Deleted),
                Err(_) => !self.spec_staged()[subtree@]->Node_0.contains_key(key@)
                    || self.spec_staged()[subtree@]->Node_0[key@] is Deleted,
            }),
            r matches Ok(v) ==> exists|m: Map<Seq<char>, Model>| #[trigger] self.current_state(db, subtree@, m) && m.contains_key(key@)
                && m[key@] == v.model() && !(v.model() is Deleted),
            r matches Err(Error::NotFound { .. }) ==> exists|m: Map<Seq<char>, Model>| #[trigger] self.current_state(db, subtree@, m)
                && (!m.contains_key(key@) || m[key@] is Deleted),
            self.readable(db, subtree@) ==> (r is Ok || r matches Err(Error::NotFound { .. })),
            r is Err ==> (r matches Err(Error::NotFound { .. }) || r matches Err(Error::InvalidData { .. })),
    {
        let state = match self.get_subtree(db, subtree) {
            Ok(n) => n,
            Err(_) => {
                return Err(Error::InvalidData { reason: "the subtree cannot be read".to_owned() });
            },
        };
        proof {
            assert(self.current_state(db, subtree@, state@));
        }
        match state.get(key) {
            Some(v) => Ok(v.duplicate()),
            None => Err(Error::NotFound { id: key.to_owned() }),
        }
    }

    /// Stores `record` in table subtree `subtree` under a fresh UUID and
    /// returns that key.
    pub fn table_insert(&mut self, db: &BaseDB, subtree: &str, record: Nested) -> (r: Result<String, Error>)
        requires
            db.wf(),
        ensures
            old(self).readable(db, subtree@) ==> r is Ok,
            r is Err ==> final(self).spec_staged() == old(self).spec_staged(),
            r matches Ok(k) ==> uuid_shaped(k@),
            r matches Ok(k) ==> final(self).spec_staged().contains_key(subtree@) && final(self).spec_staged()[subtree@] is Node
                && final(self).spec_staged()[subtree@]->Node_0.contains_key(k@)
                && final(self).spec_staged()[subtree@]->Node_0[k@] == Model::Node(record@),
            final(self).spec_root() == old(self).spec_root(),
            final(self).spec_tips() == old(self).spec_tips(),
            final(self).spec_key() == old(self).spec_key(),
    {
        let key = fresh_uuid();
        let v = Value::node(record);
        let ghost vm = v.model();
        let ks = key.as_str();
        assert(ks@ == key@);
        match self.dict_set_value(db, subtree, ks, v) {
            Ok(()) => {
                proof {
                    let m = choose|m: Map<Seq<char>, Model>|
                        self.spec_staged() == old(self).spec_staged().insert(subtree@, Model::Node(m.insert(ks@, vm)))
                            && (old(self).spec_staged().contains_key(subtree@) ==> old(self).spec_staged()[subtree@] == Model::Node(m));
                    assert(vm == Model::Node(record@));
                    assert(self.spec_staged()[subtree@] == Model::Node(m.insert(key@, Model::Node(record@))));
                }
                Ok(key)
            },
            Err(e) => Err(e),
        }
    }

    /// Replaces the record under `key` in table subtree `subtree`.
    pub fn table_set(&mut self, db: &BaseDB, subtree: &str, key: &str, record: Nested) -> (r: Result<(), Error>)
        requires
            db.wf(),
        ensures
            old(self).readable(db, subtree@) ==> r is Ok,
            r is Err ==> final(self).spec_staged() == old(self).spec_staged(),
            r is Ok ==> exists|m: Map<Seq<char>, Model>|
                final(self).spec_staged() == old(self).spec_staged().insert(subtree@, Model::Node(m.insert(key@, Model::Node(record@))))
                    && (old(self).spec_staged().contains_key(subtree@) ==> old(self).spec_staged()[subtree@] == Model::Node(m)),
    {
        let v = Value::node(record);
        self.dict_set_value(db, subtree, key, v)
    }

    /// The record under `key` in table subtree `subtree`.
    pub fn table_get(&self, db: &BaseDB, subtree: &str, key: &str) -> (r: Result<Nested, Error>)
        requires
            db.wf(),
        ensures
            self.spec_staged().contains_key(subtree@) && self.spec_staged()[subtree@] is Node ==> (
            match r {
                Ok(n) => self.spec_staged()[subtree@]->Node_0.contains_key(key@) && self.spec_staged()[subtree@]->Node_0[key@]
                    == Model::Node(n@),
                Err(_) => !self.spec_staged()[subtree@]->Node_0.contains_key(key@)
                    || !(self.spec_staged()[subtree@]->Node_0[key@] is Node),
            }),
            r matches Ok(n) ==> exists|m: Map<Seq<char>, Model>| #[trigger] self.current_state(db, subtree@, m) && m.contains_key(key@)
                && m[key@] == Model::Node(n@),
            r matches Err(Error::NotFound { .. }) ==> exists|m: Map<Seq<char>, Model>| #[trigger] self.current_state(db, subtree@, m)
                && (!m.contains_key(key@) || m[key@] is Deleted),
            r matches Err(Error::Subtree(_)) ==> exists|m: Map<Seq<char>, Model>| #[trigger] self.current_state(db, subtree@, m)
                && m.contains_key(key@) && !(m[key@] is Node) && !(m[key@] is Deleted),
            self.readable(db, subtree@) ==> (r is Ok || r matches Err(Error::NotFound { .. }) || r matches Err(Error::Subtree(_))),
    {
        match self.dict_get(db, subtree, key) {
            Ok(v) => match v.as_node() {
                Some(n) => Ok(n.duplicate()),
                None => {
                    proof {
                        assert(!(v.model() is Node));
                    }
                    Err(
                    Error::Subtree(
                        crate::errors::SubtreeError::TypeMismatch {
                            subtree: subtree.to_owned(),
                            expected: "map".to_owned(),
                            actual: "other".to_owned(),
                        },
                    ),
                )
                },
            },
            Err(e) => Err(e),
        }
    }

    /// Every live record of table subtree `subtree`, with its key.
    pub fn table_records(&self, db: &BaseDB, subtree: &str) -> (r: Result<Vec<(String, Nested)>, Error>)
        requires
            db.wf(),
        ensures
            r matches Ok(rs) ==> forall|i: int| 0 <= i < rs@.len() ==> (self.spec_staged().contains_key(subtree@)
                && self.spec_staged()[subtree@] is Node) ==> self.spec_staged()[subtree@]->Node_0.contains_key(
                (#[trigger] rs@[i]).0@,
            ) && self.spec_staged()[subtree@]->Node_0[rs@[i].0@] == Model::Node(rs@[i].1@),
            self.readable(db, subtree@) ==> r is Ok,
            r matches Ok(rs) ==> (self.spec_staged().contains_key(subtree@) && self.spec_staged()[subtree@] is Node) ==> forall|k: Seq<char>|
                #![trigger self.spec_staged()[subtree@]->Node_0[k]]
                self.spec_staged()[subtree@]->Node_0.contains_key(k) && self.spec_staged()[subtree@]->Node_0[k] is Node
                    ==> exists|t: int| 0 <= t < rs@.len() && (#[trigger] rs@[t]).0@ == k,
            r matches Ok(rs) ==> exists|m: Map<Seq<char>, Model>| #[trigger] self.current_state(db, subtree@, m) && records_of(m, rs@),
    {
        let state = match self.get_subtree(db, subtree) {
            Ok(n) => n,
            Err(e) => {
                return Err(e);
            },
        };
        let keys = state.keys();
        let mut out: Vec<(String, Nested)> = Vec::new();
        let mut i: usize = 0;
        while i < keys.len()
            invariant
                i <= keys@.len(),
                forall|j: int| 0 <= j < out@.len() ==> state@.contains_key((#[trigger] out@[j]).0@) && state@[out@[j].0@]
                    == Model::Node(out@[j].1@),
                forall|j: int| 0 <= j < i && state@.contains_key((#[trigger] keys@[j])@) && state@[keys@[j]@] is Node
                    ==> exists|t: int| 0 <= t < out@.len() && out@[t].0@ == keys@[j]@,
            decreases keys@.len() - i,
        {
            match state.get(keys[i].as_str()) {
                Some(v) => match v.as_node() {
                    Some(n) => {
                        let ghost before = out@;
                        out.push((keys[i].clone(), n.duplicate()));
                        proof {
                            assert(out@[before.len() as int].0@ == keys@[i as int]@);
                            assert forall|j: int| 0 <= j < i + 1 && state@.contains_key((#[trigger] keys@[j])@) && state@[keys@[j]@] is Node
                                implies exists|t: int| 0 <= t < out@.len() && out@[t].0@ == keys@[j]@ by {
                                if j < i {
                                    let t = choose|t: int| 0 <= t < before.len() && before[t].0@ == keys@[j]@;
                                    assert(out@[t] == before[t]);
                                }
                            }
                        }
                    },
                    None => {},
                },
                None => {},
            }
            i = i + 1;
        }
        proof {
            assert forall|k: Seq<char>| state@.contains_key(k) && state@[k] is Node implies exists|t: int| 0 <= t < out@.len()
                && (#[trigger] out@[t]).0@ == k by {
                let j = choose|j: int| 0 <= j < keys@.len() && (#[trigger] keys@[j])@ == k;
            }
        }
        proof {
            assert(self.current_state(db, subtree@, state@));
            assert(records_of(state@, out@));
        }
        Ok(out)
    }
}

} // verus!
