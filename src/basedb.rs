//! The database: a storage of entries and the trees rooted in it.
use vstd::prelude::*;
use crate::backend::{InMemory, StoreModel, known, sid};
use crate::crdt::{Nested, Value, enc_value};
use crate::entry::{Entry, EntryModel, BuilderModel, built, entry_id, find_subtree, sorted_of, nonempty_nodes};
use crate::errors::Error;
use crate::atomicop::AtomicOp;
use crate::crdt::Model;
use crate::atomicop::{fold_maps, reads_as};
use crate::backend::{is_reached_entry, reach, member, topo_lt, index_in};
use crate::order::views;
use crate::auth::{ed25519_signature_of, ed25519_public_of, ed25519_valid, AuthKey, KeyStatus};
use crate::entry::canonical_bytes;

verus! {

/// The content of the root entry of a tree created with settings whose text
/// form is `settings`.
pub open spec fn root_entry_model(settings: Seq<char>) -> EntryModel {
    built(
        BuilderModel {
            root: Seq::empty(),
            parents: Set::empty(),
            subtrees: Map::empty().insert("_root"@, (seq!['M', '0', ':'], Set::empty())).insert("_settings"@, (settings, Set::empty())),
        },
    )
}

/// Some tree of `ts` has root `x`.
pub open spec fn has_tree(ts: Seq<Tree>, x: Seq<char>) -> bool {
    exists|t: int| 0 <= t < ts.len() && (#[trigger] ts[t]).spec_root() == x
}

/// `x` is the id of a stored root entry.
pub open spec fn is_root_id(s: Seq<EntryModel>, x: Seq<char>) -> bool {
    exists|i: int| 0 <= i < s.len() && sid(s, i) == x && s[i].root.len() == 0
}

/// `es` are the entries of subtree `name` reached from `tips` in topological
/// order, `ms` what their payloads read as, and `acc` their fold.
pub open spec fn state_witness(
    s: Seq<EntryModel>,
    root: Seq<char>,
    name: Seq<char>,
    tips: Set<Seq<char>>,
    acc: Map<Seq<char>, Model>,
    es: Seq<EntryModel>,
    ms: Seq<Map<Seq<char>, Model>>,
) -> bool {
    &&& es.len() == ms.len()
    &&& forall|t: int| 0 <= t < es.len() ==> is_reached_entry(s, root, Some(name), tips, #[trigger] es[t])
    &&& forall|i: int| 0 <= i < s.len() && reach(s, root, None, tips, i) && member(s[i], root, Some(name))
        ==> exists|t: int| 0 <= t < es.len() && es[t] == s[i]
    &&& forall|a: int, b: int| 0 <= a < b < es.len() ==> topo_lt(s, root, Some(name), index_in(s, #[trigger] es[a]), index_in(s, #[trigger] es[b]))
    &&& forall|t: int| 0 <= t < es.len() ==> reads_as(es[t], name, #[trigger] ms[t])
    &&& acc == fold_maps(ms)
}

/// The entry that a commit of `staged` over `tips` builds: its parents are
/// the tips, and each of its subtrees holds the text of a staged map.
pub open spec fn commit_content(e: EntryModel, tips: Seq<Seq<char>>, staged: Map<Seq<char>, Model>) -> bool {
    &&& e.parents.to_set() == tips.to_set()
    &&& forall|c: int| 0 <= c < e.subtrees.len() ==> staged.contains_key(#[trigger] e.subtrees[c].name) && exists|n: Nested|
        e.subtrees[c].data == enc_value(Value::Node(n)) && staged[e.subtrees[c].name] == Model::Node(n@)
}

/// `x` is the id of one of `es`.
pub open spec fn id_of_some(es: Seq<Entry>, x: Seq<char>) -> bool {
    exists|j: int| 0 <= j < es.len() && x == entry_id(es[j]@)
}

/// Every entry of subtree `name` reached from `tips` has a payload that
/// reads as a map.
pub open spec fn reached_payloads_read(s: Seq<EntryModel>, root: Seq<char>, name: Seq<char>, tips: Set<Seq<char>>) -> bool {
    forall|i: int| 0 <= i < s.len() && reach(s, root, None, tips, i) && member(s[i], root, Some(name))
        ==> crate::atomicop::payload_reads(#[trigger] s[i], name)
}

/// `acc` is the state of subtree `name` folded from the entries reached
/// from `tips`: their payloads read as maps and merged in topological order.
pub open spec fn folded_state(s: Seq<EntryModel>, root: Seq<char>, name: Seq<char>, tips: Set<Seq<char>>, acc: Map<Seq<char>, Model>) -> bool {
    exists|es: Seq<EntryModel>, ms: Seq<Map<Seq<char>, Model>>| #[trigger] state_witness(s, root, name, tips, acc, es, ms)
}

/// A tree: one independent history of entries, named by the id of its root
/// entry.
#[derive(Debug)]
pub struct Tree {
    root: String,
    default_key: Option<String>,
}

impl Tree {
    /// The id of the root entry.
    pub closed spec fn spec_root(&self) -> Seq<char> {
        self.root@
    }

    /// The id of the root entry.
    pub fn root_id(&self) -> (r: &String)
        ensures
            r@ == self.spec_root(),
    {
        &self.root
    }

    /// The key that new operations on this tree sign with.
    pub closed spec fn spec_key(&self) -> Option<Seq<char>> {
        match self.default_key {
            Some(k) => Some(k@),
            None => None,
        }
    }

    /// The key that new operations on this tree sign with.
    pub fn default_auth_key(&self) -> (r: Option<&String>)
        ensures
            r matches Some(k) ==> self.spec_key() == Some(k@),
            r is None ==> self.spec_key() is None,
    {
        match &self.default_key {
            Some(k) => Some(k),
            None => None,
        }
    }

    /// Makes `key` the key that new operations sign with.
    pub fn set_default_auth_key(&mut self, key: &str)
        ensures
            final(self).spec_root() == old(self).spec_root(),
            final(self).spec_key() == Some(key@),
    {
        self.default_key = Some(key.to_owned());
    }

    /// Leaves new operations without a key.
    pub fn clear_default_auth_key(&mut self)
        ensures
            final(self).spec_root() == old(self).spec_root(),
            final(self).spec_key() is None,
    {
        self.default_key = None;
    }
}

/// The database: a storage of entries, and the trees rooted in it.
#[derive(Debug)]
pub struct BaseDB {
    backend: InMemory,
    keys: Vec<(String, Vec<u8>)>,
}

impl BaseDB {
    /// The database's own invariant.
    pub closed spec fn wf(&self) -> bool {
        &&& self.backend.wf()
        &&& forall|i: int| 0 <= i < self.keys@.len() ==> (#[trigger] self.keys@[i]).1@.len() == 32
        &&& forall|i: int, j: int| 0 <= i < j < self.keys@.len() ==> (#[trigger] self.keys@[i]).0@ != (#[trigger] self.keys@[j]).0@
    }

    /// The secret half of key `name`.
    pub closed spec fn spec_secret(&self, name: Seq<char>) -> Seq<u8> {
        self.keys@[choose|i: int| 0 <= i < self.keys@.len() && (#[trigger] self.keys@[i]).0@ == name].1@
    }

    /// The content of the storage.
    pub closed spec fn store(&self) -> StoreModel {
        self.backend@
    }

    /// A database over `backend`.
    pub fn new(backend: InMemory) -> (r: BaseDB)
        requires
            backend.wf(),
        ensures
            r.wf(),
            r.store() == backend@,
    {
        BaseDB { backend, keys: Vec::new() }
    }

    /// The storage.
    pub fn backend(&self) -> (r: &InMemory)
        requires
            self.wf(),
        ensures
            r.wf(),
            r@ == self.store(),
    {
        &self.backend
    }

    /// Creates a tree whose root entry holds `settings` in its `_settings`
    /// subtree.
    pub fn new_tree(&mut self, settings: Nested) -> (r: Result<Tree, Error>)
        requires
            old(self).wf(),
        ensures
            final(self).wf(),
            r is Ok,
            r matches Ok(t) ==> t.spec_root() == entry_id(
                root_entry_model(enc_value(Value::Node(settings))),
            ) && known(final(self).store().entries, t.spec_root()),
            final(self).store().entries == old(self).store().entries || final(self).store().entries
                == old(self).store().entries.push(
                root_entry_model(enc_value(Value::Node(settings))),
            ),
            r matches Ok(t) ==> !known(old(self).store().entries, t.spec_root()) ==> crate::backend::tips_of(
                final(self).store().entries,
                t.spec_root(),
                None,
            ).contains(t.spec_root()),
    {
        let text = settings.to_text();
        let entry = Entry::root_builder().set_subtree_data("_settings", text.as_str()).build();
        let ghost bm = BuilderModel {
            root: Seq::empty(),
            parents: Set::empty(),
            subtrees: Map::empty().insert("_root"@, (seq!['M', '0', ':'], Set::empty())).insert("_settings"@, (text@, Set::empty())),
        };
        proof {
            reveal_strlit("_root");
            reveal_strlit("_settings");
            assert("_root"@.len() != "_settings"@.len());
        }
        let id = entry.id();
        let ghost m = entry@;
        proof {
            assert(entry@ == root_entry_model(enc_value(Value::Node(settings))));
            assert forall|sub: Option<Seq<char>>, k: int| 0 <= k < crate::backend::links(m, sub).len() implies known(
                self.backend@.entries,
                #[trigger] crate::backend::links(m, sub)[k],
            ) by {
                let e: Seq<Seq<char>> = Seq::empty();
                assert(e.to_set() =~= Set::<Seq<char>>::empty());
                crate::entry::lemma_sorted_of(e);
                if let Some(n) = sub {
                    if find_subtree(m, n) is Some {
                        let c = choose|c: int| 0 <= c < m.subtrees.len() && (#[trigger] m.subtrees[c]).name == n;
                        let q = sorted_of(nonempty_nodes(bm.subtrees).dom());
                        assert(q.to_set().contains(q[c]));
                        assert(m.subtrees[c].parents.len() == 0);
                    }
                }
            }
        }
        match self.backend.put_verified(entry) {
            Ok(()) => {},
            Err(e) => {
                return Err(e);
            },
        }
        proof {
            if !known(old(self).store().entries, entry_id(m)) {
                let s = self.backend@.entries;
                let last = s.len() - 1;
                assert(sid(s, last) == entry_id(m));
                self.backend.lemma_well_formed();
                reveal(crate::backend::stored_before);
                assert forall|j: int| 0 <= j < s.len() && crate::backend::member(s[j], entry_id(m), None) implies !(#[trigger] crate::backend::links(
                    s[j],
                    None,
                )).contains(sid(s, last)) by {
                    if j < last {
                        if crate::backend::links(s[j], None).contains(sid(s, last)) {
                            let k = choose|k: int| 0 <= k < s[j].parents.len() && s[j].parents[k] == sid(s, last);
                            assert(crate::backend::parents_known(s.subrange(0, j), s[j]));
                            assert(known(s.subrange(0, j), crate::backend::links(s[j], None)[k]));
                            let w = choose|w: int| 0 <= w < j && sid(s.subrange(0, j), w) == sid(s, last);
                            assert(s.subrange(0, j)[w] == s[w]);
                            assert(s[w] == old(self).store().entries[w]);
                            assert(sid(old(self).store().entries, w) == entry_id(m));
                            assert(known(old(self).store().entries, entry_id(m)));
                        }
                    } else {
                        assert(s[j] == m);
                        let e: Seq<Seq<char>> = Seq::empty();
                        assert(e.to_set() =~= Set::<Seq<char>>::empty());
                        crate::entry::lemma_sorted_of(e);
                        assert(m.parents.len() == 0);
                    }
                }
                assert(crate::backend::is_tip(s, entry_id(m), None, last));
            }
        }
        Ok(Tree { root: id, default_key: None })
    }

    /// The tree whose root entry has id `root_id`; `NotFound` where no such
    /// entry is stored.
    pub fn load_tree(&self, root_id: &str) -> (r: Result<Tree, Error>)
        requires
            self.wf(),
        ensures
            r is Ok <==> known(self.store().entries, root_id@),
            r matches Ok(t) ==> t.spec_root() == root_id@,
            r is Err ==> r matches Err(Error::NotFound { .. }),
    {
        match self.backend.get(root_id) {
            Ok(_) => Ok(Tree { root: root_id.to_owned(), default_key: None }),
            Err(e) => Err(e),
        }
    }

    /// A tree for every stored root entry.
    pub fn all_trees(&self) -> (r: Result<Vec<Tree>, Error>)
        requires
            self.wf(),
        ensures
            r is Ok,
            r matches Ok(ts) ==> forall|x: Seq<char>| #[trigger] has_tree(ts@, x) <==> is_root_id(self.store().entries, x),
            r matches Ok(ts) ==> forall|a: int, b: int| 0 <= a < ts@.len() && 0 <= b < ts@.len() && a != b ==> (#[trigger] ts@[a]).spec_root()
                != (#[trigger] ts@[b]).spec_root(),
            r matches Ok(ts) ==> forall|a: int, b: int| 0 <= a < b < ts@.len() ==> crate::backend::id_index(
                self.store().entries,
                (#[trigger] ts@[a]).spec_root(),
            ) < crate::backend::id_index(self.store().entries, (#[trigger] ts@[b]).spec_root()),
    {
        let roots = self.backend.all_roots();
        let mut trees: Vec<Tree> = Vec::new();
        let mut i: usize = 0;
        while i < roots.len()
            invariant
                i <= roots@.len(),
                trees@.len() == i,
                forall|t: int| 0 <= t < i ==> (#[trigger] trees@[t]).spec_root() == roots@[t]@,
            decreases roots@.len() - i,
        {
            trees.push(Tree { root: roots[i].clone(), default_key: None });
            i = i + 1;
        }
        proof {
            assert forall|a: int, b: int| 0 <= a < b < trees@.len() implies crate::backend::id_index(
                self.store().entries,
                (#[trigger] trees@[a]).spec_root(),
            ) < crate::backend::id_index(self.store().entries, (#[trigger] trees@[b]).spec_root()) by {
                assert(roots@[a]@ == trees@[a].spec_root());
                assert(roots@[b]@ == trees@[b].spec_root());
            }
            assert forall|a: int, b: int| 0 <= a < trees@.len() && 0 <= b < trees@.len() && a != b implies (#[trigger] trees@[a]).spec_root()
                != (#[trigger] trees@[b]).spec_root() by {
                assert(views(roots@)[a] != views(roots@)[b]);
            }
            assert forall|x: Seq<char>| #[trigger] has_tree(trees@, x) <==> views(roots@).contains(x) by {
                if exists|t: int| 0 <= t < trees@.len() && (#[trigger] trees@[t]).spec_root() == x {
                    let t = choose|t: int| 0 <= t < trees@.len() && (#[trigger] trees@[t]).spec_root() == x;
                    assert(views(roots@)[t] == x);
                }
                if views(roots@).contains(x) {
                    let t = choose|t: int| 0 <= t < views(roots@).len() && views(roots@)[t] == x;
                    assert(trees@[t].spec_root() == x);
                }
            }
        }
        Ok(trees)
    }

    /// A key of this name is in the keystore.
    pub closed spec fn has_key(&self, name: Seq<char>) -> bool {
        exists|i: int| 0 <= i < self.keys@.len() && (#[trigger] self.keys@[i]).0@ == name
    }

    fn find_key(&self, name: &str) -> (r: Option<usize>)
        ensures
            r matches Some(i) ==> i < self.keys@.len() && self.keys@[i as int].0@ == name@,
            r is None ==> !self.has_key(name@),
    {
        let k = name.to_owned();
        let mut i: usize = 0;
        while i < self.keys.len()
            invariant
                k@ == name@,
                i <= self.keys@.len(),
                forall|j: int| 0 <= j < i ==> (#[trigger] self.keys@[j]).0@ != name@,
            decreases self.keys@.len() - i,
        {
            if self.keys[i].0 == k {
                return Some(i);
            }
            i = i + 1;
        }
        None
    }

    /// Generates a key pair named `name` and keeps its secret half; returns
    /// the public key in hex. A name already in use is refused.
    pub fn add_private_key(&mut self, name: &str) -> (r: Result<String, Error>)
        requires
            old(self).wf(),
        ensures
            final(self).wf(),
            final(self).store() == old(self).store(),
            old(self).has_key(name@) <==> r is Err,
            r is Ok ==> final(self).has_key(name@),
            r is Err ==> final(self).has_key(name@) == old(self).has_key(name@),
            forall|n: Seq<char>| old(self).has_key(n) ==> final(self).has_key(n),
    {
        if self.find_key(name).is_some() {
            return Err(Error::InvalidOperation { reason: "a key of this name exists".to_owned() });
        }
        let secret = crate::auth::random_secret();
        let public = match crate::auth::ed25519_public(secret.as_slice()) {
            Some(p) => p,
            None => {
                return Err(Error::InvalidData { reason: "the key could not be made".to_owned() });
            },
        };
        let ghost old_keys = self.keys@;
        self.keys.push((name.to_owned(), secret));
        proof {
            assert forall|a: int, b: int| 0 <= a < b < self.keys@.len() implies (#[trigger] self.keys@[a]).0@ != (#[trigger] self.keys@[b]).0@ by {
                if b == old_keys.len() {
                    assert(self.keys@[a] == old_keys[a]);
                    assert(!old(self).has_key(name@));
                    if old_keys[a].0@ == name@ {
                        assert(old(self).has_key(name@));
                    }
                } else {
                    assert(self.keys@[a] == old_keys[a] && self.keys@[b] == old_keys[b]);
                }
            }
            assert forall|a: int| 0 <= a < self.keys@.len() implies (#[trigger] self.keys@[a]).1@.len() == 32 by {
                if a < old_keys.len() {
                    assert(self.keys@[a] == old_keys[a]);
                }
            }
            assert(self.keys@[old_keys.len() as int].0@ == name@);
            assert forall|n: Seq<char>| old(self).has_key(n) implies self.has_key(n) by {
                let i = choose|i: int| 0 <= i < old_keys.len() && (#[trigger] old_keys[i]).0@ == n;
                assert(self.keys@[i] == old_keys[i]);
            }
        }
        Ok(crate::auth::to_hex(public.as_slice()))
    }

    /// The public key of key `name`, in hex.
    pub fn get_public_key(&self, name: &str) -> (r: Result<String, Error>)
        requires
            self.wf(),
        ensures
            r is Ok <==> self.has_key(name@),
            r matches Ok(p) ==> p@ == crate::auth::hex_of(ed25519_public_of(self.spec_secret(name@))),
    {
        match self.find_key(name) {
            Some(i) => match {
                proof {
                    let c = choose|c: int| 0 <= c < self.keys@.len() && (#[trigger] self.keys@[c]).0@ == name@;
                    if c != i {
                        if c < i {
                            assert(self.keys@[c].0@ != self.keys@[i as int].0@);
                        } else {
                            assert(self.keys@[i as int].0@ != self.keys@[c].0@);
                        }
                    }
                }
                crate::auth::ed25519_public(self.keys[i].1.as_slice())
            } {
                Some(p) => Ok(crate::auth::to_hex(p.as_slice())),
                None => Err(Error::InvalidData { reason: "the key is malformed".to_owned() }),
            },
            None => Err(Error::Authentication(crate::auth::AuthError::KeyNotFound { key: name.to_owned() })),
        }
    }

    /// The names of the keys in the keystore.
    pub fn list_keys(&self) -> (r: Vec<String>)
        ensures
            forall|n: Seq<char>| self.has_key(n) <==> exists|i: int| 0 <= i < r@.len() && (#[trigger] r@[i])@ == n,
    {
        let mut r: Vec<String> = Vec::new();
        let mut i: usize = 0;
        while i < self.keys.len()
            invariant
                i <= self.keys@.len(),
                r@.len() == i,
                forall|j: int| 0 <= j < i ==> (#[trigger] r@[j])@ == self.keys@[j].0@,
            decreases self.keys@.len() - i,
        {
            r.push(self.keys[i].0.clone());
            i = i + 1;
        }
        proof {
            assert forall|n: Seq<char>| self.has_key(n) <==> exists|i: int| 0 <= i < r@.len() && (#[trigger] r@[i])@ == n by {
                if self.has_key(n) {
                    let j = choose|j: int| 0 <= j < self.keys@.len() && (#[trigger] self.keys@[j]).0@ == n;
                    assert(r@[j]@ == n);
                }
                if exists|i: int| 0 <= i < r@.len() && (#[trigger] r@[i])@ == n {
                    let j = choose|i: int| 0 <= i < r@.len() && (#[trigger] r@[i])@ == n;
                    assert(self.keys@[j].0@ == n);
                }
            }
        }
        r
    }

    /// Signs `entry` with key `name`: the signature covers the entry's
    /// canonical bytes, and the entry's content and id stay as they were.
    pub fn sign_entry(&self, entry: &mut Entry, name: &str) -> (r: Result<(), Error>)
        requires
            self.wf(),
        ensures
            final(entry)@ == old(entry)@,
            !self.has_key(name@) <==> r is Err,
            r is Ok ==> final(entry).spec_sig() == (
                Some(name@),
                Some(crate::auth::hex_of(ed25519_signature_of(self.spec_secret(name@), canonical_bytes(old(entry)@)))),
            ),
            r is Ok ==> ed25519_valid(
                ed25519_public_of(self.spec_secret(name@)),
                canonical_bytes(old(entry)@),
                ed25519_signature_of(self.spec_secret(name@), canonical_bytes(old(entry)@)),
            ),
    {
        let i = match self.find_key(name) {
            Some(i) => i,
            None => {
                return Err(Error::Authentication(crate::auth::AuthError::KeyNotFound { key: name.to_owned() }));
            },
        };
        let msg = entry.canonical_bytes();
        proof {
            let c = choose|c: int| 0 <= c < self.keys@.len() && (#[trigger] self.keys@[c]).0@ == name@;
            if c != i {
                if c < i {
                    assert(self.keys@[c].0@ != self.keys@[i as int].0@);
                } else {
                    assert(self.keys@[i as int].0@ != self.keys@[c].0@);
                }
            }
            assert(self.spec_secret(name@) == self.keys@[i as int].1@);
        }
        let sig = match crate::auth::ed25519_sign(self.keys[i].1.as_slice(), msg.as_slice()) {
            Some(g) => g,
            None => {
                return Err(Error::InvalidData { reason: "the key is malformed".to_owned() });
            },
        };
        entry.set_sig(crate::entry::SigInfo { key: Some(name.to_owned()), sig: Some(crate::auth::to_hex(sig.as_slice())) });
        Ok(())
    }

    /// The state of subtree `name` of the tree rooted at `root`, folded from
    /// the entries reached from `tips`.
    #[verifier::rlimit(40)]
    pub fn subtree_state(&self, root: &str, name: &str, tips: &Vec<String>) -> (r: Result<Nested, Error>)
        requires
            self.wf(),
        ensures
            r matches Ok(acc) ==> folded_state(self.store().entries, root@, name@, views(tips@).to_set(), acc@),
            reached_payloads_read(self.store().entries, root@, name@, views(tips@).to_set()) ==> r is Ok,
    {
        let entries = self.backend.get_subtree_from_tips(root, name, tips);
        proof {
            if reached_payloads_read(self.store().entries, root@, name@, views(tips@).to_set()) {
                assert forall|t: int| 0 <= t < entries@.len() implies crate::atomicop::payload_reads(#[trigger] entries@[t]@, name@) by {
                    assert(is_reached_entry(self.store().entries, root@, Some(name@), views(tips@).to_set(), entries@[t]@));
                    let i = choose|i: int| 0 <= i < self.store().entries.len() && self.store().entries[i] == entries@[t]@ && reach(
                        self.store().entries, root@, None, views(tips@).to_set(), i) && member(self.store().entries[i], root@, Some(name@));
                }
            }
        }
        let r = crate::atomicop::fold_payloads(&entries, name);
        proof {
            if r is Ok {
                let acc = r->Ok_0;
                let es = entries@.map_values(|e: Entry| e@);
                let ms = choose|ms: Seq<Map<Seq<char>, Model>>| ms.len() == entries@.len()
                    && (forall|i: int| 0 <= i < ms.len() ==> reads_as(entries@[i]@, name@, #[trigger] ms[i]))
                    && acc@ == fold_maps(ms);
                let st = self.store().entries;
                let ts = views(tips@).to_set();
                assert forall|t: int| 0 <= t < es.len() implies is_reached_entry(st, root@, Some(name@), ts, #[trigger] es[t]) by {
                    assert(es[t] == entries@[t]@);
                }
                assert forall|i: int| 0 <= i < st.len() && reach(st, root@, None, ts, i) && member(st[i], root@, Some(name@))
                    implies exists|t: int| 0 <= t < es.len() && es[t] == st[i] by {
                    let t = choose|t: int| 0 <= t < entries@.len() && entries@[t]@ == st[i];
                    assert(es[t] == st[i]);
                }
                assert forall|a: int, b: int| 0 <= a < b < es.len() implies topo_lt(st, root@, Some(name@), index_in(st, #[trigger] es[a]), index_in(st, #[trigger] es[b])) by {
                    assert(es[a] == entries@[a]@ && es[b] == entries@[b]@);
                }
                assert forall|t: int| 0 <= t < es.len() implies reads_as(es[t], name@, #[trigger] ms[t]) by {
                    assert(es[t] == entries@[t]@);
                }
                assert(state_witness(st, root@, name@, ts, acc@, es, ms));
            }
        }
        r
    }

    /// The state of subtree `name` of `tree` at its current tips.
    pub fn get_subtree_viewer(&self, tree: &Tree, name: &str) -> (r: Result<Nested, Error>)
        requires
            self.wf(),
        ensures
            r matches Ok(acc) ==> folded_state(
                self.store().entries,
                tree.spec_root(),
                name@,
                crate::backend::tips_of(self.store().entries, tree.spec_root(), None),
                acc@,
            ),
            reached_payloads_read(
                self.store().entries,
                tree.spec_root(),
                name@,
                crate::backend::tips_of(self.store().entries, tree.spec_root(), None),
            ) ==> r is Ok,
    {
        let tips = self.backend.get_tips(tree.root.as_str());
        self.subtree_state(tree.root.as_str(), name, &tips)
    }

    /// The `name` setting of `tree` at its current tips.
    pub fn get_name(&self, tree: &Tree) -> (r: Result<String, Error>)
        requires
            self.wf(),
        ensures
            r matches Ok(n) ==> exists|acc: Map<Seq<char>, Model>|
                #[trigger] folded_state(
                    self.store().entries,
                    tree.spec_root(),
                    "_settings"@,
                    crate::backend::tips_of(self.store().entries, tree.spec_root(), None),
                    acc,
                ) && acc.contains_key("name"@) && acc["name"@] == Model::Text(n@),
            reached_payloads_read(
                self.store().entries,
                tree.spec_root(),
                "_settings"@,
                crate::backend::tips_of(self.store().entries, tree.spec_root(), None),
            ) && (forall|acc: Map<Seq<char>, Model>|
                #[trigger] folded_state(
                    self.store().entries,
                    tree.spec_root(),
                    "_settings"@,
                    crate::backend::tips_of(self.store().entries, tree.spec_root(), None),
                    acc,
                ) ==> acc.contains_key("name"@) && acc["name"@] is Text) ==> r is Ok,
    {
        let settings = match self.get_subtree_viewer(tree, "_settings") {
            Ok(s) => s,
            Err(e) => {
                return Err(e);
            },
        };
        match settings.get_text("name") {
            Some(t) => Ok(t.clone()),
            None => Err(
                Error::Subtree(
                    crate::errors::SubtreeError::KeyNotFound { subtree: "_settings".to_owned(), key: "name".to_owned() },
                ),
            ),
        }
    }

    /// The entry with id `id`.
    pub fn get_entry(&self, id: &str) -> (r: Result<&Entry, Error>)
        requires
            self.wf(),
        ensures
            r is Ok <==> known(self.store().entries, id@),
    {
        self.backend.get(id)
    }

    /// Creates a tree whose settings publish key `key_name` as an active
    /// admin key; new operations on it sign with that key.
    pub fn new_tree_default(&mut self, key_name: &str) -> (r: Result<Tree, Error>)
        requires
            old(self).wf(),
        ensures
            final(self).wf(),
            !old(self).has_key(key_name@) <==> r is Err,
            r matches Ok(t) ==> t.spec_key() == Some(key_name@) && known(final(self).store().entries, t.spec_root()),
            r matches Ok(t) ==> exists|n: Nested, key: AuthKey|
                t.spec_root() == entry_id(root_entry_model(enc_value(Value::Node(n)))) && #[trigger] crate::auth::published(
                    n@,
                    key_name@,
                    key,
                ) && key.pubkey@ == crate::auth::hex_of(ed25519_public_of(old(self).spec_secret(key_name@)))
                    && key.permissions == crate::auth::Permission::Admin(0) && key.status == KeyStatus::Active,
    {
        let pubkey = match self.get_public_key(key_name) {
            Ok(p) => p,
            Err(e) => {
                return Err(e);
            },
        };
        let key = crate::auth::AuthKey {
            pubkey,
            permissions: crate::auth::Permission::Admin(0),
            status: crate::auth::KeyStatus::Active,
        };
        let mut auth = Nested::new();
        let kv = crate::auth::key_value(&key);
        let ghost kvm = kv@;
        auth.set_value(key_name, Value::node(kv));
        let ghost am = auth@;
        let mut settings = Nested::new();
        settings.set_value("auth", Value::node(auth));
        let ghost sn = settings;
        proof {
            assert(crate::auth::node_at(sn@, "auth"@) == Some(am));
            assert(crate::auth::node_at(am, key_name@) == Some(kvm));
            assert(crate::auth::published(sn@, key_name@, key));
        }
        match self.new_tree(settings) {
            Ok(mut t) => {
                t.set_default_auth_key(key_name);
                Ok(t)
            },
            Err(e) => Err(e),
        }
    }

    /// An operation on `tree` that reads from and extends its current tips
    /// and signs with the tree's default key.
    pub fn new_operation(&self, tree: &Tree) -> (r: AtomicOp)
        requires
            self.wf(),
        ensures
            r.spec_root() == tree.spec_root(),
            r.spec_key() == tree.spec_key(),
            r.spec_staged() == Map::<Seq<char>, Model>::empty(),
            r.spec_tips().to_set() == crate::backend::tips_of(self.store().entries, tree.spec_root(), None),
    {
        let tips = self.backend.get_tips(tree.root.as_str());
        let key = match &tree.default_key {
            Some(k) => Some(k.clone()),
            None => None,
        };
        AtomicOp::new(tree.root.clone(), tips, key)
    }

    /// An operation on `tree` that reads from and extends `tips`; this is
    /// how concurrent branches are merged.
    pub fn new_operation_with_tips(&self, tree: &Tree, tips: Vec<String>) -> (r: AtomicOp)
        ensures
            r.spec_root() == tree.spec_root(),
            r.spec_key() == tree.spec_key(),
            r.spec_staged() == Map::<Seq<char>, Model>::empty(),
            r.spec_tips() == views(tips@),
    {
        let key = match &tree.default_key {
            Some(k) => Some(k.clone()),
            None => None,
        };
        AtomicOp::new(tree.root.clone(), tips, key)
    }

    /// An operation on `tree` at its current tips that signs with `key`.
    pub fn new_authenticated_operation(&self, tree: &Tree, key: &str) -> (r: AtomicOp)
        requires
            self.wf(),
        ensures
            r.spec_root() == tree.spec_root(),
            r.spec_key() == Some(key@),
            r.spec_staged() == Map::<Seq<char>, Model>::empty(),
            r.spec_tips().to_set() == crate::backend::tips_of(self.store().entries, tree.spec_root(), None),
    {
        let mut op = self.new_operation(tree);
        op.set_auth_key(key);
        op
    }

    /// Whether some entry of `entries` names `id` as a parent in subtree
    /// `name`.
    fn named_as_parent(entries: &Vec<Entry>, name: &str, id: &String) -> (r: bool) {
        let mut child = false;
        let mut j: usize = 0;
        while j < entries.len()
            invariant
                j <= entries@.len(),
            decreases entries@.len() - j,
        {
            match entries[j].subtree_parents(name) {
                Some(ps) => {
                    let mut k: usize = 0;
                    while k < ps.len()
                        invariant
                            k <= ps@.len(),
                        decreases ps@.len() - k,
                    {
                        if ps[k] == *id {
                            child = true;
                        }
                        k = k + 1;
                    }
                },
                None => {},
            }
            j = j + 1;
        }
        child
    }

    /// The ids among `entries` that no other of them names as a parent in
    /// subtree `name`.
    fn local_tips(entries: &Vec<Entry>, name: &str) -> (r: Vec<String>)
        ensures
            forall|x: int| 0 <= x < r@.len() ==> id_of_some(entries@, (#[trigger] r@[x])@),
    {
        let mut r: Vec<String> = Vec::new();
        let mut i: usize = 0;
        while i < entries.len()
            invariant
                i <= entries@.len(),
                forall|x: int| 0 <= x < r@.len() ==> id_of_some(entries@, (#[trigger] r@[x])@),
            decreases entries@.len() - i,
        {
            let id = entries[i].id();
            if !Self::named_as_parent(entries, name, &id) {
                let ghost before = r@;
                r.push(id);
                proof {
                    assert forall|x: int| 0 <= x < r@.len() implies id_of_some(entries@, (#[trigger] r@[x])@) by {
                        if x < before.len() {
                            assert(r@[x] == before[x]);
                        } else {
                            assert(r@[x]@ == entry_id(entries@[i as int]@));
                        }
                    }
                }
            }
            i = i + 1;
        }
        r
    }

    /// Commits `op`: builds one entry with the operation's tips as parents
    /// and each staged subtree's state as payload, signs it, validates it
    /// against the settings as of those tips, and stores it. On any failure
    /// the storage is left as it was.
    pub fn commit(&mut self, op: AtomicOp) -> (r: Result<String, Error>)
        requires
            old(self).wf(),
        ensures
            final(self).wf(),
            r is Err ==> final(self).store() == old(self).store(),
            op.spec_key() is None ==> r is Err,
            r matches Ok(id) ==> known(final(self).store().entries, id@),
            r matches Ok(id) ==> final(self).store().entries == old(self).store().entries || exists|e: EntryModel|
                final(self).store().entries == old(self).store().entries.push(e) && entry_id(e) == id@ && e.root
                    == op.spec_root() && crate::backend::parents_known(old(self).store().entries, e) && #[trigger] commit_content(
                    e,
                    op.spec_tips(),
                    op.spec_staged(),
                ),
            (op.spec_key() is Some && old(self).has_key(op.spec_key()->Some_0) && crate::basedb::reached_payloads_read(
                old(self).store().entries,
                op.spec_root(),
                "_settings"@,
                op.spec_tips().to_set(),
            ) && (forall|x: int| 0 <= x < op.spec_tips().len() ==> known(old(self).store().entries, #[trigger] op.spec_tips()[x]))
                && (forall|acc: Map<Seq<char>, Model>| #[trigger] folded_state(old(self).store().entries, op.spec_root(), "_settings"@, op.spec_tips().to_set(), acc) ==> exists|key: AuthKey|
                #[trigger] crate::auth::published(acc, op.spec_key()->Some_0, key) && key.status == KeyStatus::Active
                    && key.pubkey@ == crate::auth::hex_of(ed25519_public_of(old(self).spec_secret(op.spec_key()->Some_0)))
                    && crate::auth::permits(key.permissions, op.spec_staged().contains_key("_settings"@)))) ==> r is Ok,
            (op.spec_key() is Some && old(self).has_key(op.spec_key()->Some_0) && crate::basedb::reached_payloads_read(
                old(self).store().entries,
                op.spec_root(),
                "_settings"@,
                op.spec_tips().to_set(),
            ) && (forall|acc: Map<Seq<char>, Model>| #[trigger] folded_state(old(self).store().entries, op.spec_root(), "_settings"@, op.spec_tips().to_set(), acc) ==> exists|key: AuthKey|
                #[trigger] crate::auth::published(acc, op.spec_key()->Some_0, key) && key.status == KeyStatus::Revoked)) ==> (
            r matches Err(Error::Authentication(e)) && e.kind() == crate::auth::Denial::PermissionDenied),
            (op.spec_key() is Some && old(self).has_key(op.spec_key()->Some_0) && crate::basedb::reached_payloads_read(
                old(self).store().entries,
                op.spec_root(),
                "_settings"@,
                op.spec_tips().to_set(),
            ) && (forall|acc: Map<Seq<char>, Model>| #[trigger] folded_state(old(self).store().entries, op.spec_root(), "_settings"@, op.spec_tips().to_set(), acc) ==> crate::auth::node_at(acc, "auth"@) is Some
                && crate::auth::node_at(crate::auth::node_at(acc, "auth"@)->Some_0, op.spec_key()->Some_0) is None)) ==> (r matches Err(Error::Authentication(e))
                && e.kind() == crate::auth::Denial::KeyNotFound),
            (op.spec_key() is Some && old(self).has_key(op.spec_key()->Some_0) && crate::basedb::reached_payloads_read(
                old(self).store().entries,
                op.spec_root(),
                "_settings"@,
                op.spec_tips().to_set(),
            ) && (forall|acc: Map<Seq<char>, Model>| #[trigger] folded_state(old(self).store().entries, op.spec_root(), "_settings"@, op.spec_tips().to_set(), acc) ==> crate::auth::node_at(acc, "auth"@) is None)) ==> (
            r matches Err(Error::Authentication(e)) && e.kind() == crate::auth::Denial::InvalidSettings),
            r is Ok ==> exists|e: EntryModel, sig: Seq<char>, acc: Map<Seq<char>, Model>|
                #[trigger] crate::auth::entry_valid(e, op.spec_key()->Some_0, sig, acc) && op.spec_key() is Some
                && e.root == op.spec_root() && folded_state(
                    old(self).store().entries,
                    op.spec_root(),
                    "_settings"@,
                    op.spec_tips().to_set(),
                    acc,
                ),
    {
        let key = match op.auth_key() {
            Some(k) => k,
            None => {
                return Err(Error::Authentication(crate::auth::AuthError::KeyNotFound { key: String::new() }));
            },
        };
        let ghost s0 = self.store().entries;
        let ghost stg = op.spec_staged();
        let mut builder = Entry::builder(op.root_id().as_str());
        let mut parents: Vec<String> = Vec::new();
        let mut t: usize = 0;
        let op_tips = op.tips();
        while t < op_tips.len()
            invariant
                t <= op_tips@.len(),
                parents@.len() == t,
                views(parents@) == views(op_tips@).subrange(0, t as int),
            decreases op_tips@.len() - t,
        {
            let ghost before = parents@;
            let c = op_tips[t].clone();
            parents.push(c);
            proof {
                assert(c@ == op_tips@[t as int]@);
                assert forall|x: int| 0 <= x < t implies views(parents@)[x] == views(before)[x] by {
                    assert(parents@[x] == before[x]);
                }
                assert(views(parents@) =~= views(op_tips@).subrange(0, t + 1));
            }
            t = t + 1;
        }
        assert(views(op_tips@).subrange(0, t as int) =~= views(op_tips@));
        builder.set_parents_mut(parents);
        let names = op.staged().keys();
        let mut i: usize = 0;
        while i < names.len()
            invariant
                self.wf(),
                self.store().entries == s0,
                stg == op.spec_staged(),
                builder.wf(),
                builder@.root == op.spec_root(),
                builder@.parents == op.spec_tips().to_set(),
                i <= names@.len(),
                forall|nm: Seq<char>| #[trigger] builder@.subtrees.contains_key(nm) ==> stg.contains_key(nm) && (exists|n: Nested|
                    builder@.subtrees[nm].0 == enc_value(Value::Node(n)) && stg[nm] == Model::Node(n@)) && (forall|x: Seq<char>|
                    builder@.subtrees[nm].1.contains(x) ==> known(s0, x)),
            decreases names@.len() - i,
        {
            let name = names[i].as_str();
            match op.staged().get_raw(name) {
                Some(v) => match v.as_node() {
                    Some(state) => {
                        let text = state.to_text();
                        let reached = self.backend.get_subtree_from_tips(op.root_id().as_str(), name, op.tips());
                        let sub_parents = Self::local_tips(&reached, name);
                        let ghost b0 = builder@;
                        builder.set_subtree_data_mut(name, text.as_str());
                        builder.set_subtree_parents_mut(name, sub_parents);
                        proof {
                            assert forall|x: Seq<char>| views(sub_parents@).to_set().contains(x) implies known(s0, x) by {
                                let w = choose|w: int| 0 <= w < views(sub_parents@).len() && views(sub_parents@)[w] == x;
                                assert(id_of_some(reached@, sub_parents@[w]@));
                                let j = choose|j: int| 0 <= j < reached@.len() && sub_parents@[w]@ == entry_id(reached@[j]@);
                                assert(is_reached_entry(s0, op.spec_root(), Some(name@), op.spec_tips().to_set(), reached@[j]@));
                                let c = choose|c: int| 0 <= c < s0.len() && s0[c] == reached@[j]@ && reach(s0, op.spec_root(), None,
                                    op.spec_tips().to_set(), c) && member(s0[c], op.spec_root(), Some(name@));
                                assert(sid(s0, c) == x);
                            }
                            assert forall|nm: Seq<char>| #[trigger] builder@.subtrees.contains_key(nm) implies stg.contains_key(nm) && (
                            exists|n: Nested| builder@.subtrees[nm].0 == enc_value(Value::Node(n)) && stg[nm] == Model::Node(n@))
                                && (forall|x: Seq<char>| builder@.subtrees[nm].1.contains(x) ==> known(s0, x)) by {
                                if nm == name@ {
                                    assert(builder@.subtrees[nm].0 == enc_value(Value::Node(*state)));
                                } else {
                                    assert(b0.subtrees.contains_key(nm));
                                }
                            }
                        }
                    },
                    None => {},
                },
                None => {},
            }
            i = i + 1;
        }
        let ghost bm = builder@;
        let mut entry = builder.build();
        let ghost e0 = entry@;
        proof {
            let ne = crate::entry::nonempty_nodes(bm.subtrees);
            assert(commit_content(e0, op.spec_tips(), stg)) by {
                assert forall|c: int| 0 <= c < e0.subtrees.len() implies stg.contains_key(#[trigger] e0.subtrees[c].name) && exists|
                    n: Nested,
                | e0.subtrees[c].data == enc_value(Value::Node(n)) && stg[e0.subtrees[c].name] == Model::Node(n@) by {
                    assert(ne.contains_key(e0.subtrees[c].name));
                    assert(bm.subtrees.contains_key(e0.subtrees[c].name));
                }
            }
            if forall|x: int| 0 <= x < op.spec_tips().len() ==> known(s0, #[trigger] op.spec_tips()[x]) {
                assert forall|sub: Option<Seq<char>>, k: int| 0 <= k < crate::backend::links(e0, sub).len() implies known(
                    s0,
                    #[trigger] crate::backend::links(e0, sub)[k],
                ) by {
                    let l = crate::backend::links(e0, sub);
                    match sub {
                        None => {
                            assert(e0.parents.to_set().contains(l[k]));
                            assert(op.spec_tips().to_set().contains(l[k]));
                            let x = choose|x: int| 0 <= x < op.spec_tips().len() && op.spec_tips()[x] == l[k];
                        },
                        Some(nm) => {
                            let c = choose|c: int| 0 <= c < e0.subtrees.len() && (#[trigger] e0.subtrees[c]).name == nm;
                            assert(e0.subtrees[c].parents.to_set().contains(l[k]));
                            assert(ne.contains_key(nm));
                            assert(bm.subtrees[nm].1.contains(l[k]));
                        },
                    }
                }
                assert(crate::backend::parents_known(s0, e0));
            }
            if e0.subtrees.len() > 0 && crate::auth::touches_settings(e0) {
                let c = choose|c: int| 0 <= c < e0.subtrees.len() && (#[trigger] e0.subtrees[c]).name == "_settings"@;
                assert(stg.contains_key("_settings"@));
            }
        }
        match self.sign_entry(&mut entry, key.as_str()) {
            Ok(()) => {},
            Err(e) => {
                return Err(e);
            },
        }
        let settings = match self.subtree_state(op.root_id().as_str(), "_settings", op.tips()) {
            Ok(s) => s,
            Err(e) => {
                return Err(e);
            },
        };
        proof {
            let k = op.spec_key()->Some_0;
            let acc = settings@;
            assert(folded_state(s0, op.spec_root(), "_settings"@, op.spec_tips().to_set(), acc));
            let sk = self.spec_secret(k);
            let g = ed25519_signature_of(sk, canonical_bytes(e0));
            if exists|key: AuthKey| #[trigger] crate::auth::published(acc, k, key) && key.status == KeyStatus::Active
                && key.pubkey@ == crate::auth::hex_of(ed25519_public_of(sk)) && crate::auth::permits(
                key.permissions,
                stg.contains_key("_settings"@),
            ) {
                let key = choose|key: AuthKey| #[trigger] crate::auth::published(acc, k, key) && key.status == KeyStatus::Active
                    && key.pubkey@ == crate::auth::hex_of(ed25519_public_of(sk)) && crate::auth::permits(
                    key.permissions,
                    stg.contains_key("_settings"@),
                );
                assert(crate::auth::hex_of(ed25519_public_of(sk)) == key.pubkey@);
                assert(crate::auth::hex_of(g) == entry.spec_sig().1->Some_0);
                assert(crate::auth::permits(key.permissions, crate::auth::touches_settings(e0)));
                assert(crate::auth::entry_valid(e0, k, entry.spec_sig().1->Some_0, acc));
            }
            if exists|key: AuthKey| #[trigger] crate::auth::published(acc, k, key) && key.status == KeyStatus::Revoked {
                let key = choose|key: AuthKey| #[trigger] crate::auth::published(acc, k, key) && key.status == KeyStatus::Revoked;
                if crate::auth::entry_valid(e0, k, entry.spec_sig().1->Some_0, acc) {
                    let (k2, p2, g2) = choose|k2: AuthKey, p2: Seq<u8>, g2: Seq<u8>|
                        #![trigger crate::auth::published(acc, k, k2), crate::auth::hex_of(p2), crate::auth::hex_of(g2)]
                        {
                            &&& crate::auth::published(acc, k, k2)
                            &&& k2.status == KeyStatus::Active
                            &&& crate::auth::hex_of(p2) == k2.pubkey@
                            &&& crate::auth::hex_of(g2) == entry.spec_sig().1->Some_0
                            &&& ed25519_valid(p2, canonical_bytes(e0), g2)
                            &&& crate::auth::permits(k2.permissions, crate::auth::touches_settings(e0))
                        };
                    reveal_strlit("active");
                    reveal_strlit("revoked");
                    assert("active"@.len() != "revoked"@.len());
                }
            }
        }
        match crate::auth::validate_entry(&entry, &settings) {
            Ok(()) => {},
            Err(e) => {
                return Err(Error::Authentication(e));
            },
        }
        let id = entry.id();
        let ghost m = entry@;
        proof {
            let sig = entry.spec_sig().1->Some_0;
            assert(crate::auth::entry_valid(m, op.spec_key()->Some_0, sig, settings@));
        }
        match self.backend.put_verified(entry) {
            Ok(()) => {},
            Err(e) => {
                return Err(e);
            },
        }
        proof {
            if !known(old(self).store().entries, entry_id(m)) {
                let s = self.backend@.entries;
                assert(sid(s, s.len() - 1) == entry_id(m));
                assert(self.store().entries == old(self).store().entries.push(m) && entry_id(m) == id@ && m.root
                    == op.spec_root() && crate::backend::parents_known(old(self).store().entries, m) && commit_content(
                    m,
                    op.spec_tips(),
                    op.spec_staged(),
                ));
            }
        }
        Ok(id)
    }
}

} // verus!
