//! Authentication keys, their permissions, and the rules that decide whether
//! a signed entry may be committed.
use vstd::prelude::*;
use ed25519_dalek::Signer;
use ed25519_dalek::Verifier;
use crate::crdt::{Model, Nested, Value};
use crate::entry::{Entry, EntryModel, canonical_bytes, find_subtree};

verus! {

/// Why an entry failed authentication.
#[derive(Debug)]
pub enum AuthError {
    /// The key is not known.
    KeyNotFound { key: String },
    /// The signature does not verify against the key.
    SignatureInvalid,
    /// The key may not make this change, or is revoked.
    PermissionDenied { reason: String },
    /// The key has been revoked.
    KeyRevoked { key: String },
    /// The settings do not hold a well-formed `auth` map.
    InvalidSettings { reason: String },
}

/// What a key may do.
#[derive(Debug, Clone, Copy, PartialEq, Eq, Structural)]
pub enum Permission {
    Read,
    Write(u32),
    Admin(u32),
}

/// Whether a key may still be used.
#[derive(Debug, Clone, Copy, PartialEq, Eq, Structural)]
pub enum KeyStatus {
    Active,
    Revoked,
}

/// A public key as published in a tree's settings.
#[derive(Debug)]
pub struct AuthKey {
    /// The public key, in lowercase hex
    pub pubkey: String,
    pub permissions: Permission,
    pub status: KeyStatus,
}

/// The kind of failure of a validation, without its message.
#[derive(Debug, Clone, Copy, PartialEq, Eq, Structural)]
pub enum Denial {
    KeyNotFound,
    SignatureInvalid,
    PermissionDenied,
    InvalidSettings,
}

impl AuthError {
    pub open spec fn kind(&self) -> Denial {
        match self {
            AuthError::KeyNotFound { .. } => Denial::KeyNotFound,
            AuthError::SignatureInvalid => Denial::SignatureInvalid,
            AuthError::PermissionDenied { .. } => Denial::PermissionDenied,
            AuthError::KeyRevoked { .. } => Denial::PermissionDenied,
            AuthError::InvalidSettings { .. } => Denial::InvalidSettings,
        }
    }
}

/// The key may make a change of this kind: changes to `_settings` need
/// `Admin`, other changes `Write` or `Admin`.
pub open spec fn permits(p: Permission, touches_settings: bool) -> bool {
    match p {
        Permission::Admin(_) => true,
        Permission::Write(_) => !touches_settings,
        Permission::Read => false,
    }
}

/// The outcome of validating a signature by a resolved key, in the order the
/// checks run: status, signature, permission.
pub open spec fn outcome(status: KeyStatus, p: Permission, sig_ok: bool, touches_settings: bool) -> Option<Denial> {
    if status == KeyStatus::Revoked {
        Some(Denial::PermissionDenied)
    } else if !sig_ok {
        Some(Denial::SignatureInvalid)
    } else if !permits(p, touches_settings) {
        Some(Denial::PermissionDenied)
    } else {
        None
    }
}

/// Decides whether a change signed by `key` may be committed, given whether
/// the signature verified and whether the change touches `_settings`.
pub fn check_key(key: &AuthKey, sig_ok: bool, touches_settings: bool) -> (r: Result<(), AuthError>)
    ensures
        match outcome(key.status, key.permissions, sig_ok, touches_settings) {
            None => r is Ok,
            Some(d) => r matches Err(e) && e.kind() == d,
        },
{
    if key.status == KeyStatus::Revoked {
        return Err(AuthError::PermissionDenied { reason: "the key is revoked".to_owned() });
    }
    if !sig_ok {
        return Err(AuthError::SignatureInvalid);
    }
    let ok = match key.permissions {
        Permission::Admin(_) => true,
        Permission::Write(_) => !touches_settings,
        Permission::Read => false,
    };
    if !ok {
        return Err(AuthError::PermissionDenied { reason: "the key may not make this change".to_owned() });
    }
    Ok(())
}

/// The lowercase hex form of some bytes.
pub open spec fn hex_of(b: Seq<u8>) -> Seq<char>
    decreases b.len(),
{
    if b.len() == 0 {
        Seq::empty()
    } else {
        hex_of(b.drop_last()) + seq![hex_digit(b.last() / 16), hex_digit(b.last() % 16)]
    }
}

pub open spec fn hex_digit(d: u8) -> char {
    if d < 10 {
        ((48 + d) as u8) as char
    } else {
        ((87 + d) as u8) as char
    }
}

/// Writes bytes as lowercase hex.
pub fn to_hex(b: &[u8]) -> (r: String)
    ensures
        r@ == hex_of(b@),
{
    let table = "0123456789abcdef";
    proof {
        reveal_strlit("0123456789abcdef");
    }
    let mut r = String::new();
    let mut i: usize = 0;
    while i < b.len()
        invariant
            table@ == "0123456789abcdef"@,
            i <= b@.len(),
            r@ == hex_of(b@.subrange(0, i as int)),
        decreases b@.len() - i,
    {
        let hi = (b[i] / 16) as usize;
        let lo = (b[i] % 16) as usize;
        proof {
            reveal_strlit("0123456789abcdef");
        }
        r.append(table.substring_char(hi, hi + 1));
        r.append(table.substring_char(lo, lo + 1));
        proof {
            reveal_strlit("0123456789abcdef");
            let p = b@.subrange(0, i + 1);
            assert(p.drop_last() =~= b@.subrange(0, i as int));
            assert(table@.subrange(hi as int, hi + 1) =~= seq![hex_digit(b@[i as int] / 16)]);
            assert(table@.subrange(lo as int, lo + 1) =~= seq![hex_digit(b@[i as int] % 16)]);
            assert(r@ =~= hex_of(p));
        }
        i = i + 1;
    }
    assert(b@.subrange(0, i as int) =~= b@);
    r
}

fn hex_value(c: char) -> (r: Option<u8>)
    ensures
        r matches Some(d) ==> d < 16 && hex_digit(d) == c,
        forall|d: u8| d < 16 && #[trigger] hex_digit(d) == c ==> r == Some(d),
{
    if '0' <= c && c <= '9' {
        let d = (c as u32 - 48) as u8;
        proof {
            vstd::utf8::char_u32_cast(c, c as u32);
        }
        Some(d)
    } else if 'a' <= c && c <= 'f' {
        let d = (c as u32 - 87) as u8;
        proof {
            vstd::utf8::char_u32_cast(c, c as u32);
        }
        Some(d)
    } else {
        None
    }
}

proof fn lemma_hex_of(b: Seq<u8>)
    ensures
        hex_of(b).len() == 2 * b.len(),
        forall|i: int| 0 <= i < b.len() ==> hex_of(b)[2 * i] == hex_digit(#[trigger] b[i] / 16) && hex_of(b)[2 * i + 1]
            == hex_digit(b[i] % 16),
    decreases b.len(),
{
    if b.len() > 0 {
        let p = b.drop_last();
        lemma_hex_of(p);
        assert forall|i: int| 0 <= i < b.len() implies hex_of(b)[2 * i] == hex_digit(#[trigger] b[i] / 16) && hex_of(b)[2
            * i + 1] == hex_digit(b[i] % 16) by {
            if i < p.len() {
                assert(b[i] == p[i]);
            }
        }
    }
}

proof fn lemma_hex_injective(a: Seq<u8>, b: Seq<u8>)
    requires
        hex_of(a) == hex_of(b),
    ensures
        a == b,
{
    lemma_hex_of(a);
    lemma_hex_of(b);
    assert forall|i: int| 0 <= i < a.len() implies a[i] == b[i] by {
        let x = a[i];
        let y = b[i];
        assert(hex_digit(x / 16) == hex_digit(y / 16));
        assert(hex_digit(x % 16) == hex_digit(y % 16));
        assert(x / 16 == y / 16 && x % 16 == y % 16) by (bit_vector)
            requires
                x / 16 < 16 && y / 16 < 16 && x % 16 < 16 && y % 16 < 16,
                (if x / 16 < 10 { (48 + x / 16) as u8 } else { (87 + x / 16) as u8 }) == (if y / 16 < 10 { (48 + y / 16) as u8 } else { (87 + y / 16) as u8 }),
                (if x % 16 < 10 { (48 + x % 16) as u8 } else { (87 + x % 16) as u8 }) == (if y % 16 < 10 { (48 + y % 16) as u8 } else { (87 + y % 16) as u8 });
    }
    assert(a =~= b);
}

/// Reads lowercase hex; whatever it returns writes back to exactly `s`,
/// and the hex form of any bytes is read back as those bytes.
pub fn from_hex(s: &str) -> (r: Option<Vec<u8>>)
    ensures
        r matches Some(b) ==> hex_of(b@) == s@,
        forall|b: Seq<u8>| #[trigger] hex_of(b) == s@ ==> (r matches Some(v) && v@ == b),
{
    let cs = crate::crdt::chars_of(s);
    let ghost good = exists|b: Seq<u8>| #[trigger] hex_of(b) == s@;
    let ghost b0: Seq<u8> = if good {
        choose|b: Seq<u8>| #[trigger] hex_of(b) == s@
    } else {
        Seq::empty()
    };
    proof {
        lemma_hex_of(b0);
        assert forall|b: Seq<u8>| #[trigger] hex_of(b) == s@ implies b == b0 by {
            lemma_hex_injective(b, b0);
        }
    }
    if cs.len() % 2 != 0 {
        return None;
    }
    let mut out: Vec<u8> = Vec::new();
    let mut i: usize = 0;
    while i < cs.len()
        invariant
            cs@ == s@,
            cs@.len() % 2 == 0,
            i % 2 == 0,
            i <= cs@.len(),
            out@.len() * 2 == i,
            hex_of(out@) == cs@.subrange(0, i as int),
            good ==> hex_of(b0) == s@ && b0.len() * 2 == s@.len() && out@ == b0.subrange(0, (i / 2) as int),
            good ==> forall|k: int| 0 <= k < b0.len() ==> hex_of(b0)[2 * k] == hex_digit(#[trigger] b0[k] / 16)
                && hex_of(b0)[2 * k + 1] == hex_digit(b0[k] % 16),
            forall|b: Seq<u8>| #[trigger] hex_of(b) == s@ ==> good && b == b0,
        decreases cs@.len() - i,
    {
        let ghost k: int = (i / 2) as int;
        proof {
            if good {
                assert(2 * k == i);
                assert(cs@[i as int] == hex_digit(b0[k] / 16));
                assert(cs@[i + 1] == hex_digit(b0[k] % 16));
            }
        }
        let hi = match hex_value(cs[i]) {
            Some(d) => d,
            None => {
                proof {
                    if good {
                        assert(b0[k] / 16 < 16);
                    }
                }
                return None;
            },
        };
        let lo = match hex_value(cs[i + 1]) {
            Some(d) => d,
            None => {
                proof {
                    if good {
                        assert(b0[k] % 16 < 16);
                    }
                }
                return None;
            },
        };
        let byte = hi * 16 + lo;
        let ghost before = out@;
        out.push(byte);
        proof {
            assert(byte / 16 == hi && byte % 16 == lo) by (nonlinear_arith)
                requires byte == hi * 16 + lo, hi < 16, lo < 16;
            assert(out@.drop_last() =~= before);
            assert(cs@.subrange(0, i + 2) =~= cs@.subrange(0, i as int) + seq![cs@[i as int], cs@[i + 1]]);
            if good {
                let x = b0[k];
                assert(hi == x / 16 && lo == x % 16);
                assert(byte == x) by (nonlinear_arith)
                    requires byte == hi * 16 + lo, hi == x / 16, lo == x % 16;
                assert(out@ =~= b0.subrange(0, k + 1));
            }
        }
        i = i + 2;
    }
    assert(cs@.subrange(0, i as int) =~= s@);
    proof {
        if good {
            assert(out@ =~= b0);
        }
    }
    Some(out)
}

/// A name for what ed25519 verification decides for a public key, a message
/// and a signature.
pub uninterp spec fn ed25519_valid(pk: Seq<u8>, msg: Seq<u8>, sig: Seq<u8>) -> bool;

/// A name for the ed25519 signature that a secret key makes on a message.
pub uninterp spec fn ed25519_signature_of(sk: Seq<u8>, msg: Seq<u8>) -> Seq<u8>;

/// A name for the ed25519 public key of a secret key.
pub uninterp spec fn ed25519_public_of(sk: Seq<u8>) -> Seq<u8>;

/// Relies on ed25519-dalek's `VerifyingKey::try_from`, `Signature::from_slice`
/// and `Verifier::verify`: the answer depends on the three byte strings
/// alone; a key or signature of the wrong form does not verify.
#[verifier::external_body]
pub(crate) fn ed25519_verify(pk: &[u8], msg: &[u8], sig: &[u8]) -> (r: bool)
    ensures
        r == ed25519_valid(pk@, msg@, sig@),
{
    let Ok(key) = ed25519_dalek::VerifyingKey::try_from(pk) else { return false };
    let Ok(sig) = ed25519_dalek::Signature::from_slice(sig) else { return false };
    key.verify(msg, &sig).is_ok()
}

/// Relies on ed25519-dalek's `SigningKey::try_from` and `Signer::sign`: the
/// signature depends on the secret key and the message alone, and verifies
/// under the key's public half; a 32-byte secret key always signs, one of
/// another length gives none.
#[verifier::external_body]
pub(crate) fn ed25519_sign(sk: &[u8], msg: &[u8]) -> (r: Option<Vec<u8>>)
    ensures
        r matches Some(s) ==> s@ == ed25519_signature_of(sk@, msg@) && ed25519_valid(ed25519_public_of(sk@), msg@, s@),
        sk@.len() == 32 <==> r is Some,
{
    let Ok(key) = ed25519_dalek::SigningKey::try_from(sk) else { return None };
    Some(key.sign(msg).to_bytes().to_vec())
}

/// Relies on ed25519-dalek's `SigningKey::try_from` and
/// `SigningKey::verifying_key`: the public key depends on the secret key
/// alone; a 32-byte secret key always gives one, one of another length none.
#[verifier::external_body]
pub(crate) fn ed25519_public(sk: &[u8]) -> (r: Option<Vec<u8>>)
    ensures
        r matches Some(p) ==> p@ == ed25519_public_of(sk@),
        sk@.len() == 32 <==> r is Some,
{
    let Ok(key) = ed25519_dalek::SigningKey::try_from(sk) else { return None };
    Some(key.verifying_key().to_bytes().to_vec())
}

/// Relies on rand's `random` for 32 bytes of secret key material; nothing
/// is known of their value.
#[verifier::external_body]
pub(crate) fn random_secret() -> (r: Vec<u8>)
    ensures
        r@.len() == 32,
{
    rand::random::<[u8; 32]>().to_vec()
}

/// The text stored under `k`, if `k` holds text.
pub open spec fn text_at(m: Map<Seq<char>, Model>, k: Seq<char>) -> Option<Seq<char>> {
    if m.contains_key(k) && m[k] is Text {
        Some(m[k]->Text_0)
    } else {
        None
    }
}

/// The map stored under `k`, if `k` holds a map.
pub open spec fn node_at(m: Map<Seq<char>, Model>, k: Seq<char>) -> Option<Map<Seq<char>, Model>> {
    if m.contains_key(k) && m[k] is Node {
        Some(m[k]->Node_0)
    } else {
        None
    }
}

/// The stored form of a key: its public key, permission, priority and
/// status as texts.
pub open spec fn key_fields(k: Map<Seq<char>, Model>, key: AuthKey) -> bool {
    &&& text_at(k, "pubkey"@) == Some(key.pubkey@)
    &&& text_at(k, "status"@) == Some(
        match key.status {
            KeyStatus::Active => "active"@,
            KeyStatus::Revoked => "revoked"@,
        },
    )
    &&& match key.permissions {
        Permission::Read => text_at(k, "permissions"@) == Some("read"@),
        Permission::Write(p) => text_at(k, "permissions"@) == Some("write"@) && text_at(k, "priority"@) == Some(
            crate::crdt::digits(p as nat),
        ),
        Permission::Admin(p) => text_at(k, "permissions"@) == Some("admin"@) && text_at(k, "priority"@) == Some(
            crate::crdt::digits(p as nat),
        ),
    }
}

fn str_eq(a: &str, b: &str) -> (r: bool)
    ensures
        r == (a@ == b@),
{
    a.to_owned() == b.to_owned()
}

fn malformed() -> (e: AuthError)
    ensures
        e.kind() == Denial::InvalidSettings,
{
    AuthError::InvalidSettings { reason: "malformed key".to_owned() }
}

fn text_field<'a>(m: &'a Nested, k: &str) -> (r: Option<&'a String>)
    ensures
        match r {
            Some(t) => text_at(m@, k@) == Some(t@),
            None => text_at(m@, k@) is None,
        },
{
    m.get_text(k)
}

fn parse_priority(t: &String) -> (r: Option<u32>)
    ensures
        r matches Some(p) ==> crate::crdt::digits(p as nat) == t@,
        forall|p: u32| #[trigger] crate::crdt::digits(p as nat) == t@ ==> r == Some(p),
{
    let cs = crate::crdt::chars_of(t.as_str());
    proof {
        assert forall|p: u32| #[trigger] crate::crdt::digits(p as nat) == t@ implies crate::crdt::num_at(cs@, 0, p as nat)
            && p <= 4294967295 by {
            assert(cs@.subrange(0, crate::crdt::digits(p as nat).len() as int) =~= cs@);
        }
    }
    match crate::crdt::parse_num(&cs, 0, 4294967295) {
        Some((n, q)) => {
            if q == cs.len() {
                assert(cs@.subrange(0, q as int) =~= t@);
                Some(n as u32)
            } else {
                None
            }
        },
        None => None,
    }
}

/// Looks up key `name` in the `auth` map of a tree's settings.
pub fn resolve_key(settings: &Nested, name: &str) -> (r: Result<AuthKey, AuthError>)
    ensures
        node_at(settings@, "auth"@) is None ==> (r matches Err(e) && e.kind() == Denial::InvalidSettings),
        (node_at(settings@, "auth"@) matches Some(a) && node_at(a, name@) is None) ==> (r matches Err(e) && e.kind()
            == Denial::KeyNotFound),
        r matches Ok(key) ==> node_at(settings@, "auth"@) matches Some(a) && node_at(a, name@) matches Some(k)
            && key_fields(k, key),
        r matches Err(e) ==> e.kind() == Denial::InvalidSettings || e.kind() == Denial::KeyNotFound,
        forall|key: AuthKey| #[trigger] published(settings@, name@, key) ==> (r matches Ok(k2) && k2.pubkey@ == key.pubkey@
            && k2.status == key.status && k2.permissions == key.permissions),
{
    proof {
        reveal_strlit("active");
        reveal_strlit("revoked");
        reveal_strlit("read");
        reveal_strlit("write");
        reveal_strlit("admin");
        assert("active"@.len() != "revoked"@.len());
        assert("read"@[0] != "write"@[0] && "read"@[0] != "admin"@[0] && "write"@[0] != "admin"@[0]);
    }
    let auth = match settings.get_raw("auth") {
        Some(v) => match v.as_node() {
            Some(n) => n,
            None => {
                return Err(AuthError::InvalidSettings { reason: "auth is not a map".to_owned() });
            },
        },
        None => {
            return Err(AuthError::InvalidSettings { reason: "no auth map".to_owned() });
        },
    };
    let k = match auth.get_raw(name) {
        Some(v) => match v.as_node() {
            Some(n) => n,
            None => {
                return Err(AuthError::KeyNotFound { key: name.to_owned() });
            },
        },
        None => {
            return Err(AuthError::KeyNotFound { key: name.to_owned() });
        },
    };
    let pubkey = match text_field(k, "pubkey") {
        Some(t) => t.clone(),
        None => {
            return Err(malformed());
        },
    };
    let status_text = match text_field(k, "status") {
        Some(t) => t,
        None => {
            return Err(malformed());
        },
    };
    let status = if str_eq(status_text.as_str(), "active") {
        KeyStatus::Active
    } else if str_eq(status_text.as_str(), "revoked") {
        KeyStatus::Revoked
    } else {
        return Err(malformed());
    };
    let perm_text = match text_field(k, "permissions") {
        Some(t) => t,
        None => {
            return Err(malformed());
        },
    };
    let permissions = if str_eq(perm_text.as_str(), "read") {
        Permission::Read
    } else {
        let prio = match text_field(k, "priority") {
            Some(t) => match parse_priority(t) {
                Some(p) => p,
                None => {
                    return Err(malformed());
                },
            },
            None => {
                return Err(malformed());
            },
        };
        if str_eq(perm_text.as_str(), "write") {
            Permission::Write(prio)
        } else if str_eq(perm_text.as_str(), "admin") {
            Permission::Admin(prio)
        } else {
            return Err(malformed());
        }
    };
    Ok(AuthKey { pubkey, permissions, status })
}

/// The stored form of `key`, as a map value.
pub fn key_value(key: &AuthKey) -> (r: Nested)
    ensures
        key_fields(r@, *key),
{
    proof {
        reveal_strlit("pubkey");
        reveal_strlit("status");
        reveal_strlit("permissions");
        reveal_strlit("priority");
        assert("pubkey"@[0] != "status"@[0]);
        assert("pubkey"@.len() != "permissions"@.len());
        assert("pubkey"@.len() != "priority"@.len());
        assert("status"@.len() != "permissions"@.len());
        assert("status"@.len() != "priority"@.len());
        assert("permissions"@.len() != "priority"@.len());
    }
    let mut m = Nested::new();
    m.set("pubkey", key.pubkey.as_str());
    match key.status {
        KeyStatus::Active => m.set("status", "active"),
        KeyStatus::Revoked => m.set("status", "revoked"),
    }
    match key.permissions {
        Permission::Read => m.set("permissions", "read"),
        Permission::Write(p) => {
            m.set("permissions", "write");
            let mut d = String::new();
            crate::crdt::push_digits(&mut d, p as usize);
            m.set("priority", d.as_str());
        },
        Permission::Admin(p) => {
            m.set("permissions", "admin");
            let mut d = String::new();
            crate::crdt::push_digits(&mut d, p as usize);
            m.set("priority", d.as_str());
        },
    }
    proof {
        reveal_strlit("pubkey");
        reveal_strlit("status");
        reveal_strlit("permissions");
        reveal_strlit("priority");
    }
    m
}

/// Key `name` is published in the `auth` map of `settings` in the form of
/// `key`.
pub open spec fn published(settings: Map<Seq<char>, Model>, name: Seq<char>, key: AuthKey) -> bool {
    node_at(settings, "auth"@) matches Some(a) && node_at(a, name) matches Some(k) && key_fields(k, key)
}

/// The change an entry makes touches the tree's settings.
pub open spec fn touches_settings(e: EntryModel) -> bool {
    find_subtree(e, "_settings"@) is Some
}

/// An entry signed under key `name` with signature text `sig` may be
/// committed against `settings`: the key is published there and active, its
/// public key verifies the signature over the entry's canonical bytes, and
/// its permission covers the change.
pub open spec fn entry_valid(e: EntryModel, name: Seq<char>, sig: Seq<char>, settings: Map<Seq<char>, Model>) -> bool {
    exists|key: AuthKey, pk: Seq<u8>, g: Seq<u8>|
        #![trigger published(settings, name, key), hex_of(pk), hex_of(g)]
        {
            &&& published(settings, name, key)
            &&& key.status == KeyStatus::Active
            &&& hex_of(pk) == key.pubkey@
            &&& hex_of(g) == sig
            &&& ed25519_valid(pk, canonical_bytes(e), g)
            &&& permits(key.permissions, touches_settings(e))
        }
}

/// Some bytes whose hex form is `pubkey` verify a signature whose hex form is
/// `sig` over the entry's canonical bytes.
pub open spec fn signature_checks(e: EntryModel, pubkey: Seq<char>, sig: Option<Seq<char>>) -> bool {
    match sig {
        Some(t) => exists|p: Seq<u8>, g: Seq<u8>| #[trigger] hex_of(p) == pubkey && #[trigger] hex_of(g) == t && ed25519_valid(
            p,
            canonical_bytes(e),
            g,
        ),
        None => false,
    }
}

/// Validates a signed entry against the settings of its tree as of the
/// entry's parents.
pub fn validate_entry(entry: &Entry, settings: &Nested) -> (r: Result<(), AuthError>)
    ensures
        r is Ok <==> (entry.spec_sig().0 matches Some(name) && entry.spec_sig().1 matches Some(sig) && entry_valid(
            entry@,
            name,
            sig,
            settings@,
        )),
        entry.spec_sig().0 is None ==> (r matches Err(e) && e.kind() == Denial::KeyNotFound),
        node_at(settings@, "auth"@) is None ==> r is Err,
        entry.spec_sig().0 is Some && node_at(settings@, "auth"@) is None ==> (r matches Err(e) && e.kind()
            == Denial::InvalidSettings),
        (entry.spec_sig().0 is Some && node_at(settings@, "auth"@) is Some && node_at(
            node_at(settings@, "auth"@)->Some_0,
            entry.spec_sig().0->Some_0,
        ) is None) ==> (r matches Err(e) && e.kind() == Denial::KeyNotFound),
        forall|key: AuthKey|
            entry.spec_sig().0 is Some && #[trigger] published(settings@, entry.spec_sig().0->Some_0, key) ==> (r matches Err(e)
                ==> Some(e.kind()) == outcome(
                key.status,
                key.permissions,
                signature_checks(entry@, key.pubkey@, entry.spec_sig().1),
                touches_settings(entry@),
            )),
{
    let info = entry.sig();
    let name = match &info.key {
        Some(n) => n,
        None => {
            return Err(AuthError::KeyNotFound { key: String::new() });
        },
    };
    let key = match resolve_key(settings, name.as_str()) {
        Ok(k) => k,
        Err(e) => {
            proof {
                assert forall|k: AuthKey| #[trigger] published(settings@, name@, k) implies false by {}
            }
            return Err(e);
        },
    };
    let ghost pkv = key.pubkey@;
    let sig_ok = match from_hex(key.pubkey.as_str()) {
        Some(pk) => match &info.sig {
            Some(sig_text) => match from_hex(sig_text.as_str()) {
                Some(g) => {
                    let msg = entry.canonical_bytes();
                    let ok = ed25519_verify(pk.as_slice(), msg.as_slice(), g.as_slice());
                    proof {
                        assert(hex_of(pk@) == pkv);
                        assert(hex_of(g@) == sig_text@);
                        if ok {
                            assert(signature_checks(entry@, pkv, Some(sig_text@)));
                        } else {
                            assert forall|p: Seq<u8>, q: Seq<u8>| #[trigger] hex_of(p) == pkv && #[trigger] hex_of(q) == sig_text@
                                implies !ed25519_valid(p, canonical_bytes(entry@), q) by {
                                lemma_hex_injective(p, pk@);
                                lemma_hex_injective(q, g@);
                            }
                        }
                    }
                    ok
                },
                None => false,
            },
            None => false,
        },
        None => false,
    };
    proof {
        assert(sig_ok == signature_checks(entry@, pkv, entry.spec_sig().1));
    }
    let touches = entry.in_subtree("_settings");
    let r = check_key(&key, sig_ok, touches);
    proof {
        if entry.spec_sig().1 is Some {
            let sig = entry.spec_sig().1->Some_0;
            if entry_valid(entry@, name@, sig, settings@) {
                let (k, p, g) = choose|k: AuthKey, p: Seq<u8>, g: Seq<u8>|
                    #![trigger published(settings@, name@, k), hex_of(p), hex_of(g)]
                    {
                        &&& published(settings@, name@, k)
                        &&& k.status == KeyStatus::Active
                        &&& hex_of(p) == k.pubkey@
                        &&& hex_of(g) == sig
                        &&& ed25519_valid(p, canonical_bytes(entry@), g)
                        &&& permits(k.permissions, touches_settings(entry@))
                    };
                assert(signature_checks(entry@, k.pubkey@, Some(sig)));
            }
            if r is Ok {
                let (p, g) = choose|p: Seq<u8>, g: Seq<u8>| #[trigger] hex_of(p) == pkv && #[trigger] hex_of(g) == sig
                    && ed25519_valid(p, canonical_bytes(entry@), g);
                assert(published(settings@, name@, key));
                assert(entry_valid(entry@, name@, sig, settings@));
            }
        }
    }
    r
}

} // verus!
