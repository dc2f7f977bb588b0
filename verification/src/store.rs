//! Versioned, capability-gated object store for character avatars.
//!
//! The durable substrate is a `sled` tree, modelled as a map from byte-string
//! keys to byte-string values (`db_view`). Each character id owns three kinds
//! of keys: a latest-version pointer, a list of every secret ever handed out,
//! and one blob per version holding that version's secret and payload. A write
//! allocates the next version, draws a fresh secret distinct from every
//! earlier one, persists the blob, and flips the latest pointer only after the
//! blob is durable. A read must present the secret stored with the exact
//! version it resolves to; a missing or wrong secret is always `Denied`.
use vstd::prelude::*;
use vstd::bytes::*;
use vstd::set_lib::lemma_len_subset;
use vstd::seq_lib::seq_to_set_is_finite;
use vstd::slice::slice_to_vec;

verus! {

/// `sled::Db` is the handle to the durable tree; its contents are opaque to
/// the verifier and named by `db_view`.
#[verifier::external_type_specification]
#[verifier::external_body]
pub struct ExDb(sled::Db);

/// What the durable tree holds: every present key, mapped to its value.
pub uninterp spec fn db_view(db: sled::Db) -> Map<Seq<u8>, Seq<u8>>;

/// Every failure of the store, by kind. `NotFound` and `Denied` are the
/// externally visible outcomes of a read; `VersionConflict` guards stale
/// writes; `Backend` labels a fault of the durable substrate itself.
#[derive(Debug, Clone, Copy, PartialEq, Eq, Structural)]
pub enum VersionedError {
    NotFound,
    Denied,
    VersionConflict,
    Backend,
}

// ===== Trusted wrappers over the substrate =====

/// Relies on `sled::Tree::get`: returns a copy of the value stored at `key`,
/// or `None` when the tree holds no such key.
#[verifier::external_body]
fn db_get(db: &sled::Db, key: &[u8]) -> (r: Result<Option<Vec<u8>>, VersionedError>)
    ensures
        r matches Ok(Some(v)) ==> db_view(*db).contains_key(key@) && v@ == db_view(*db)[key@],
        r matches Ok(None) ==> !db_view(*db).contains_key(key@),
{
    match db.get(key) {
        Ok(Some(v)) => Ok(Some(v.as_ref().to_vec())),
        Ok(None) => Ok(None),
        Err(_) => Err(VersionedError::Backend),
    }
}

/// Relies on `sled::Tree::insert`: on success `key` now maps to `value`; and
/// whatever the outcome, no other key's presence or value changes.
#[verifier::external_body]
fn db_insert(db: &mut sled::Db, key: &[u8], value: &[u8]) -> (r: Result<(), VersionedError>)
    ensures
        r is Ok ==> db_view(*final(db)) == db_view(*old(db)).insert(key@, value@),
        db_view(*final(db)).remove(key@) == db_view(*old(db)).remove(key@),
{
    match db.insert(key, value) {
        Ok(_) => Ok(()),
        Err(_) => Err(VersionedError::Backend),
    }
}

/// Relies on `sled::Tree::flush`: forces earlier writes to disk and leaves
/// the tree's contents unchanged.
#[verifier::external_body]
fn db_flush(db: &mut sled::Db) -> (r: Result<(), VersionedError>)
    ensures
        db_view(*final(db)) == db_view(*old(db)),
{
    match db.flush() {
        Ok(_) => Ok(()),
        Err(_) => Err(VersionedError::Backend),
    }
}

/// Relies on `rand::random`: a value from the thread-local cryptographic
/// generator. Nothing can be promised of it.
#[verifier::external_body]
fn fresh_entropy() -> u32 {
    rand::random::<u32>()
}

// ===== Key layout =====

/// Key of the latest-version pointer of a character.
pub open spec fn latest_key(id: u32) -> Seq<u8> {
    seq![108u8] + spec_u32_to_le_bytes(id)
}

/// Key of the used-secrets list of a character.
pub open spec fn secrets_key(id: u32) -> Seq<u8> {
    seq![115u8] + spec_u32_to_le_bytes(id)
}

/// Key of one version's blob of a character.
pub open spec fn blob_key(id: u32, ver: u32) -> Seq<u8> {
    seq![98u8] + spec_u32_to_le_bytes(id) + spec_u32_to_le_bytes(ver)
}

/// The three key families never collide: each is injective in its arguments
/// and distinct from the others (by leading tag, and by length for blobs).
pub proof fn lemma_keys_disjoint()
    ensures
        forall|a: u32, b: u32| latest_key(a) == latest_key(b) ==> a == b,
        forall|a: u32, b: u32| secrets_key(a) == secrets_key(b) ==> a == b,
        forall|a: u32, v: u32, b: u32, w: u32|
            blob_key(a, v) == blob_key(b, w) ==> a == b && v == w,
        forall|a: u32, b: u32| latest_key(a) != secrets_key(b),
        forall|a: u32, v: u32, b: u32| blob_key(a, v) != latest_key(b),
        forall|a: u32, v: u32, b: u32| blob_key(a, v) != secrets_key(b),
{
    lemma_auto_spec_u32_to_from_le_bytes();
    assert forall|a: u32, b: u32| latest_key(a) == latest_key(b) implies a == b by {
        assert(latest_key(a).skip(1) =~= spec_u32_to_le_bytes(a));
        assert(latest_key(b).skip(1) =~= spec_u32_to_le_bytes(b));
    }
    assert forall|a: u32, b: u32| secrets_key(a) == secrets_key(b) implies a == b by {
        assert(secrets_key(a).skip(1) =~= spec_u32_to_le_bytes(a));
        assert(secrets_key(b).skip(1) =~= spec_u32_to_le_bytes(b));
    }
    assert forall|a: u32, v: u32, b: u32, w: u32|
        blob_key(a, v) == blob_key(b, w) implies a == b && v == w by {
        assert(blob_key(a, v).subrange(1, 5) =~= spec_u32_to_le_bytes(a));
        assert(blob_key(b, w).subrange(1, 5) =~= spec_u32_to_le_bytes(b));
        assert(blob_key(a, v).subrange(5, 9) =~= spec_u32_to_le_bytes(v));
        assert(blob_key(b, w).subrange(5, 9) =~= spec_u32_to_le_bytes(w));
    }
    assert forall|a: u32, b: u32| latest_key(a) != secrets_key(b) by {
        assert(latest_key(a)[0] == 108u8 && secrets_key(b)[0] == 115u8);
    }
    assert forall|a: u32, v: u32, b: u32| blob_key(a, v) != latest_key(b) by {
        assert(blob_key(a, v)[0] == 98u8 && latest_key(b)[0] == 108u8);
    }
    assert forall|a: u32, v: u32, b: u32| blob_key(a, v) != secrets_key(b) by {
        assert(blob_key(a, v)[0] == 98u8 && secrets_key(b)[0] == 115u8);
    }
}

fn make_latest_key(id: u32) -> (r: Vec<u8>)
    ensures
        r@ == latest_key(id),
{
    let mut r: Vec<u8> = Vec::new();
    r.push(108u8);
    let mut w = u32_to_le_bytes(id);
    r.append(&mut w);
    proof {
        assert(r@ =~= latest_key(id));
    }
    r
}

fn make_secrets_key(id: u32) -> (r: Vec<u8>)
    ensures
        r@ == secrets_key(id),
{
    let mut r: Vec<u8> = Vec::new();
    r.push(115u8);
    let mut w = u32_to_le_bytes(id);
    r.append(&mut w);
    proof {
        assert(r@ =~= secrets_key(id));
    }
    r
}

fn make_blob_key(id: u32, ver: u32) -> (r: Vec<u8>)
    ensures
        r@ == blob_key(id, ver),
{
    let mut r: Vec<u8> = Vec::new();
    r.push(98u8);
    let mut w = u32_to_le_bytes(id);
    r.append(&mut w);
    let mut w = u32_to_le_bytes(ver);
    r.append(&mut w);
    proof {
        assert(r@ =~= blob_key(id, ver));
    }
    r
}

// ===== Value layout =====

/// A blob value: the version's secret, then the payload.
pub open spec fn leaf_value(secret: u32, data: Seq<u8>) -> Seq<u8> {
    spec_u32_to_le_bytes(secret) + data
}

/// Reads a blob value back: `None` when the value cannot hold a secret.
pub open spec fn parse_leaf(b: Seq<u8>) -> Option<(u32, Seq<u8>)> {
    if b.len() < 4 {
        None
    } else {
        Some((spec_u32_from_le_bytes(b.take(4)), b.skip(4)))
    }
}

pub proof fn lemma_leaf_value_round_trip(secret: u32, data: Seq<u8>)
    ensures
        parse_leaf(leaf_value(secret, data)) == Some((secret, data)),
{
    lemma_auto_spec_u32_to_from_le_bytes();
    assert(leaf_value(secret, data).take(4) =~= spec_u32_to_le_bytes(secret));
    assert(leaf_value(secret, data).skip(4) =~= data);
}

/// A secrets-list value: each secret as four bytes, in hand-out order.
pub open spec fn u32_list_bytes(l: Seq<u32>) -> Seq<u8>
    decreases l.len(),
{
    if l.len() == 0 {
        Seq::empty()
    } else {
        spec_u32_to_le_bytes(l[0]) + u32_list_bytes(l.skip(1))
    }
}

/// Reads a secrets-list value back, four bytes at a time.
pub open spec fn parse_u32_list(b: Seq<u8>) -> Seq<u32>
    decreases b.len(),
{
    if b.len() < 4 {
        Seq::empty()
    } else {
        seq![spec_u32_from_le_bytes(b.take(4))] + parse_u32_list(b.skip(4))
    }
}

pub proof fn lemma_u32_list_round_trip(l: Seq<u32>)
    ensures
        parse_u32_list(u32_list_bytes(l)) == l,
        u32_list_bytes(l).len() == 4 * l.len(),
    decreases l.len(),
{
    lemma_auto_spec_u32_to_from_le_bytes();
    if l.len() == 0 {
        assert(parse_u32_list(u32_list_bytes(l)) =~= l);
    } else {
        lemma_u32_list_round_trip(l.skip(1));
        let b = u32_list_bytes(l);
        assert(b.take(4) =~= spec_u32_to_le_bytes(l[0]));
        assert(b.skip(4) =~= u32_list_bytes(l.skip(1)));
        assert(parse_u32_list(b) =~= l);
    }
}

proof fn lemma_u32_list_bytes_push(l: Seq<u32>, x: u32)
    ensures
        u32_list_bytes(l.push(x)) == u32_list_bytes(l) + spec_u32_to_le_bytes(x),
    decreases l.len(),
{
    lemma_auto_spec_u32_to_from_le_bytes();
    if l.len() == 0 {
        assert(l.push(x)[0] == x);
        assert(l.push(x).skip(1) =~= Seq::<u32>::empty());
        assert(u32_list_bytes(l.push(x).skip(1)) == Seq::<u8>::empty());
        assert(u32_list_bytes(l) == Seq::<u8>::empty());
        assert(u32_list_bytes(l.push(x)) =~= u32_list_bytes(l) + spec_u32_to_le_bytes(x));
    } else {
        assert(l.push(x)[0] == l[0]);
        assert(l.push(x).skip(1) =~= l.skip(1).push(x));
        lemma_u32_list_bytes_push(l.skip(1), x);
        assert(u32_list_bytes(l.push(x)) == spec_u32_to_le_bytes(l[0]) + u32_list_bytes(
            l.skip(1).push(x)));
        assert(u32_list_bytes(l) == spec_u32_to_le_bytes(l[0]) + u32_list_bytes(l.skip(1)));
        assert(u32_list_bytes(l.push(x)) =~= u32_list_bytes(l) + spec_u32_to_le_bytes(x));
    }
}

/// Decodes a stored secrets list.
fn decode_u32_list(b: &[u8]) -> (r: Vec<u32>)
    ensures
        r@ == parse_u32_list(b@),
{
    proof {
        lemma_auto_spec_u32_to_from_le_bytes();
    }
    let mut r: Vec<u32> = Vec::new();
    let mut i: usize = 0;
    proof {
        assert(b@.skip(0) =~= b@);
    }
    while b.len() - i >= 4
        invariant
            i <= b@.len(),
            parse_u32_list(b@) == r@ + parse_u32_list(b@.skip(i as int)),
        decreases b@.len() - i,
    {
        let x = u32_from_le_bytes(&b[i..i + 4]);
        proof {
            assert(b@.skip(i as int).take(4) =~= b@.subrange(i as int, i + 4));
            assert(b@.skip(i as int).skip(4) =~= b@.skip(i + 4));
            assert(r@.push(x) + parse_u32_list(b@.skip(i + 4)) =~= r@ + parse_u32_list(
                b@.skip(i as int)));
        }
        r.push(x);
        i = i + 4;
    }
    proof {
        assert(parse_u32_list(b@.skip(i as int)) =~= Seq::<u32>::empty());
        assert(r@ + Seq::<u32>::empty() =~= r@);
    }
    r
}

/// Encodes a secrets list for storage.
fn encode_u32_list(l: &Vec<u32>) -> (r: Vec<u8>)
    ensures
        r@ == u32_list_bytes(l@),
{
    let mut r: Vec<u8> = Vec::new();
    let mut i: usize = 0;
    proof {
        assert(l@.take(0) =~= Seq::<u32>::empty());
    }
    while i < l.len()
        invariant
            i <= l@.len(),
            r@ == u32_list_bytes(l@.take(i as int)),
        decreases l@.len() - i,
    {
        let mut w = u32_to_le_bytes(l[i]);
        proof {
            lemma_u32_list_bytes_push(l@.take(i as int), l@[i as int]);
            assert(l@.take(i as int).push(l@[i as int]) =~= l@.take(i + 1));
        }
        r.append(&mut w);
        i = i + 1;
    }
    proof {
        assert(l@.take(l@.len() as int) =~= l@);
    }
    r
}

// ===== The store model =====

/// Latest stored version of a character, if its pointer is present and sound.
pub open spec fn latest_of(m: Map<Seq<u8>, Seq<u8>>, id: u32) -> Option<u32> {
    if m.contains_key(latest_key(id)) && m[latest_key(id)].len() == 4 {
        Some(spec_u32_from_le_bytes(m[latest_key(id)]))
    } else {
        None
    }
}

/// Secret and payload stored for one version of a character, if any.
pub open spec fn leaf_at(m: Map<Seq<u8>, Seq<u8>>, id: u32, ver: u32) -> Option<(u32, Seq<u8>)> {
    if m.contains_key(blob_key(id, ver)) {
        parse_leaf(m[blob_key(id, ver)])
    } else {
        None
    }
}

/// Every secret ever handed out for a character, in hand-out order.
pub open spec fn secrets_of(m: Map<Seq<u8>, Seq<u8>>, id: u32) -> Seq<u32> {
    if m.contains_key(secrets_key(id)) {
        parse_u32_list(m[secrets_key(id)])
    } else {
        Seq::empty()
    }
}

/// Version a read resolves to: the requested one, else the latest pointer.
pub open spec fn resolved_version(m: Map<Seq<u8>, Seq<u8>>, id: u32, expected: Option<u32>)
    -> Option<u32> {
    match expected {
        Some(v) => Some(v),
        None => latest_of(m, id),
    }
}

/// Version the next successful write to a character must carry.
pub open spec fn next_version(m: Map<Seq<u8>, Seq<u8>>, id: u32) -> int {
    match latest_of(m, id) {
        Some(v) => v as int + 1,
        None => 1,
    }
}

/// A character id that no write has ever touched.
pub open spec fn char_unwritten(m: Map<Seq<u8>, Seq<u8>>, id: u32) -> bool {
    &&& latest_of(m, id) is None
    &&& forall|v: u32| #[trigger] leaf_at(m, id, v) is None
}

/// One version's payload together with its version number and secret.
pub struct Leaf {
    pub ver: u32,
    pub secret: Option<u32>,
    pub data: Vec<u8>,
}

/// Mathematical model of a `Leaf`.
pub struct LeafModel {
    pub ver: u32,
    pub secret: Option<u32>,
    pub data: Seq<u8>,
}

impl View for Leaf {
    type V = LeafModel;

    open spec fn view(&self) -> LeafModel {
        LeafModel { ver: self.ver, secret: self.secret, data: self.data@ }
    }
}

/// What a read returns, as a function of the store's contents: the resolved
/// version's payload when the presented secret matches exactly, `NotFound`
/// when the character or version has no blob, `Denied` otherwise — a missing
/// secret is never public access.
pub open spec fn spec_get_image(
    m: Map<Seq<u8>, Seq<u8>>,
    id: u32,
    expected: Option<u32>,
    secret: Option<u32>,
) -> Result<LeafModel, VersionedError> {
    match resolved_version(m, id, expected) {
        None => Err(VersionedError::NotFound),
        Some(rv) => match leaf_at(m, id, rv) {
            None => Err(VersionedError::NotFound),
            Some((s, d)) => if secret == Some(s) {
                Ok(LeafModel { ver: rv, secret: Some(s), data: d })
            } else {
                Err(VersionedError::Denied)
            },
        },
    }
}

/// What a successful write did: the returned leaf carries the next version
/// and a secret never handed out before for this character; afterwards the
/// latest pointer names the new version, the new blob holds exactly the
/// written payload, the secret is recorded, and every other version of this
/// character is untouched.
pub open spec fn spec_set_image_ok(
    pre: Map<Seq<u8>, Seq<u8>>,
    post: Map<Seq<u8>, Seq<u8>>,
    id: u32,
    leaf: LeafModel,
    data: Seq<u8>,
) -> bool {
    &&& leaf.ver as int == next_version(pre, id)
    &&& leaf.data == data
    &&& leaf.secret is Some
    &&& !secrets_of(pre, id).contains(leaf.secret->Some_0)
    &&& latest_of(post, id) == Some(leaf.ver)
    &&& leaf_at(post, id, leaf.ver) == Some((leaf.secret->Some_0, data))
    &&& secrets_of(post, id) == secrets_of(pre, id).push(leaf.secret->Some_0)
    &&& forall|v: u32| v != leaf.ver ==> #[trigger] leaf_at(post, id, v) == leaf_at(pre, id, v)
}

/// No key of any other character changed between `pre` and `post`.
pub open spec fn other_chars_unchanged(
    pre: Map<Seq<u8>, Seq<u8>>,
    post: Map<Seq<u8>, Seq<u8>>,
    id: u32,
) -> bool {
    &&& forall|id2: u32| id2 != id ==> #[trigger] latest_of(post, id2) == latest_of(pre, id2)
    &&& forall|id2: u32| id2 != id ==> #[trigger] secrets_of(post, id2) == secrets_of(pre, id2)
    &&& forall|id2: u32, v: u32|
        id2 != id ==> #[trigger] leaf_at(post, id2, v) == leaf_at(pre, id2, v)
}

// ===== Root and trunk =====

/// Top-level handle over the durable substrate; the only way to mint trunks.
pub struct Root {
    db: sled::Db,
}

impl View for Root {
    type V = Map<Seq<u8>, Seq<u8>>;

    closed spec fn view(&self) -> Map<Seq<u8>, Seq<u8>> {
        db_view(self.db)
    }
}

impl Root {
    /// Wraps an already-opened database handle; opening one is the caller's
    /// I/O, not the store's. The store must be the handle's only user: all
    /// writes go through it.
    pub fn new(db: sled::Db) -> (r: Root)
        ensures
            r@ == db_view(db),
    {
        Root { db }
    }

    /// Opens an accessor scoped to one character, optionally pinned to an
    /// expected version.
    pub fn trunk(&self, id: u32, expected: Option<u32>) -> (t: CharTrunk)
        ensures
            t.id == id,
            t.expected == expected,
    {
        CharTrunk { id, expected }
    }
}

/// Accessor scoping reads and writes to one character id. With `expected`
/// set, a read resolves that version and a write demands it be the latest.
pub struct CharTrunk {
    pub id: u32,
    pub expected: Option<u32>,
}

impl CharTrunk {
    /// Reads one version of the character (the latest when none is pinned).
    /// The outcome is exactly what `spec_get_image` says of the contents,
    /// unless the substrate itself fails.
    pub fn get_image(&self, root: &Root, secret: Option<u32>) -> (r: Result<Leaf, VersionedError>)
        ensures
            r matches Ok(leaf) ==> spec_get_image(root@, self.id, self.expected, secret)
                == Ok::<LeafModel, VersionedError>(leaf@),
            r matches Err(e) ==> e == VersionedError::Backend || spec_get_image(
                root@, self.id, self.expected, secret) == Err::<LeafModel, VersionedError>(e),
    {
        let rv: u32 = match self.expected {
            Some(v) => v,
            None => {
                let key = make_latest_key(self.id);
                match db_get(&root.db, key.as_slice()) {
                    Ok(Some(v)) => {
                        if v.len() == 4 {
                            u32_from_le_bytes(v.as_slice())
                        } else {
                            return Err(VersionedError::NotFound);
                        }
                    },
                    Ok(None) => {
                        return Err(VersionedError::NotFound);
                    },
                    Err(_) => {
                        return Err(VersionedError::Backend);
                    },
                }
            },
        };
        let key = make_blob_key(self.id, rv);
        let stored = match db_get(&root.db, key.as_slice()) {
            Ok(Some(v)) => v,
            Ok(None) => {
                return Err(VersionedError::NotFound);
            },
            Err(_) => {
                return Err(VersionedError::Backend);
            },
        };
        if stored.len() < 4 {
            return Err(VersionedError::NotFound);
        }
        let stored_secret = u32_from_le_bytes(&stored[0..4]);
        proof {
            assert(root@[blob_key(self.id, rv)].take(4) =~= stored@.subrange(0, 4));
            assert(root@[blob_key(self.id, rv)].skip(4) =~= stored@.subrange(
                4, stored@.len() as int));
        }
        match secret {
            Some(s) if s == stored_secret => {
                let data = slice_to_vec(&stored[4..stored.len()]);
                Ok(Leaf { ver: rv, secret: Some(stored_secret), data })
            },
            _ => Err(VersionedError::Denied),
        }
    }

    /// Writes the next version of the character: allocates a version strictly
    /// above every earlier one, draws a secret distinct from every secret this
    /// character ever had, persists the blob, and flips the latest pointer
    /// only after the blob is durable. Whatever the outcome, no other
    /// character's state changes.
    pub fn set_image(&self, root: &mut Root, data: Vec<u8>) -> (r: Result<Leaf, VersionedError>)
        ensures
            r matches Ok(leaf) ==> spec_set_image_ok(old(root)@, final(root)@, self.id, leaf@,
                data@),
            r matches Ok(leaf) ==> (self.expected matches Some(e) ==> latest_of(old(root)@,
                self.id) == Some(e)),
            other_chars_unchanged(old(root)@, final(root)@, self.id),
            r == Err::<Leaf, VersionedError>(VersionedError::VersionConflict) ==> final(root)@
                == old(root)@ && (self.expected matches Some(e) && latest_of(old(root)@, self.id)
                != Some(e)),
            r matches Err(e) ==> e == VersionedError::VersionConflict || e
                == VersionedError::Backend,
    {
        proof {
            lemma_keys_disjoint();
        }
        let latest_key_bytes = make_latest_key(self.id);
        // Read the current latest pointer.
        let latest: Option<u32> = match db_get(&root.db, latest_key_bytes.as_slice()) {
            Ok(Some(v)) => {
                if v.len() == 4 {
                    Some(u32_from_le_bytes(v.as_slice()))
                } else {
                    None
                }
            },
            Ok(None) => None,
            Err(_) => {
                return Err(VersionedError::Backend);
            },
        };
        // Stale-write guard: a pinned version must still be the latest.
        match (self.expected, latest) {
            (Some(e), Some(l)) => {
                if e != l {
                    return Err(VersionedError::VersionConflict);
                }
            },
            (Some(_), None) => {
                return Err(VersionedError::VersionConflict);
            },
            _ => {},
        }
        // Allocate the next version.
        let next: u32 = match latest {
            Some(v) => {
                if v == u32::MAX {
                    return Err(VersionedError::Backend);
                }
                v + 1
            },
            None => 1,
        };
        // Read every secret this character ever had.
        let secrets_key_bytes = make_secrets_key(self.id);
        let used: Vec<u32> = match db_get(&root.db, secrets_key_bytes.as_slice()) {
            Ok(Some(v)) => decode_u32_list(v.as_slice()),
            Ok(None) => Vec::new(),
            Err(_) => {
                return Err(VersionedError::Backend);
            },
        };
        if used.len() > u32::MAX as usize {
            return Err(VersionedError::Backend);
        }
        let secret = fresh_secret(&used);
        let ghost used0 = used@;
        let ghost pre = root@;
        proof {
            assert(secrets_of(pre, self.id) == used0);
        }
        // Persist the blob first.
        let blob_key_bytes = make_blob_key(self.id, next);
        let mut blob_value: Vec<u8> = u32_to_le_bytes(secret);
        let mut payload = data;
        let ghost data_view = payload@;
        blob_value.append(&mut payload);
        if let Err(_) = db_insert(&mut root.db, blob_key_bytes.as_slice(), blob_value.as_slice())
        {
            proof {
                lemma_frame_one(pre, root@, self.id, blob_key(self.id, next));
            }
            return Err(VersionedError::Backend);
        }
        let ghost m1 = root@;
        // Record the secret as used.
        let mut used = used;
        used.push(secret);
        let secrets_value = encode_u32_list(&used);
        if let Err(_) = db_insert(&mut root.db, secrets_key_bytes.as_slice(),
            secrets_value.as_slice())
        {
            proof {
                lemma_frame_one(pre, m1, self.id, blob_key(self.id, next));
                lemma_frame_one(m1, root@, self.id, secrets_key(self.id));
                lemma_frame_compose(pre, m1, root@, self.id);
            }
            return Err(VersionedError::Backend);
        }
        let ghost m2 = root@;
        // Make the blob durable before the latest pointer can name it.
        if let Err(_) = db_flush(&mut root.db) {
            proof {
                lemma_frame_one(pre, m1, self.id, blob_key(self.id, next));
                lemma_frame_one(m1, m2, self.id, secrets_key(self.id));
                lemma_frame_compose(pre, m1, m2, self.id);
            }
            return Err(VersionedError::Backend);
        }
        // Flip the latest pointer.
        let latest_value = u32_to_le_bytes(next);
        if let Err(_) = db_insert(&mut root.db, latest_key_bytes.as_slice(),
            latest_value.as_slice())
        {
            proof {
                lemma_frame_one(pre, m1, self.id, blob_key(self.id, next));
                lemma_frame_one(m1, m2, self.id, secrets_key(self.id));
                lemma_frame_compose(pre, m1, m2, self.id);
                lemma_frame_one(m2, root@, self.id, latest_key(self.id));
                lemma_frame_compose(pre, m2, root@, self.id);
            }
            return Err(VersionedError::Backend);
        }
        let ghost m3 = root@;
        proof {
            lemma_auto_spec_u32_to_from_le_bytes();
            lemma_leaf_value_round_trip(secret, data_view);
            lemma_u32_list_round_trip(used@);
            lemma_frame_one(pre, m1, self.id, blob_key(self.id, next));
            lemma_frame_one(m1, m2, self.id, secrets_key(self.id));
            lemma_frame_compose(pre, m1, m2, self.id);
            lemma_frame_one(m2, m3, self.id, latest_key(self.id));
            lemma_frame_compose(pre, m2, m3, self.id);
            // The new blob, secrets list, and pointer read back correctly.
            assert(blob_value@ =~= leaf_value(secret, data_view));
            assert(used@ == used0.push(secret));
            assert(m3[latest_key(self.id)] == spec_u32_to_le_bytes(next));
            assert(latest_of(m3, self.id) == Some(next));
            assert(m3[blob_key(self.id, next)] == leaf_value(secret, data_view));
            assert(leaf_at(m3, self.id, next) == Some((secret, data_view)));
            assert(m3[secrets_key(self.id)] == u32_list_bytes(used@));
            assert(secrets_of(m3, self.id) == used@);
            // Other versions of this character are untouched.
            assert forall|v: u32| v != next implies #[trigger] leaf_at(m3, self.id, v)
                == leaf_at(pre, self.id, v) by {
                assert(blob_key(self.id, v) != blob_key(self.id, next));
                assert(blob_key(self.id, v) != secrets_key(self.id));
                assert(blob_key(self.id, v) != latest_key(self.id));
            }
        }
        Ok(Leaf { ver: next, secret: Some(secret), data: blob_value_data(blob_value) })
    }
}

/// Recovers the payload from an assembled blob value (the bytes after the
/// four-byte secret).
fn blob_value_data(blob_value: Vec<u8>) -> (r: Vec<u8>)
    requires
        blob_value@.len() >= 4,
    ensures
        r@ == blob_value@.skip(4),
{
    slice_to_vec(&blob_value.as_slice()[4..blob_value.len()])
}

/// Draws a secret that was never handed out before: a fresh random value
/// when it is unused (the overwhelmingly common case), else the smallest
/// unused candidate.
fn fresh_secret(used: &Vec<u32>) -> (r: u32)
    requires
        used@.len() <= u32::MAX,
    ensures
        !used@.contains(r),
{
    let candidate = fresh_entropy();
    if !list_contains(used, candidate) {
        return candidate;
    }
    let mut j: usize = 0;
    while j < used.len()
        invariant
            used@.len() <= u32::MAX,
            j <= used@.len(),
            forall|k: int| 0 <= k < j ==> #[trigger] used@.contains(k as u32),
        decreases used@.len() - j,
    {
        if !list_contains(used, j as u32) {
            return j as u32;
        }
        j = j + 1;
    }
    let last = used.len() as u32;
    if !list_contains(used, last) {
        return last;
    }
    // Unreachable: every candidate among the first `len + 1` was found used,
    // which the pigeonhole argument rules out.
    proof {
        lemma_sweep_missing(used@);
        let k0 = choose|k: int| 0 <= k <= used@.len() && !(#[trigger] used@.contains(k as u32));
        if k0 < used@.len() {
            assert(used@.contains(k0 as u32));
        } else {
            assert(k0 == used@.len());
        }
    }
    0
}

/// Linear membership test.
fn list_contains(l: &Vec<u32>, x: u32) -> (r: bool)
    ensures
        r == l@.contains(x),
{
    let mut i: usize = 0;
    while i < l.len()
        invariant
            i <= l@.len(),
            forall|k: int| 0 <= k < i ==> l@[k] != x,
        decreases l@.len() - i,
    {
        if l[i] == x {
            return true;
        }
        i = i + 1;
    }
    false
}

/// Pigeonhole: a list of at most `u32::MAX` values cannot contain every one
/// of the first `len + 1` candidates, so some candidate is still unused.
proof fn lemma_sweep_missing(used: Seq<u32>)
    requires
        used.len() <= u32::MAX,
    ensures
        exists|k: int| 0 <= k <= used.len() && !(#[trigger] used.contains(k as u32)),
{
    broadcast use seq_to_set_is_finite;

    if forall|k: int| 0 <= k <= used.len() ==> #[trigger] used.contains(k as u32) {
        let n = used.len() as int + 1;
        let cands = Seq::new(n as nat, |j: int| j as u32);
        assert forall|i: int, j: int| 0 <= i < n && 0 <= j < n && i != j implies cands[i]
            != cands[j] by {
            assert(cands[i] == i as u32 && cands[j] == j as u32);
            assert((i as u32) as int == i && (j as u32) as int == j);
        }
        assert(cands.no_duplicates());
        cands.unique_seq_to_set();
        used.lemma_cardinality_of_set();
        assert forall|x: u32| cands.to_set().contains(x) implies used.to_set().contains(x) by {
            let j = choose|j: int| 0 <= j < n && cands[j] == x;
            assert(used.contains(j as u32));
        }
        assert(cands.to_set().subset_of(used.to_set()));
        lemma_len_subset(cands.to_set(), used.to_set());
    }
}

/// Keys other than `k` kept their presence and value from `pre` to `post`,
/// so every accessor of a character whose keys avoid `k` is unchanged.
proof fn lemma_frame_one(pre: Map<Seq<u8>, Seq<u8>>, post: Map<Seq<u8>, Seq<u8>>, id: u32,
    k: Seq<u8>)
    requires
        post.remove(k) == pre.remove(k),
    ensures
        forall|id2: u32| latest_key(id2) != k ==> #[trigger] latest_of(post, id2)
            == latest_of(pre, id2),
        forall|id2: u32| secrets_key(id2) != k ==> #[trigger] secrets_of(post, id2)
            == secrets_of(pre, id2),
        forall|id2: u32, v: u32| blob_key(id2, v) != k ==> #[trigger] leaf_at(post, id2, v)
            == leaf_at(pre, id2, v),
{
    broadcast use vstd::map::group_map_axioms;
    broadcast use vstd::set::group_set_axioms;

    assert forall|k2: Seq<u8>| k2 != k implies (post.contains_key(k2) == pre.contains_key(k2)
        && (pre.contains_key(k2) ==> post[k2] == pre[k2])) by {
        assert(post.remove(k).dom() == post.dom().remove(k));
        assert(pre.remove(k).dom() == pre.dom().remove(k));
        assert(post.dom().remove(k).contains(k2) == post.dom().contains(k2));
        assert(pre.dom().remove(k).contains(k2) == pre.dom().contains(k2));
        if pre.contains_key(k2) {
            assert(post.remove(k)[k2] == post[k2]);
            assert(pre.remove(k)[k2] == pre[k2]);
        }
    }
}

/// Chains two frames: what both steps left unchanged stays unchanged.
proof fn lemma_frame_compose(m0: Map<Seq<u8>, Seq<u8>>, m1: Map<Seq<u8>, Seq<u8>>,
    m2: Map<Seq<u8>, Seq<u8>>, id: u32)
    requires
        other_chars_unchanged(m0, m1, id),
        other_chars_unchanged(m1, m2, id),
    ensures
        other_chars_unchanged(m0, m2, id),
{
}

// ===== Laws =====

/// Reading back a version just written, with the secret it was written under,
/// returns exactly the written bytes; any other or missing secret is denied.
pub proof fn lemma_get_after_set(pre: Map<Seq<u8>, Seq<u8>>, post: Map<Seq<u8>, Seq<u8>>,
    id: u32, leaf: LeafModel, data: Seq<u8>, wrong: Option<u32>)
    requires
        spec_set_image_ok(pre, post, id, leaf, data),
    ensures
        spec_get_image(post, id, Some(leaf.ver), leaf.secret) == Ok::<LeafModel, VersionedError>(
            LeafModel { ver: leaf.ver, secret: leaf.secret, data }),
        spec_get_image(post, id, None, leaf.secret) == Ok::<LeafModel, VersionedError>(
            LeafModel { ver: leaf.ver, secret: leaf.secret, data }),
        wrong != leaf.secret ==> spec_get_image(post, id, Some(leaf.ver), wrong)
            == Err::<LeafModel, VersionedError>(VersionedError::Denied),
{
}

/// A read of a character that was never written is `NotFound`, whatever
/// version is asked for and whatever secret is presented.
pub proof fn lemma_get_unwritten(m: Map<Seq<u8>, Seq<u8>>, id: u32, expected: Option<u32>,
    secret: Option<u32>)
    requires
        char_unwritten(m, id),
    ensures
        spec_get_image(m, id, expected, secret) == Err::<LeafModel, VersionedError>(
            VersionedError::NotFound),
{
}

/// A write to one character decides nothing about any other: every read of a
/// different character returns afterwards exactly what it returned before.
pub proof fn lemma_writes_independent(pre: Map<Seq<u8>, Seq<u8>>, post: Map<Seq<u8>, Seq<u8>>,
    id: u32, id2: u32, expected: Option<u32>, secret: Option<u32>)
    requires
        other_chars_unchanged(pre, post, id),
        id2 != id,
    ensures
        spec_get_image(post, id2, expected, secret) == spec_get_image(pre, id2, expected, secret),
{
}

/// Across any chain of successful writes to one character, the returned
/// versions strictly increase and the returned secrets are pairwise distinct.
pub proof fn lemma_writes_monotonic(views: Seq<Map<Seq<u8>, Seq<u8>>>, leaves: Seq<LeafModel>,
    datas: Seq<Seq<u8>>, id: u32)
    requires
        views.len() == leaves.len() + 1,
        datas.len() == leaves.len(),
        forall|i: int| 0 <= i < leaves.len() ==> spec_set_image_ok(views[i], views[i + 1], id,
            leaves[i], datas[i]),
    ensures
        forall|i: int, j: int| 0 <= i < j < leaves.len() ==> leaves[i].ver < leaves[j].ver,
        forall|i: int, j: int| 0 <= i < j < leaves.len() ==> leaves[i].secret
            != leaves[j].secret,
{
    assert forall|i: int, j: int| 0 <= i < j < leaves.len() implies leaves[i].ver
        < leaves[j].ver && leaves[i].secret != leaves[j].secret by {
        lemma_chain_step(views, leaves, datas, id, i, j);
    }
}

/// After write `i`, write `j > i` carries a larger version and a secret that
/// write `i`'s secret can no longer collide with.
proof fn lemma_chain_step(views: Seq<Map<Seq<u8>, Seq<u8>>>, leaves: Seq<LeafModel>,
    datas: Seq<Seq<u8>>, id: u32, i: int, j: int)
    requires
        views.len() == leaves.len() + 1,
        datas.len() == leaves.len(),
        forall|k: int| 0 <= k < leaves.len() ==> spec_set_image_ok(views[k], views[k + 1], id,
            leaves[k], datas[k]),
        0 <= i < j < leaves.len(),
    ensures
        leaves[i].ver < leaves[j].ver,
        leaves[i].secret != leaves[j].secret,
        secrets_of(views[j + 1], id).contains(leaves[i].secret->Some_0),
    decreases j - i,
{
    let si = leaves[i].secret->Some_0;
    let sj = leaves[j].secret->Some_0;
    if j == i + 1 {
        assert(spec_set_image_ok(views[i], views[i + 1], id, leaves[i], datas[i]));
        assert(spec_set_image_ok(views[j], views[j + 1], id, leaves[j], datas[j]));
        assert(latest_of(views[i + 1], id) == Some(leaves[i].ver));
        assert(leaves[j].ver as int == leaves[i].ver as int + 1);
        // Write `i` recorded its secret at the end of the list it extended.
        let prev_i = secrets_of(views[i], id);
        assert(secrets_of(views[i + 1], id) == prev_i.push(si));
        assert(prev_i.push(si)[prev_i.len() as int] == si);
        assert(secrets_of(views[j], id).contains(si));
        assert(!secrets_of(views[j], id).contains(sj));
        lemma_push_keeps(secrets_of(views[j], id), sj, si);
    } else {
        lemma_chain_step(views, leaves, datas, id, i, j - 1);
        assert(spec_set_image_ok(views[j - 1], views[j - 1 + 1], id, leaves[j - 1],
            datas[j - 1]));
        assert(spec_set_image_ok(views[j], views[j + 1], id, leaves[j], datas[j]));
        assert(latest_of(views[j], id) == Some(leaves[j - 1].ver));
        assert(leaves[j].ver as int == leaves[j - 1].ver as int + 1);
        // The secret of write `i` is already recorded before write `j`.
        assert(secrets_of(views[j], id).contains(si));
        assert(!secrets_of(views[j], id).contains(sj));
        lemma_push_keeps(secrets_of(views[j], id), sj, si);
    }
}

/// Pushing one more element keeps every earlier element in the sequence.
proof fn lemma_push_keeps(l: Seq<u32>, x: u32, y: u32)
    requires
        l.contains(y),
    ensures
        l.push(x).contains(y),
{
    let idx = choose|idx: int| 0 <= idx < l.len() && l[idx] == y;
    assert(l.push(x)[idx] == y);
}

} // verus!
