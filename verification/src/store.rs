//! The content-addressable object store.
//!
//! A store maps twenty-byte digests to compressed object representations.
//! Writes are idempotent: content already present under its digest is left
//! untouched. Reads decompress and decode, bounded by the declared size.

use vstd::prelude::*;

use sha1::Digest;

use crate::codec::{decode_object, encode_rep, object_rep, parse_object, Object};
use crate::compress::{compress_bytes, decompress_bytes, zlib_compress};
use crate::errors::StoreError;
use crate::kind::Kind;

verus! {

/// What SHA-1 yields for a byte sequence.
pub uninterp spec fn sha1_of(data: Seq<u8>) -> Seq<u8>;

/// Relies on sha1::Sha1: the digest is a function of the input bytes alone
/// and is always twenty bytes long.
#[verifier::external_body]
pub(crate) fn sha1_digest(data: &Vec<u8>) -> (r: [u8; 20])
    ensures
        r@ == sha1_of(data@),
        r@.len() == 20,
{
    let mut h = sha1::Sha1::new();
    h.update(data.as_slice());
    h.finalize().into()
}

/// The digest addressing an object: the hash of its uncompressed tagged
/// representation, never of the compressed bytes.
pub open spec fn digest_of(k: Kind, payload: Seq<u8>) -> Seq<u8> {
    sha1_of(object_rep(k, payload))
}

/// A value stored under a key is the compressed representation of some
/// object whose digest is that key.
pub open spec fn valid_stored(key: Seq<u8>, value: Seq<u8>) -> bool {
    exists|k: Kind, p: Seq<u8>|
        p.len() <= u64::MAX && value == zlib_compress(object_rep(k, p)) && key == digest_of(k, p)
}

/// The key-value store of compressed objects, addressed by digest.
pub struct Store {
    objects: Vec<([u8; 20], Vec<u8>)>,
}

/// The map an association list stands for.
spec fn assoc_map(s: Seq<([u8; 20], Vec<u8>)>) -> Map<Seq<u8>, Seq<u8>>
    decreases s.len(),
{
    if s.len() == 0 {
        Map::empty()
    } else {
        assoc_map(s.drop_last()).insert(s.last().0@, s.last().1@)
    }
}

/// Every listed key is in the map; with distinct keys, it maps to its
/// listed value.
proof fn lemma_assoc_map_index(s: Seq<([u8; 20], Vec<u8>)>, i: int)
    requires
        0 <= i < s.len(),
        forall|a: int, b: int| 0 <= a < b < s.len() ==> s[a].0@ != s[b].0@,
    ensures
        assoc_map(s).contains_key(s[i].0@),
        assoc_map(s)[s[i].0@] == s[i].1@,
    decreases s.len(),
{
    if i < s.len() - 1 {
        assert(s.drop_last()[i] == s[i]);
        lemma_assoc_map_index(s.drop_last(), i);
        assert(s[i].0@ != s.last().0@);
    }
}

/// Every key of the map is listed somewhere.
proof fn lemma_assoc_map_dom(s: Seq<([u8; 20], Vec<u8>)>, key: Seq<u8>)
    requires
        assoc_map(s).contains_key(key),
    ensures
        exists|i: int| 0 <= i < s.len() && s[i].0@ == key,
    decreases s.len(),
{
    if s.len() > 0 {
        if key == s.last().0@ {
            assert(s[s.len() - 1].0@ == key);
        } else {
            lemma_assoc_map_dom(s.drop_last(), key);
            let i = choose|i: int| 0 <= i < s.drop_last().len() && s.drop_last()[i].0@ == key;
            assert(s[i].0@ == key);
        }
    }
}

impl View for Store {
    type V = Map<Seq<u8>, Seq<u8>>;

    closed spec fn view(&self) -> Map<Seq<u8>, Seq<u8>> {
        assoc_map(self.objects@)
    }
}

impl Store {
    /// The store's invariant: keys are distinct, and everything stored is
    /// the compressed representation of an object addressed by its digest.
    pub closed spec fn wf(&self) -> bool {
        &&& forall|a: int, b: int|
            0 <= a < b < self.objects@.len() ==> self.objects@[a].0@ != self.objects@[b].0@
        &&& forall|i: int|
            0 <= i < self.objects@.len() ==> valid_stored(
                #[trigger] self.objects@[i].0@,
                self.objects@[i].1@,
            )
    }

    /// An empty store.
    pub fn new() -> (r: Store)
        ensures
            r.wf(),
            r@ == Map::<Seq<u8>, Seq<u8>>::empty(),
    {
        Store { objects: Vec::new() }
    }

    /// Finds the slot holding a digest, if any.
    fn lookup(&self, d: &[u8; 20]) -> (r: Option<usize>)
        ensures
            r matches Some(i) ==> i < self.objects@.len() && self.objects@[i as int].0@ == d@,
            r is None ==> forall|i: int|
                0 <= i < self.objects@.len() ==> self.objects@[i].0@ != d@,
    {
        let mut i: usize = 0;
        while i < self.objects.len()
            invariant
                i <= self.objects@.len(),
                forall|j: int| 0 <= j < i ==> self.objects@[j].0@ != d@,
            decreases self.objects@.len() - i,
        {
            if digest_eq(&self.objects[i].0, d) {
                return Some(i);
            }
            i = i + 1;
        }
        None
    }

    /// Whether an object is stored under a digest.
    pub fn contains(&self, d: &[u8; 20]) -> (r: bool)
        ensures
            r == self@.contains_key(d@),
    {
        match self.lookup(d) {
            Some(i) => {
                proof {
                    lemma_assoc_contains(self.objects@, i as int);
                }
                true
            },
            None => {
                proof {
                    if self@.contains_key(d@) {
                        lemma_assoc_map_dom(self.objects@, d@);
                    }
                }
                false
            },
        }
    }

    /// Stores a payload under its kind. The digest is a function of kind
    /// and payload alone; storing content already present changes nothing.
    pub fn put(&mut self, kind: Kind, payload: &Vec<u8>) -> (d: [u8; 20])
        requires
            old(self).wf(),
            payload@.len() <= u64::MAX,
        ensures
            final(self).wf(),
            d@ == digest_of(kind, payload@),
            final(self)@.contains_key(d@),
            old(self)@.contains_key(d@) ==> final(self)@ == old(self)@,
            !old(self)@.contains_key(d@) ==> final(self)@ == old(self)@.insert(
                d@,
                zlib_compress(object_rep(kind, payload@)),
            ),
            old(self)@.submap_of(final(self)@),
    {
        let rep = encode_rep(kind, payload);
        let d = sha1_digest(&rep);
        match self.lookup(&d) {
            Some(i) => {
                proof {
                    lemma_assoc_contains(self.objects@, i as int);
                    assert(self@.submap_of(self@));
                }
                d
            },
            None => {
                proof {
                    if self@.contains_key(d@) {
                        lemma_assoc_map_dom(self.objects@, d@);
                    }
                }
                let compressed = compress_bytes(&rep);
                let ghost before = self.objects@;
                self.objects.push((d, compressed));
                proof {
                    assert(self.objects@.drop_last() =~= before);
                    assert(self.objects@.last() == (d, compressed));
                    assert(self@ == assoc_map(before).insert(d@, compressed@));
                    assert forall|a: int, b: int|
                        0 <= a < b < self.objects@.len() implies self.objects@[a].0@
                        != self.objects@[b].0@ by {
                        if b < self.objects@.len() - 1 {
                            assert(before[a] == self.objects@[a] && before[b] == self.objects@[b]);
                        } else {
                            assert(self.objects@[a] == before[a]);
                        }
                    }
                    assert forall|i: int| 0 <= i < self.objects@.len() implies valid_stored(
                        #[trigger] self.objects@[i].0@,
                        self.objects@[i].1@,
                    ) by {
                        if i < self.objects@.len() - 1 {
                            assert(before[i] == self.objects@[i]);
                            assert(valid_stored(before[i].0@, before[i].1@));
                        } else {
                            assert(valid_stored(d@, compressed@)) by {
                                assert(payload@.len() <= u64::MAX && compressed@ == zlib_compress(
                                    object_rep(kind, payload@),
                                ) && d@ == digest_of(kind, payload@));
                            }
                        }
                    }
                    assert(old(self)@.submap_of(final(self)@)) by {
                        assert forall|k: Seq<u8>| #[trigger]
                            old(self)@.dom().contains(k) implies final(self)@.dom().contains(k)
                            && old(self)@[k] == final(self)@[k] by {}
                    }
                }
                d
            },
        }
    }

    /// Retrieves the object stored under a digest. Succeeds exactly when
    /// the digest is present; whatever valid representation is stored
    /// there comes back as exactly the object that produced it.
    pub fn get(&self, d: &[u8; 20]) -> (r: Result<Object, StoreError>)
        requires
            self.wf(),
        ensures
            self@.contains_key(d@) ==> r is Ok,
            r matches Err(e) ==> e == StoreError::NotFound && !self@.contains_key(d@),
            r matches Ok(o) ==> self@.contains_key(d@) && o.wf(),
            forall|k: Kind, p: Seq<u8>|
                self@.contains_key(d@) && p.len() <= u64::MAX && self@[d@] == zlib_compress(
                    object_rep(k, p),
                ) ==> (r matches Ok(o) && o.kind == k && o.payload@ == p && o.expected_size
                    == p.len()),
    {
        match self.lookup(d) {
            None => {
                proof {
                    if self@.contains_key(d@) {
                        lemma_assoc_map_dom(self.objects@, d@);
                    }
                }
                Err(StoreError::NotFound)
            },
            Some(i) => {
                proof {
                    lemma_assoc_contains(self.objects@, i as int);
                    lemma_assoc_map_index(self.objects@, i as int);
                }
                let stored = &self.objects[i].1;
                let ghost (k0, p0) = choose|k0: Kind, p0: Seq<u8>|
                    p0.len() <= u64::MAX && stored@ == zlib_compress(object_rep(k0, p0)) && d@
                        == digest_of(k0, p0);
                match decompress_bytes(stored) {
                    None => {
                        proof {
                            assert(stored@ == zlib_compress(object_rep(k0, p0)));
                            assert(false);
                        }
                        Err(StoreError::NotFound)
                    },
                    Some(data) => {
                        proof {
                            assert(data@ == object_rep(k0, p0));
                            crate::codec::lemma_parse_object_rep(k0, p0, Seq::<u8>::empty());
                            assert(object_rep(k0, p0) + Seq::<u8>::empty() =~= object_rep(
                                k0,
                                p0,
                            ));
                        }
                        match decode_object(&data) {
                            Ok(o) => {
                                proof {
                                    assert forall|k: Kind, p: Seq<u8>|
                                        self@.contains_key(d@) && p.len() <= u64::MAX && self@[d@]
                                            == zlib_compress(object_rep(k, p)) implies o.kind == k
                                        && o.payload@ == p && o.expected_size == p.len() by {
                                        assert(data@ == object_rep(k, p));
                                        crate::codec::lemma_parse_object_rep(
                                            k,
                                            p,
                                            Seq::<u8>::empty(),
                                        );
                                        assert(object_rep(k, p) + Seq::<u8>::empty()
                                            =~= object_rep(k, p));
                                    }
                                }
                                Ok(o)
                            },
                            Err(_) => {
                                proof {
                                    assert(false);
                                }
                                Err(StoreError::NotFound)
                            },
                        }
                    },
                }
            },
        }
    }

    /// Retrieves a blob's payload. Any other kind stored under the digest
    /// is an unsupported kind for this operation.
    pub fn read_blob(&self, d: &[u8; 20]) -> (r: Result<Vec<u8>, StoreError>)
        requires
            self.wf(),
        ensures
            forall|p: Seq<u8>|
                self@.contains_key(d@) && p.len() <= u64::MAX && self@[d@] == zlib_compress(
                    object_rep(Kind::Blob, p),
                ) ==> (r matches Ok(v) && v@ == p),
            r matches Err(e) ==> e == StoreError::NotFound && !self@.contains_key(d@) || e
                == StoreError::UnsupportedKind && self@.contains_key(d@),
            forall|k: Kind, p: Seq<u8>|
                self@.contains_key(d@) && p.len() <= u64::MAX && self@[d@] == zlib_compress(
                    object_rep(k, p),
                ) && k != Kind::Blob ==> r == Err::<Vec<u8>, StoreError>(
                    StoreError::UnsupportedKind,
                ),
    {
        match self.get(d) {
            Err(e) => Err(e),
            Ok(o) => {
                match o.kind {
                    Kind::Blob => Ok(o.payload),
                    _ => Err(StoreError::UnsupportedKind),
                }
            },
        }
    }

    /// The raw compressed bytes stored under a digest, for persisting.
    pub fn compressed_bytes(&self, d: &[u8; 20]) -> (r: Option<Vec<u8>>)
        requires
            self.wf(),
        ensures
            r matches Some(v) ==> self@.contains_key(d@) && v@ == self@[d@],
            r is None ==> !self@.contains_key(d@),
    {
        match self.lookup(d) {
            None => {
                proof {
                    if self@.contains_key(d@) {
                        lemma_assoc_map_dom(self.objects@, d@);
                    }
                }
                None
            },
            Some(i) => {
                proof {
                    lemma_assoc_map_index(self.objects@, i as int);
                }
                Some(copy_bytes(&self.objects[i].1))
            },
        }
    }

    /// The digests of everything stored, for persisting: each listed
    /// digest is stored, and everything stored is listed.
    pub fn digest_list(&self) -> (r: Vec<[u8; 20]>)
        ensures
            forall|i: int| 0 <= i < r@.len() ==> self@.contains_key(#[trigger] r@[i]@),
            forall|k: Seq<u8>|
                self@.contains_key(k) ==> exists|i: int| 0 <= i < r@.len() && #[trigger] r@[i]@
                    == k,
    {
        let mut r: Vec<[u8; 20]> = Vec::new();
        let mut i: usize = 0;
        while i < self.objects.len()
            invariant
                i <= self.objects@.len(),
                r@.len() == i,
                forall|j: int| 0 <= j < i ==> r@[j]@ == #[trigger] self.objects@[j].0@,
                forall|j: int| 0 <= j < r@.len() ==> self@.contains_key(#[trigger] r@[j]@),
            decreases self.objects@.len() - i,
        {
            proof {
                lemma_assoc_contains(self.objects@, i as int);
            }
            r.push(copy_digest(&self.objects[i].0));
            i = i + 1;
        }
        proof {
            assert forall|k: Seq<u8>| self@.contains_key(k) implies exists|j: int|
                0 <= j < r@.len() && #[trigger] r@[j]@ == k by {
                lemma_assoc_map_dom(self.objects@, k);
                let j = choose|j: int| 0 <= j < self.objects@.len() && self.objects@[j].0@ == k;
                assert(r@[j]@ == k);
            }
        }
        r
    }
}

/// A listed key is in the association map, distinct or not.
proof fn lemma_assoc_contains(s: Seq<([u8; 20], Vec<u8>)>, i: int)
    requires
        0 <= i < s.len(),
    ensures
        assoc_map(s).contains_key(s[i].0@),
    decreases s.len(),
{
    if i < s.len() - 1 {
        assert(s.drop_last()[i] == s[i]);
        lemma_assoc_contains(s.drop_last(), i);
    }
}

/// Compares two digests byte for byte.
fn digest_eq(a: &[u8; 20], b: &[u8; 20]) -> (r: bool)
    ensures
        r == (a@ == b@),
{
    let mut i: usize = 0;
    while i < 20
        invariant
            i <= 20,
            forall|j: int| 0 <= j < i ==> a@[j] == b@[j],
        decreases 20 - i,
    {
        if a[i] != b[i] {
            return false;
        }
        i = i + 1;
    }
    proof {
        assert(a@ =~= b@);
    }
    true
}

/// Copies a byte vector.
pub(crate) fn copy_bytes(v: &Vec<u8>) -> (r: Vec<u8>)
    ensures
        r@ == v@,
{
    let mut r: Vec<u8> = Vec::new();
    let mut i: usize = 0;
    while i < v.len()
        invariant
            i <= v@.len(),
            r@ == v@.take(i as int),
        decreases v@.len() - i,
    {
        r.push(v[i]);
        proof {
            assert(v@.take(i as int).push(v@[i as int]) =~= v@.take(i + 1));
        }
        i = i + 1;
    }
    proof {
        assert(v@.take(v@.len() as int) =~= v@);
    }
    r
}

/// Copies a digest.
fn copy_digest(d: &[u8; 20]) -> (r: [u8; 20])
    ensures
        r@ == d@,
{
    *d
}

/// Computes the digest and the compressed stored bytes of an object, in
/// one pass over its tagged representation.
pub fn hash_and_compress(kind: Kind, payload: &Vec<u8>) -> (r: ([u8; 20], Vec<u8>))
    requires
        payload@.len() <= u64::MAX,
    ensures
        r.0@ == digest_of(kind, payload@),
        r.1@ == zlib_compress(object_rep(kind, payload@)),
{
    let rep = encode_rep(kind, payload);
    let d = sha1_digest(&rep);
    let compressed = compress_bytes(&rep);
    (d, compressed)
}

/// Decodes stored bytes: decompresses, then parses the header and bounds
/// the payload to the declared size. Any stream the compressor produced
/// for a valid representation comes back as exactly that object; a failed
/// decompression is a corrupt object.
pub fn decode_stored(data: &Vec<u8>) -> (r: Result<Object, StoreError>)
    ensures
        forall|k: Kind, p: Seq<u8>|
            p.len() <= u64::MAX && data@ == zlib_compress(object_rep(k, p)) ==> (r matches Ok(o)
                && o.kind == k && o.payload@ == p && o.expected_size == p.len()),
        r matches Ok(o) ==> o.wf() && exists|u: Seq<u8>|
            parse_object(u) == Ok::<(Kind, u64, Seq<u8>), StoreError>(
                (o.kind, o.expected_size, o.payload@),
            ),
        r matches Err(e) ==> e == StoreError::CorruptHeader || e matches StoreError::SizeMismatch {
            ..
        },
{
    match decompress_bytes(data) {
        None => Err(StoreError::CorruptHeader),
        Some(u) => {
            let r = decode_object(&u);
            proof {
                assert forall|k: Kind, p: Seq<u8>|
                    p.len() <= u64::MAX && data@ == zlib_compress(object_rep(k, p)) implies r
                    matches Ok(o) && o.kind == k && o.payload@ == p && o.expected_size == p.len()
                    by {
                    assert(u@ == object_rep(k, p));
                    crate::codec::lemma_parse_object_rep(k, p, Seq::<u8>::empty());
                    assert(object_rep(k, p) + Seq::<u8>::empty() =~= object_rep(k, p));
                }
                if r is Ok {
                    let o = r->Ok_0;
                    assert(parse_object(u@) == Ok::<(Kind, u64, Seq<u8>), StoreError>(
                        (o.kind, o.expected_size, o.payload@),
                    ));
                }
            }
            r
        },
    }
}

} // verus!
