//! Deduplication of chunk payloads by digest.

use crate::bytes::same_bytes;
use crate::digest::{blake3_digest, hash_payload};
use crate::schema::ChunkRef;
use vstd::prelude::*;

verus! {

/// Metadata used by the deduplication stage of writing.
#[derive(Debug, Clone, Copy)]
pub struct TensorMeta {
    /// The chunk reference.
    pub chunk_ref: ChunkRef,
    /// Offset of the chunk that already held the payload, if one did.
    pub canonical_offset: Option<u64>,
}

/// Cache of the payloads met so far, by digest.
pub struct DedupCache {
    lookup: Vec<([u8; 32], u64)>,
}

/// The map that a list of pairs describes; an earlier pair hides a later one.
spec fn first_pairs(s: Seq<([u8; 32], u64)>) -> Map<[u8; 32], u64>
    decreases s.len(),
{
    if s.len() == 0 {
        Map::empty()
    } else {
        let before = first_pairs(s.drop_last());
        if before.contains_key(s.last().0) {
            before
        } else {
            before.insert(s.last().0, s.last().1)
        }
    }
}

proof fn lemma_first_pairs(s: Seq<([u8; 32], u64)>, i: int)
    requires
        0 <= i < s.len(),
        forall|j: int| 0 <= j < i ==> (#[trigger] s[j]).0 != s[i].0,
    ensures
        first_pairs(s).contains_key(s[i].0),
        first_pairs(s)[s[i].0] == s[i].1,
    decreases s.len(),
{
    let t = s.drop_last();
    if i < t.len() {
        assert(forall|j: int| 0 <= j < i ==> (#[trigger] t[j]).0 == s[j].0);
        lemma_first_pairs(t, i);
    } else {
        lemma_first_pairs_absent(t, s[i].0);
    }
}

proof fn lemma_first_pairs_absent(s: Seq<([u8; 32], u64)>, k: [u8; 32])
    requires
        forall|j: int| 0 <= j < s.len() ==> (#[trigger] s[j]).0 != k,
    ensures
        !first_pairs(s).contains_key(k),
    decreases s.len(),
{
    if s.len() > 0 {
        let t = s.drop_last();
        assert(forall|j: int| 0 <= j < t.len() ==> (#[trigger] t[j]).0 == s[j].0);
        lemma_first_pairs_absent(t, k);
        assert(s[s.len() - 1].0 != k);
    }
}

impl View for DedupCache {
    type V = Map<[u8; 32], u64>;

    closed spec fn view(&self) -> Map<[u8; 32], u64> {
        first_pairs(self.lookup@)
    }
}

/// The cache after `payload` has been registered at `offset`: the first registration of a
/// digest stays.
pub open spec fn registered(
    cache: Map<[u8; 32], u64>,
    payload: Seq<u8>,
    offset: u64,
) -> Map<[u8; 32], u64> {
    if cache.contains_key(blake3_digest(payload)) {
        cache
    } else {
        cache.insert(blake3_digest(payload), offset)
    }
}

/// The offset that the cache holds for a payload, if any.
pub open spec fn canonical_of(cache: Map<[u8; 32], u64>, payload: Seq<u8>) -> Option<u64> {
    if cache.contains_key(blake3_digest(payload)) {
        Some(cache[blake3_digest(payload)])
    } else {
        None
    }
}

impl DedupCache {
    /// An empty cache.
    pub fn new() -> (c: Self)
        ensures
            c@ == Map::<[u8; 32], u64>::empty(),
    {
        DedupCache { lookup: Vec::new() }
    }

    fn find(&self, digest: &[u8; 32]) -> (r: Option<u64>)
        ensures
            r == (if self@.contains_key(*digest) {
                Some(self@[*digest])
            } else {
                None::<u64>
            }),
    {
        let mut i: usize = 0;
        while i < self.lookup.len()
            invariant
                i <= self.lookup@.len(),
                forall|j: int| 0 <= j < i ==> (#[trigger] self.lookup@[j]).0 != *digest,
            decreases self.lookup@.len() - i,
        {
            let same: bool = same_bytes(self.lookup[i].0.as_slice(), digest.as_slice());
            if same {
                assert(self.lookup@[i as int].0 =~= *digest);
                proof {
                    lemma_first_pairs(self.lookup@, i as int);
                }
                return Some(self.lookup[i].1);
            }
            i += 1;
        }
        proof {
            lemma_first_pairs_absent(self.lookup@, *digest);
        }
        None
    }

    /// The offset under which this payload was registered, if it was.
    pub fn get_canonical_offset(&self, payload: &[u8]) -> (r: Option<u64>)
        ensures
            r == canonical_of(self@, payload@),
    {
        let digest: [u8; 32] = hash_payload(payload);
        self.find(&digest)
    }

    /// Register a payload at `offset`; if it was registered before, return the earlier offset
    /// and keep it.
    pub fn register_payload(&mut self, payload: &[u8], offset: u64) -> (r: Option<u64>)
        ensures
            r == canonical_of(old(self)@, payload@),
            final(self)@ == registered(old(self)@, payload@, offset),
    {
        let digest: [u8; 32] = hash_payload(payload);
        match self.find(&digest) {
            Some(existing) => Some(existing),
            None => {
                let ghost before = self.lookup@;
                self.lookup.push((digest, offset));
                assert(self.lookup@.drop_last() =~= before);
                None
            },
        }
    }
}

impl Default for DedupCache {
    fn default() -> (c: Self)
        ensures
            c@ == Map::<[u8; 32], u64>::empty(),
    {
        DedupCache::new()
    }
}

/// After a payload has been registered, looking it up gives the offset of its first
/// registration, and registering it again changes nothing.
pub proof fn law_first_registration_stays(
    cache: Map<[u8; 32], u64>,
    payload: Seq<u8>,
    offset: u64,
    later: u64,
)
    ensures
        canonical_of(registered(cache, payload, offset), payload) == Some(
            match canonical_of(cache, payload) {
                Some(earlier) => earlier,
                None => offset,
            },
        ),
        registered(registered(cache, payload, offset), payload, later) == registered(
            cache,
            payload,
            offset,
        ),
{
}

/// Registering one payload does not change what is found for a payload with another digest.
pub proof fn law_registration_is_local(
    cache: Map<[u8; 32], u64>,
    payload: Seq<u8>,
    offset: u64,
    other: Seq<u8>,
)
    requires
        blake3_digest(payload) != blake3_digest(other),
    ensures
        canonical_of(registered(cache, payload, offset), other) == canonical_of(cache, other),
{
}

/// A payload is found exactly if one with its BLAKE3 digest was registered, at the offset of that
/// registration. Nothing is found in an empty cache.
pub proof fn law_payload_is_found_by_its_digest(
    cache: Map<[u8; 32], u64>,
    payload: Seq<u8>,
    offset: u64,
)
    ensures
        canonical_of(Map::empty(), payload) is None,
        canonical_of(cache, payload) is Some <==> cache.contains_key(blake3_digest(payload)),
        canonical_of(cache, payload) == Some(offset) ==> cache[blake3_digest(payload)] == offset,
        canonical_of(registered(Map::empty(), payload, offset), payload) == Some(offset),
{
}

} // verus!
