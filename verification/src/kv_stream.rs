//! Replay of KV delta chains with a cache that spills its oldest payloads to disk.
//!
//! The reader decides; the files are read and written by its caller. A call of `reconstruct`
//! either has the payload at once, or names a spill file to read and hand in with `loaded`, or
//! has rebuilt the payload, after which the caller asks `next_spill` for payloads to write until
//! there is none and confirms each written one with `spill_written`.

use crate::bytes::copy_bytes;
use crate::error::{IoError, NcfError};
use crate::kv_delta::{is_codec_error, replay, replayed, KvChunk};
use crate::text::{append_decimal, decimal, lemma_decimal_injective};
use std::collections::{HashMap, HashSet};
use vstd::prelude::*;
use vstd::string::*;

verus! {

broadcast use vstd::std_specs::hash::group_hash_axioms;

/// Cached bytes above which payloads are spilled.
pub const RAM_THRESHOLD_BYTES: u64 = 15_032_385_536;

/// An LRU cache of reconstructed KV payloads that is backed by spill files.
pub struct KvStreamReader {
    cache: HashMap<u64, Vec<u8>>,
    lru_order: Vec<u64>,
    disk_index: HashSet<u64>,
    temp_dir: String,
    current_usage: u128,
}

/// What a reader holds.
#[verifier::ext_equal]
pub struct KvStreamState {
    /// Payloads in memory, by token index.
    pub cache: Map<u64, Seq<u8>>,
    /// Token indices in memory, least recently used first.
    pub lru: Seq<u64>,
    /// Token indices whose payloads are in spill files.
    pub spilled: Set<u64>,
    /// Directory of the spill files.
    pub temp_dir: Seq<char>,
    /// Bytes counted as being in memory.
    pub usage: int,
}

/// A sequence with all occurrences of one value removed.
pub open spec fn without(s: Seq<u64>, x: u64) -> Seq<u64>
    decreases s.len(),
{
    if s.len() == 0 {
        s
    } else if s.last() == x {
        without(s.drop_last(), x)
    } else {
        without(s.drop_last(), x).push(s.last())
    }
}

impl KvStreamState {
    /// The state after a token has been used.
    pub open spec fn touched(self, token: u64) -> KvStreamState {
        KvStreamState { lru: without(self.lru, token).push(token), ..self }
    }

    /// The state after a payload has been put in memory.
    pub open spec fn stored(self, token: u64, payload: Seq<u8>) -> KvStreamState {
        KvStreamState {
            cache: self.cache.insert(token, payload),
            usage: self.usage + payload.len(),
            ..self
        }.touched(token)
    }

    /// The state after a spill file has been claimed for reading.
    pub open spec fn claimed(self, token: u64) -> KvStreamState {
        KvStreamState { spilled: self.spilled.remove(token), ..self }
    }

    /// Whether the bytes of one more payload, however long, can be counted.
    pub open spec fn has_room(self) -> bool {
        self.usage + usize::MAX <= u128::MAX
    }

    /// Whether a payload has to leave the memory.
    pub open spec fn must_spill(self) -> bool {
        self.usage > RAM_THRESHOLD_BYTES && self.lru.len() > 0
    }

    /// The state after the least recently used payload has left the memory.
    pub open spec fn taken_out(self) -> KvStreamState {
        KvStreamState { cache: self.cache.remove(self.lru[0]), lru: self.lru.skip(1), ..self }
    }

    /// The state after a payload of `len` bytes has been written to a spill file.
    pub open spec fn written(self, token: u64, len: int) -> KvStreamState {
        KvStreamState {
            spilled: self.spilled.insert(token),
            usage: if self.usage >= len {
                self.usage - len
            } else {
                0
            },
            ..self
        }
    }

    /// The state after the least recently used payload has been spilled.
    pub open spec fn spilled_once(self) -> KvStreamState {
        self.taken_out().written(self.lru[0], self.cache[self.lru[0]].len() as int)
    }

    /// The state after that many payloads have been spilled, least recently used first.
    pub open spec fn spilled_times(self, k: nat) -> KvStreamState
        decreases k,
    {
        if k == 0 {
            self
        } else {
            self.spilled_times((k - 1) as nat).spilled_once()
        }
    }

    /// Whether the counted bytes are those of the payloads in memory.
    pub open spec fn counted(self) -> bool {
        self.usage == cached_bytes(self.cache, self.lru)
    }

    /// Whether the recency list names exactly the payloads in memory, each once, and none of
    /// them is also in a spill file.
    pub open spec fn consistent(self) -> bool {
        &&& forall|i: int, j: int|
            0 <= i < j < self.lru.len() ==> #[trigger] self.lru[i] != #[trigger] self.lru[j]
        &&& forall|k: u64| #[trigger] self.cache.contains_key(k) <==> self.lru.contains(k)
        &&& forall|k: u64| #[trigger] self.spilled.contains(k) ==> !self.cache.contains_key(k)
    }
}

/// The name of the spill file of a token.
pub open spec fn spill_name(token: u64) -> Seq<char> {
    "ncf_kv_"@ + decimal(token as nat) + ".cache"@
}

/// Outcome of the first step of a reconstruction.
#[derive(Debug)]
pub enum KvStep {
    /// The payload was in memory.
    Ready(Vec<u8>),
    /// The payload is in this spill file; its content is to be handed to `loaded` and the file
    /// to be deleted.
    ReadSpill { name: String },
    /// The payload has been rebuilt from the chain and put in memory; payloads may have to be
    /// spilled now.
    Rebuilt(Vec<u8>),
}

/// A payload that has left the memory and is to be written to a spill file.
#[derive(Debug)]
pub struct Spill {
    /// Token index of the payload.
    pub token: u64,
    /// Name of the spill file.
    pub name: String,
    /// The payload.
    pub payload: Vec<u8>,
}

/// Whether a writer of spill files can give this result for the payload that is spilled next.
pub open spec fn spills_to<E, W: Fn(&Spill) -> Result<(), E>>(
    write: W,
    s: KvStreamState,
    r: Result<(), E>,
) -> bool {
    exists|spill: Spill|
        spill.token == s.lru[0] && spill.name@ == spill_name(s.lru[0]) && spill.payload@
            == s.cache[s.lru[0]] && #[trigger] call_ensures(write, (&spill,), r)
}

/// Whether the first `k` payloads have to be spilled and the writer can write them.
pub open spec fn spills_first<E, W: Fn(&Spill) -> Result<(), E>>(
    write: W,
    s: KvStreamState,
    k: nat,
) -> bool {
    forall|j: nat|
        j < k ==> (#[trigger] s.spilled_times(j)).must_spill() && spills_to(
            write,
            s.spilled_times(j),
            Ok::<(), E>(()),
        )
}

impl View for KvStreamReader {
    type V = KvStreamState;

    closed spec fn view(&self) -> KvStreamState {
        KvStreamState {
            cache: Map::new(|k: u64| self.cache@.contains_key(k), |k: u64| self.cache@[k]@),
            lru: self.lru_order@,
            spilled: self.disk_index@,
            temp_dir: self.temp_dir@,
            usage: self.current_usage as int,
        }
    }
}

fn make_spill_name(token: u64) -> (s: String)
    ensures
        s@ == spill_name(token),
{
    let mut s: String = "ncf_kv_".to_owned();
    append_decimal(&mut s, token);
    s.append(".cache");
    s
}

proof fn lemma_without(s: Seq<u64>, x: u64)
    ensures
        !without(s, x).contains(x),
        forall|k: u64| k != x ==> (#[trigger] without(s, x).contains(k) <==> s.contains(k)),
        (forall|i: int, j: int| 0 <= i < j < s.len() ==> #[trigger] s[i] != #[trigger] s[j])
            ==> (forall|i: int, j: int|
            0 <= i < j < without(s, x).len() ==> #[trigger] without(s, x)[i]
                != #[trigger] without(s, x)[j]),
    decreases s.len(),
{
    if s.len() > 0 {
        let t = s.drop_last();
        lemma_without(t, x);
        let w = without(t, x);
        assert forall|k: u64| k != x implies (#[trigger] without(s, x).contains(k) <==> s.contains(
            k,
        )) by {
            if s.contains(k) {
                let i = choose|i: int| 0 <= i < s.len() && s[i] == k;
                if i < t.len() {
                    assert(t[i] == k);
                    assert(t.contains(k));
                    assert(w.contains(k));
                    let j = choose|j: int| 0 <= j < w.len() && w[j] == k;
                    assert(without(s, x)[j] == k);
                } else {
                    assert(without(s, x)[w.len() as int] == k);
                }
            }
            if without(s, x).contains(k) {
                let j = choose|j: int| 0 <= j < without(s, x).len() && without(s, x)[j] == k;
                if j < w.len() {
                    assert(w.contains(k));
                    let i = choose|i: int| 0 <= i < t.len() && t[i] == k;
                    assert(s[i] == k);
                } else {
                    assert(s[s.len() - 1] == k);
                }
            }
        }
        if without(s, x).contains(x) {
            let j = choose|j: int| 0 <= j < without(s, x).len() && without(s, x)[j] == x;
            if j < w.len() {
                assert(w[j] == x);
                assert(w.contains(x));
            }
        }
        if forall|i: int, j: int| 0 <= i < j < s.len() ==> #[trigger] s[i] != #[trigger] s[j] {
            assert forall|i: int, j: int| 0 <= i < j < t.len() implies #[trigger] t[i]
                != #[trigger] t[j] by {
                assert(s[i] != s[j]);
            }
            assert forall|i: int, j: int|
                0 <= i < j < without(s, x).len() implies #[trigger] without(s, x)[i]
                != #[trigger] without(s, x)[j] by {
                if j < w.len() {
                    assert(w[i] != w[j]);
                } else {
                    assert(w.contains(w[i]));
                    if w[i] == s.last() {
                        let a = choose|a: int| 0 <= a < t.len() && t[a] == w[i];
                        assert(s[a] != s[s.len() - 1]);
                    }
                }
            }
        }
    }
}

/// Using a token that is in memory keeps the state consistent.
pub proof fn law_touch_keeps_consistent(s: KvStreamState, token: u64)
    requires
        s.consistent(),
        s.cache.contains_key(token),
    ensures
        s.touched(token).consistent(),
{
    lemma_without(s.lru, token);
    let w = without(s.lru, token);
    let t = s.touched(token);
    assert forall|k: u64| #[trigger] t.cache.contains_key(k) <==> t.lru.contains(k) by {
        if k == token {
            assert(t.lru[w.len() as int] == k);
        } else {
            if t.lru.contains(k) {
                let i = choose|i: int| 0 <= i < t.lru.len() && t.lru[i] == k;
                assert(w[i] == k);
                assert(w.contains(k));
            }
            if w.contains(k) {
                let i = choose|i: int| 0 <= i < w.len() && w[i] == k;
                assert(t.lru[i] == k);
            }
        }
    }
    assert forall|i: int, j: int| 0 <= i < j < t.lru.len() implies #[trigger] t.lru[i]
        != #[trigger] t.lru[j] by {
        if j < w.len() {
            assert(w[i] != w[j]);
        } else {
            assert(w.contains(w[i]));
        }
    }
}

/// Putting a payload in memory keeps the state consistent, if it is not in a spill file.
pub proof fn law_store_keeps_consistent(s: KvStreamState, token: u64, payload: Seq<u8>)
    requires
        s.consistent(),
        !s.spilled.contains(token),
    ensures
        s.stored(token, payload).consistent(),
{
    lemma_without(s.lru, token);
    let w = without(s.lru, token);
    let t = s.stored(token, payload);
    assert forall|k: u64| #[trigger] t.cache.contains_key(k) <==> t.lru.contains(k) by {
        if k == token {
            assert(t.lru[w.len() as int] == k);
        } else {
            if t.lru.contains(k) {
                let i = choose|i: int| 0 <= i < t.lru.len() && t.lru[i] == k;
                assert(w[i] == k);
                assert(w.contains(k));
            }
            if w.contains(k) {
                let i = choose|i: int| 0 <= i < w.len() && w[i] == k;
                assert(t.lru[i] == k);
            }
            assert(t.cache.contains_key(k) == s.cache.contains_key(k));
        }
    }
    assert forall|i: int, j: int| 0 <= i < j < t.lru.len() implies #[trigger] t.lru[i]
        != #[trigger] t.lru[j] by {
        if j < w.len() {
            assert(w[i] != w[j]);
        } else {
            assert(w.contains(w[i]));
        }
    }
}

/// Taking the least recently used payload out of memory keeps the state consistent, whether or
/// not it is then written to a spill file.
pub proof fn law_spill_keeps_consistent(s: KvStreamState, len: int)
    requires
        s.consistent(),
        s.lru.len() > 0,
    ensures
        s.taken_out().consistent(),
        s.taken_out().written(s.lru[0], len).consistent(),
{
    let token = s.lru[0];
    let t = s.taken_out();
    assert forall|k: u64| #[trigger] t.cache.contains_key(k) <==> t.lru.contains(k) by {
        if s.lru.contains(k) && k != token {
            let i = choose|i: int| 0 <= i < s.lru.len() && s.lru[i] == k;
            assert(t.lru[i - 1] == k);
        }
        if t.lru.contains(k) {
            let i = choose|i: int| 0 <= i < t.lru.len() && t.lru[i] == k;
            assert(s.lru[i + 1] == k);
            assert(s.lru[0] != s.lru[i + 1]);
        }
    }
    assert forall|i: int, j: int| 0 <= i < j < t.lru.len() implies #[trigger] t.lru[i]
        != #[trigger] t.lru[j] by {
        assert(s.lru[i + 1] != s.lru[j + 1]);
    }
    assert forall|k: u64| #[trigger] t.spilled.contains(k) implies !t.cache.contains_key(k) by {
        assert(s.spilled.contains(k));
    }
}

impl KvStreamReader {
    /// Create a reader whose spill files are to stand in the given directory.
    pub fn new(temp_dir: String) -> (r: Self)
        ensures
            r@ == (KvStreamState {
                cache: Map::empty(),
                lru: Seq::empty(),
                spilled: Set::empty(),
                temp_dir: temp_dir@,
                usage: 0,
            }),
            r@.consistent(),
            r@.counted(),
    {
        let r: KvStreamReader = KvStreamReader {
            cache: HashMap::new(),
            lru_order: Vec::new(),
            disk_index: HashSet::new(),
            temp_dir,
            current_usage: 0,
        };
        assert(r@.cache =~= Map::<u64, Seq<u8>>::empty());
        r
    }

    /// Directory of the spill files.
    pub fn temp_dir(&self) -> (s: &str)
        ensures
            s@ == self@.temp_dir,
    {
        self.temp_dir.as_str()
    }

    /// Whether the bytes of one more payload, however long, can be counted.
    pub fn has_room(&self) -> (r: bool)
        ensures
            r == self@.has_room(),
    {
        self.current_usage.checked_add(usize::MAX as u128).is_some()
    }

    /// Whether the payload of a token is in memory.
    pub fn is_cached(&self, token: u64) -> (r: bool)
        ensures
            r == self@.cache.contains_key(token),
    {
        self.cache.contains_key(&token)
    }

    fn touch(&mut self, token: u64)
        ensures
            final(self)@ == old(self)@.touched(token),
    {
        let mut kept: Vec<u64> = Vec::new();
        let mut i: usize = 0;
        assert(self.lru_order@.take(0) =~= Seq::<u64>::empty());
        while i < self.lru_order.len()
            invariant
                i <= self.lru_order@.len(),
                *self == *old(self),
                kept@ == without(self.lru_order@.take(i as int), token),
            decreases self.lru_order@.len() - i,
        {
            assert(self.lru_order@.take(i + 1).drop_last() =~= self.lru_order@.take(i as int));
            if self.lru_order[i] != token {
                kept.push(self.lru_order[i]);
            }
            i += 1;
        }
        assert(self.lru_order@.take(i as int) =~= self.lru_order@);
        kept.push(token);
        self.lru_order = kept;
        assert(self@.cache =~= old(self)@.cache);
    }

    fn store(&mut self, token: u64, payload: Vec<u8>)
        requires
            old(self)@.has_room(),
        ensures
            final(self)@ == old(self)@.stored(token, payload@),
    {
        let len: u128 = payload.len() as u128;
        self.cache.insert(token, payload);
        self.current_usage = self.current_usage + len;
        assert(self@.cache =~= old(self)@.cache.insert(token, payload@));
        self.touch(token);
    }

    /// First step of reconstructing the payload of a target from snapshot and delta records.
    pub fn reconstruct(&mut self, chain: &[KvChunk], target: u64) -> (r: Result<KvStep, NcfError>)
        requires
            old(self)@.consistent(),
            old(self)@.cache.contains_key(target) || old(self)@.spilled.contains(target)
                || old(self)@.has_room(),
        ensures
            final(self)@.consistent(),
            old(self)@.cache.contains_key(target) ==> {
                &&& r matches Ok(KvStep::Ready(payload))
                &&& payload@ == old(self)@.cache[target]
                &&& final(self)@ == old(self)@.touched(target)
            },
            !old(self)@.cache.contains_key(target) && old(self)@.spilled.contains(target) ==> {
                &&& r matches Ok(KvStep::ReadSpill { name })
                &&& name@ == spill_name(target)
                &&& final(self)@ == old(self)@.claimed(target)
            },
            !old(self)@.cache.contains_key(target) && !old(self)@.spilled.contains(target)
                ==> match (replayed(chain@, target), r) {
                (Ok(Some(bytes)), Ok(KvStep::Rebuilt(payload))) => {
                    &&& payload@ == bytes
                    &&& final(self)@ == old(self)@.stored(target, bytes)
                },
                (Ok(None), Err(e)) => e == NcfError::Io(IoError::MissingSnapshot) && final(self)@
                    == old(self)@,
                (Err(failure), Err(NcfError::Io(e))) => is_codec_error(e, failure.0, failure.1)
                    && final(self)@ == old(self)@,
                _ => false,
            },
    {
        let cached: Option<Vec<u8>> = match self.cache.get(&target) {
            Some(payload) => Some(copy_bytes(payload.as_slice())),
            None => None,
        };
        if let Some(payload) = cached {
            proof {
                law_touch_keeps_consistent(self@, target);
            }
            self.touch(target);
            return Ok(KvStep::Ready(payload));
        }
        if self.disk_index.remove(&target) {
            assert(self@ =~= old(self)@.claimed(target));
            return Ok(KvStep::ReadSpill { name: make_spill_name(target) });
        }
        assert(self.disk_index@ =~= old(self).disk_index@);
        assert(self@ =~= old(self)@);
        match replay(chain, target) {
            Ok(Some(payload)) => {
                proof {
                    law_store_keeps_consistent(self@, target, payload@);
                }
                let kept: Vec<u8> = copy_bytes(payload.as_slice());
                self.store(target, kept);
                Ok(KvStep::Rebuilt(payload))
            },
            Ok(None) => Err(NcfError::Io(IoError::MissingSnapshot)),
            Err(e) => Err(NcfError::Io(e)),
        }
    }

    /// Take the content of a spill file back into memory and return it.
    pub fn loaded(&mut self, token: u64, content: Vec<u8>) -> (payload: Vec<u8>)
        requires
            old(self)@.consistent(),
            !old(self)@.spilled.contains(token),
            old(self)@.has_room(),
        ensures
            final(self)@.consistent(),
            payload@ == content@,
            final(self)@ == old(self)@.stored(token, content@),
    {
        proof {
            law_store_keeps_consistent(self@, token, content@);
        }
        let kept: Vec<u8> = copy_bytes(content.as_slice());
        self.store(token, kept);
        content
    }

    /// The least recently used payload, taken out of memory, if more than the threshold is
    /// cached.
    pub fn next_spill(&mut self) -> (r: Option<Spill>)
        requires
            old(self)@.consistent(),
        ensures
            final(self)@.consistent(),
            match r {
                Some(spill) => {
                    &&& old(self)@.must_spill()
                    &&& spill.token == old(self)@.lru[0]
                    &&& spill.name@ == spill_name(spill.token)
                    &&& old(self)@.cache.contains_key(spill.token)
                    &&& spill.payload@ == old(self)@.cache[spill.token]
                    &&& final(self)@ == old(self)@.taken_out()
                },
                None => !old(self)@.must_spill() && final(self)@ == old(self)@,
            },
    {
        if self.current_usage > RAM_THRESHOLD_BYTES as u128 && self.lru_order.len() > 0 {
            proof {
                law_spill_keeps_consistent(self@, 0);
                assert(self@.lru.contains(self@.lru[0]));
                assert(self@.cache.contains_key(self@.lru[0]));
            }
            let token: u64 = self.lru_order.remove(0);
            assert(self.lru_order@ =~= old(self)@.lru.skip(1));
            match self.cache.remove(&token) {
                Some(payload) => {
                    assert(self@.cache =~= old(self)@.cache.remove(token));
                    Some(Spill { token, name: make_spill_name(token), payload })
                },
                None => {
                    assert(false);
                    None
                },
            }
        } else {
            None
        }
    }

    /// Note that a payload has been written to its spill file.
    pub fn spill_written(&mut self, spill: &Spill)
        requires
            old(self)@.consistent(),
            !old(self)@.cache.contains_key(spill.token),
        ensures
            final(self)@.consistent(),
            final(self)@ == old(self)@.written(spill.token, spill.payload@.len() as int),
    {
        self.disk_index.insert(spill.token);
        let len: u128 = spill.payload.len() as u128;
        self.current_usage = if self.current_usage >= len {
            self.current_usage - len
        } else {
            0
        };
        assert(self@ =~= old(self)@.written(spill.token, spill.payload@.len() as int));
        assert forall|k: u64| #[trigger] self@.cache.contains_key(k) implies self@.lru.contains(
            k,
        ) by {
            assert(old(self)@.cache.contains_key(k));
        }
    }
}

impl KvStreamReader {
    /// Spill payloads, least recently used first, until no more than the threshold is cached. A
    /// payload that cannot be written is lost, and its bytes stay counted.
    pub fn evict_if_needed<E, W: Fn(&Spill) -> Result<(), E>>(&mut self, write: W) -> (r: Result<
        (),
        E,
    >)
        requires
            old(self)@.consistent(),
            forall|spill: Spill| #[trigger] call_requires(write, (&spill,)),
        ensures
            final(self)@.consistent(),
            match r {
                Ok(_) => exists|k: nat| #[trigger]
                    spills_first::<E, W>(write, old(self)@, k) && final(self)@
                        == old(self)@.spilled_times(k) && !final(self)@.must_spill(),
                Err(e) => exists|k: nat| #[trigger]
                    spills_first::<E, W>(write, old(self)@, k) && old(self)@.spilled_times(
                        k,
                    ).must_spill() && spills_to(write, old(self)@.spilled_times(k), Err(e))
                        && final(self)@ == old(self)@.spilled_times(k).taken_out(),
            },
    {
        let ghost start = self@;
        let ghost mut k: nat = 0;
        loop
            invariant
                start == old(self)@,
                self@.consistent(),
                self@ == start.spilled_times(k),
                spills_first::<E, W>(write, start, k),
                forall|spill: Spill| #[trigger] call_requires(write, (&spill,)),
            decreases self@.lru.len(),
        {
            let ghost before = self@;
            match self.next_spill() {
                None => {
                    return Ok(());
                },
                Some(spill) => {
                    match write(&spill) {
                        Ok(done) => {
                            assert(done == ());
                            assert(spills_to(write, before, Ok::<(), E>(())));
                            self.spill_written(&spill);
                            proof {
                                k = k + 1;
                                assert(start.spilled_times(k) == before.spilled_once());
                            }
                        },
                        Err(e) => {
                            assert(spills_to(write, before, Err(e)));
                            return Err(e);
                        },
                    }
                },
            }
        }
    }
}

/// Bytes of the payloads in memory that a recency list names.
pub open spec fn cached_bytes(cache: Map<u64, Seq<u8>>, lru: Seq<u64>) -> int
    decreases lru.len(),
{
    if lru.len() == 0 {
        0
    } else {
        cached_bytes(cache, lru.drop_last()) + cache[lru.last()].len()
    }
}

proof fn lemma_cached_bytes_ext(a: Map<u64, Seq<u8>>, b: Map<u64, Seq<u8>>, lru: Seq<u64>)
    requires
        forall|i: int| 0 <= i < lru.len() ==> a[#[trigger] lru[i]] == b[lru[i]],
    ensures
        cached_bytes(a, lru) == cached_bytes(b, lru),
    decreases lru.len(),
{
    if lru.len() > 0 {
        let t = lru.drop_last();
        assert forall|i: int| 0 <= i < t.len() implies a[#[trigger] t[i]] == b[t[i]] by {
            assert(t[i] == lru[i]);
        }
        lemma_cached_bytes_ext(a, b, t);
        assert(lru.last() == lru[lru.len() - 1]);
    }
}

proof fn lemma_cached_bytes_push(cache: Map<u64, Seq<u8>>, lru: Seq<u64>, x: u64)
    ensures
        cached_bytes(cache, lru.push(x)) == cached_bytes(cache, lru) + cache[x].len(),
{
    assert(lru.push(x).drop_last() =~= lru);
}

proof fn lemma_cached_bytes_without(cache: Map<u64, Seq<u8>>, lru: Seq<u64>, x: u64)
    requires
        forall|i: int, j: int| 0 <= i < j < lru.len() ==> #[trigger] lru[i] != #[trigger] lru[j],
    ensures
        cached_bytes(cache, without(lru, x)) == cached_bytes(cache, lru) - (if lru.contains(x) {
            cache[x].len() as int
        } else {
            0
        }),
    decreases lru.len(),
{
    if lru.len() > 0 {
        let t = lru.drop_last();
        assert forall|i: int, j: int| 0 <= i < j < t.len() implies #[trigger] t[i]
            != #[trigger] t[j] by {
            assert(lru[i] != lru[j]);
        }
        lemma_cached_bytes_without(cache, t, x);
        if lru.last() == x {
            if t.contains(x) {
                let i = choose|i: int| 0 <= i < t.len() && t[i] == x;
                assert(lru[i] != lru[lru.len() - 1]);
            }
            assert(lru[lru.len() - 1] == x);
            assert(lru.contains(x));
        } else {
            lemma_cached_bytes_push(cache, without(t, x), lru.last());
            if lru.contains(x) {
                let i = choose|i: int| 0 <= i < lru.len() && lru[i] == x;
                assert(t[i] == x);
                assert(t.contains(x));
            }
            if t.contains(x) {
                let i = choose|i: int| 0 <= i < t.len() && t[i] == x;
                assert(lru[i] == x);
                assert(lru.contains(x));
            }
        }
    }
}

proof fn lemma_cached_bytes_skip(cache: Map<u64, Seq<u8>>, lru: Seq<u64>)
    requires
        lru.len() > 0,
    ensures
        cached_bytes(cache, lru) == cache[lru[0]].len() + cached_bytes(cache, lru.skip(1)),
        cached_bytes(cache, lru.skip(1)) >= 0,
    decreases lru.len(),
{
    if lru.len() == 1 {
        assert(lru.drop_last() =~= Seq::<u64>::empty());
        assert(lru.skip(1) =~= Seq::<u64>::empty());
        assert(lru.last() == lru[0]);
    } else {
        lemma_cached_bytes_skip(cache, lru.drop_last());
        assert(lru.drop_last().skip(1) =~= lru.skip(1).drop_last());
        assert(lru.drop_last()[0] == lru[0]);
        assert(lru.skip(1).last() == lru.last());
    }
}

/// The spill files of different tokens have different names.
pub proof fn law_spill_names_differ(a: u64, b: u64)
    requires
        a != b,
    ensures
        spill_name(a) != spill_name(b),
{
    if spill_name(a) == spill_name(b) {
        let front = "ncf_kv_"@;
        let back = ".cache"@;
        let da = decimal(a as nat);
        let db = decimal(b as nat);
        assert(spill_name(a).len() == front.len() + da.len() + back.len());
        assert(spill_name(b).len() == front.len() + db.len() + back.len());
        assert(da =~= spill_name(a).subrange(front.len() as int, (front.len() + da.len()) as int));
        assert(db =~= spill_name(b).subrange(front.len() as int, (front.len() + db.len()) as int));
        lemma_decimal_injective(a as nat, b as nat);
    }
}

/// What has been put in memory is found there by the next reconstruction, and no other payload
/// has changed.
pub proof fn law_stored_payload_is_found(s: KvStreamState, token: u64, payload: Seq<u8>)
    ensures
        s.stored(token, payload).cache.contains_key(token),
        s.stored(token, payload).cache[token] == payload,
        forall|k: u64| #![trigger s.stored(token, payload).cache[k]] k != token ==> {
            &&& s.stored(token, payload).cache.contains_key(k) == s.cache.contains_key(k)
            &&& s.stored(token, payload).cache[k] == s.cache[k]
        },
{
}

/// A payload that leaves the memory for a spill file is still known to be there, and reading the
/// file back puts the same payload in memory again.
pub proof fn law_spilled_payload_comes_back(s: KvStreamState)
    requires
        s.consistent(),
        s.lru.len() > 0,
    ensures
        ({
            let token = s.lru[0];
            let payload = s.cache[token];
            let spilled = s.taken_out().written(token, payload.len() as int);
            let back = spilled.claimed(token).stored(token, payload);
            &&& spilled.spilled.contains(token)
            &&& !spilled.cache.contains_key(token)
            &&& back.cache == s.cache
            &&& back.spilled == s.spilled
        }),
{
    let token = s.lru[0];
    let payload = s.cache[token];
    let spilled = s.taken_out().written(token, payload.len() as int);
    let back = spilled.claimed(token).stored(token, payload);
    assert(s.lru.contains(token));
    assert(s.cache.contains_key(token));
    assert(back.cache =~= s.cache);
    assert(back.spilled =~= s.spilled);
}

/// The token used last is not the next one to be spilled while another one is in memory.
pub proof fn law_last_used_is_spilled_last(s: KvStreamState, token: u64)
    requires
        s.consistent(),
        s.cache.contains_key(token),
        s.lru.len() > 1,
    ensures
        s.touched(token).lru[0] != token,
        s.touched(token).lru.last() == token,
{
    lemma_without(s.lru, token);
    let w = without(s.lru, token);
    let other = if s.lru[0] == token {
        s.lru[1]
    } else {
        s.lru[0]
    };
    assert(s.lru[0] != s.lru[1]);
    assert(s.lru.contains(other));
    assert(w.contains(other));
    assert(w.contains(w[0]));
}

/// The count of cached bytes moves with the cached payloads: use does not change it, putting in
/// a new payload adds its length, and spilling a payload takes its length away. So a count that
/// is exact stays exact.
pub proof fn law_usage_counts_cached_bytes(s: KvStreamState, token: u64, payload: Seq<u8>)
    requires
        s.consistent(),
        s.usage >= cached_bytes(s.cache, s.lru),
    ensures
        s.cache.contains_key(token) ==> {
            let t = s.touched(token);
            t.usage - cached_bytes(t.cache, t.lru) == s.usage - cached_bytes(s.cache, s.lru)
        },
        !s.cache.contains_key(token) ==> {
            let t = s.stored(token, payload);
            t.usage - cached_bytes(t.cache, t.lru) == s.usage - cached_bytes(s.cache, s.lru)
        },
        s.lru.len() > 0 ==> {
            let oldest = s.lru[0];
            let t = s.taken_out().written(oldest, s.cache[oldest].len() as int);
            t.usage - cached_bytes(t.cache, t.lru) == s.usage - cached_bytes(s.cache, s.lru)
        },
{
    lemma_without(s.lru, token);
    let w = without(s.lru, token);
    lemma_cached_bytes_without(s.cache, s.lru, token);
    lemma_cached_bytes_push(s.cache, w, token);
    if !s.cache.contains_key(token) {
        let t = s.stored(token, payload);
        lemma_cached_bytes_push(t.cache, w, token);
        assert forall|i: int| 0 <= i < w.len() implies t.cache[#[trigger] w[i]] == s.cache[w[i]] by {
            assert(w.contains(w[i]));
        }
        lemma_cached_bytes_ext(t.cache, s.cache, w);
    }
    if s.lru.len() > 0 {
        let oldest = s.lru[0];
        let t = s.taken_out().written(oldest, s.cache[oldest].len() as int);
        lemma_cached_bytes_skip(s.cache, s.lru);
        assert forall|i: int| 0 <= i < t.lru.len() implies t.cache[#[trigger] t.lru[i]]
            == s.cache[t.lru[i]] by {
            assert(s.lru[0] != s.lru[i + 1]);
        }
        lemma_cached_bytes_ext(t.cache, s.cache, t.lru);
    }
}

/// A count that is exact stays exact: when a payload in memory is used, when one that is not there
/// is put in, and when the least recently used one is spilled.
pub proof fn law_count_stays_exact(s: KvStreamState, token: u64, payload: Seq<u8>)
    requires
        s.consistent(),
        s.counted(),
    ensures
        s.cache.contains_key(token) ==> s.touched(token).counted(),
        !s.cache.contains_key(token) ==> s.stored(token, payload).counted(),
        s.claimed(token).counted(),
        s.lru.len() > 0 ==> s.spilled_once().counted(),
{
    law_usage_counts_cached_bytes(s, token, payload);
}

/// Spilling as long as more than the threshold is cached ends with an exact count at or below the
/// threshold, keeps the state consistent, and takes payloads from the front of the recency list:
/// the token used last stays last unless it was spilled too.
pub proof fn law_eviction_ends_below_threshold(s: KvStreamState, k: nat)
    requires
        s.consistent(),
        s.counted(),
        forall|j: nat| j < k ==> (#[trigger] s.spilled_times(j)).must_spill(),
    ensures
        s.spilled_times(k).consistent(),
        s.spilled_times(k).counted(),
        k <= s.lru.len(),
        s.spilled_times(k).lru == s.lru.skip(k as int),
        k < s.lru.len() ==> s.spilled_times(k).lru.last() == s.lru.last(),
        !s.spilled_times(k).must_spill() ==> s.spilled_times(k).usage <= RAM_THRESHOLD_BYTES,
    decreases k,
{
    if k > 0 {
        let j = (k - 1) as nat;
        law_eviction_ends_below_threshold(s, j);
        let t = s.spilled_times(j);
        assert(t.must_spill());
        law_spill_keeps_consistent(t, t.cache[t.lru[0]].len() as int);
        law_count_stays_exact(t, t.lru[0], Seq::empty());
        assert(t.lru.skip(1) =~= s.lru.skip(k as int));
    } else {
        assert(s.lru.skip(0) =~= s.lru);
    }
}

/// Whether the payload of a token is at hand: in memory, or in its spill file.
pub open spec fn at_hand(
    s: KvStreamState,
    files: Map<u64, Seq<u8>>,
    token: u64,
    payload: Seq<u8>,
) -> bool {
    if s.cache.contains_key(token) {
        s.cache[token] == payload
    } else {
        s.spilled.contains(token) && files[token] == payload
    }
}

/// Whether one step of a reader and its spill files, none of which fails, leads from one state to
/// another: a payload in memory is used, a spill file is read back and deleted, a payload that is
/// neither in memory nor in a file is rebuilt, the least recently used payload is spilled, or
/// nothing happens.
pub open spec fn steps_to(
    s: KvStreamState,
    files: Map<u64, Seq<u8>>,
    t: KvStreamState,
    left: Map<u64, Seq<u8>>,
) -> bool {
    ||| t == s && left == files
    ||| exists|token: u64|
        s.cache.contains_key(token) && t == #[trigger] s.touched(token) && left == files
    ||| exists|token: u64|
        !s.cache.contains_key(token) && s.spilled.contains(token) && t == #[trigger] s.claimed(
            token,
        ).stored(token, files[token]) && left == files.remove(token)
    ||| exists|token: u64, payload: Seq<u8>|
        !s.cache.contains_key(token) && !s.spilled.contains(token) && t == #[trigger] s.stored(
            token,
            payload,
        ) && left == files
    ||| s.lru.len() > 0 && t == s.spilled_once() && left == files.insert(
        s.lru[0],
        s.cache[s.lru[0]],
    )
}

proof fn lemma_step_keeps(
    s: KvStreamState,
    files: Map<u64, Seq<u8>>,
    t: KvStreamState,
    left: Map<u64, Seq<u8>>,
    token: u64,
    payload: Seq<u8>,
)
    requires
        s.consistent(),
        steps_to(s, files, t, left),
        at_hand(s, files, token, payload),
    ensures
        t.consistent(),
        at_hand(t, left, token, payload),
{
    if t == s && left == files {
    } else if exists|u: u64|
        s.cache.contains_key(u) && t == #[trigger] s.touched(u) && left == files {
        let u = choose|u: u64|
            s.cache.contains_key(u) && t == #[trigger] s.touched(u) && left == files;
        law_touch_keeps_consistent(s, u);
    } else if exists|u: u64|
        !s.cache.contains_key(u) && s.spilled.contains(u) && t == #[trigger] s.claimed(u).stored(
            u,
            files[u],
        ) && left == files.remove(u) {
        let u = choose|u: u64|
            !s.cache.contains_key(u) && s.spilled.contains(u) && t == #[trigger] s.claimed(
                u,
            ).stored(u, files[u]) && left == files.remove(u);
        let c = s.claimed(u);
        assert(c.consistent()) by {
            assert forall|k: u64| #[trigger] c.cache.contains_key(k) <==> c.lru.contains(k) by {
                assert(s.cache.contains_key(k) <==> s.lru.contains(k));
            }
        }
        law_store_keeps_consistent(c, u, files[u]);
    } else if exists|u: u64, p: Seq<u8>|
        !s.cache.contains_key(u) && !s.spilled.contains(u) && t == #[trigger] s.stored(u, p)
            && left == files {
        let (u, p) = choose|u: u64, p: Seq<u8>|
            !s.cache.contains_key(u) && !s.spilled.contains(u) && t == #[trigger] s.stored(u, p)
                && left == files;
        law_store_keeps_consistent(s, u, p);
    } else {
        law_spill_keeps_consistent(s, s.cache[s.lru[0]].len() as int);
        assert(s.lru.contains(s.lru[0]));
        assert(s.cache.contains_key(s.lru[0]));
    }
}

/// A payload that was reconstructed once stays at hand through any further steps: reconstructing
/// its token gives it again, from memory or from its spill file, whatever chain is given.
pub proof fn law_payload_stays_at_hand(
    states: Seq<KvStreamState>,
    files: Seq<Map<u64, Seq<u8>>>,
    token: u64,
    payload: Seq<u8>,
    i: int,
)
    requires
        0 <= i < states.len(),
        files.len() == states.len(),
        states[0].consistent(),
        at_hand(states[0], files[0], token, payload),
        forall|j: int|
            0 < j < states.len() ==> steps_to(
                states[j - 1],
                files[j - 1],
                #[trigger] states[j],
                files[j],
            ),
    ensures
        states[i].consistent(),
        at_hand(states[i], files[i], token, payload),
    decreases i,
{
    if i > 0 {
        law_payload_stays_at_hand(states, files, token, payload, i - 1);
        lemma_step_keeps(
            states[i - 1],
            files[i - 1],
            states[i],
            files[i],
            token,
            payload,
        );
    }
}

/// The spill file of a token is named by its decimal digits, and payloads are spilled while more
/// than 14 GiB are counted and one is in memory.
pub proof fn law_spill_name_and_threshold(s: KvStreamState, token: u64)
    ensures
        spill_name(token) == "ncf_kv_"@ + decimal(token as nat) + ".cache"@,
        s.must_spill() <==> s.usage > 14 * 1024 * 1024 * 1024 && s.lru.len() > 0,
        s.has_room() <==> s.usage <= u128::MAX - usize::MAX,
{
}

/// No step changes the directory of the spill files. A spilled payload is taken from the count, as
/// far as the count goes, and the list of the tokens used loses its first.
pub proof fn law_steps_keep_the_directory(s: KvStreamState, token: u64, payload: Seq<u8>, len: int)
    ensures
        s.touched(token).temp_dir == s.temp_dir,
        s.stored(token, payload).temp_dir == s.temp_dir,
        s.claimed(token).temp_dir == s.temp_dir,
        s.taken_out().temp_dir == s.temp_dir,
        s.written(token, len).temp_dir == s.temp_dir,
        s.taken_out().lru == s.lru.skip(1),
        s.taken_out().usage == s.usage,
        s.taken_out().spilled == s.spilled,
        s.written(token, len).lru == s.lru,
        s.written(token, len).cache == s.cache,
        s.usage >= len ==> s.written(token, len).usage == s.usage - len,
        s.usage < len ==> s.written(token, len).usage == 0,
        s.written(token, len).spilled == s.spilled.insert(token),
{
}

proof fn lemma_spilled_in_order(s: KvStreamState, k: nat)
    requires
        s.consistent(),
        k <= s.lru.len(),
    ensures
        s.spilled_times(k).lru == s.lru.skip(k as int),
        forall|i: int|
            k <= i < s.lru.len() ==> s.spilled_times(k).cache.contains_key(#[trigger] s.lru[i])
                && s.spilled_times(k).cache[s.lru[i]] == s.cache[s.lru[i]],
    decreases k,
{
    if k == 0 {
        assert(s.lru.skip(0) =~= s.lru);
        assert forall|i: int| 0 <= i < s.lru.len() implies s.cache.contains_key(
            #[trigger] s.lru[i],
        ) by {
            assert(s.lru.contains(s.lru[i]));
        }
    } else {
        let j = (k - 1) as nat;
        lemma_spilled_in_order(s, j);
        let t = s.spilled_times(j);
        assert(t.lru[0] == s.lru[j as int]);
        assert(t.lru.skip(1) =~= s.lru.skip(k as int));
        assert forall|i: int| k <= i < s.lru.len() implies s.spilled_times(k).cache.contains_key(
            #[trigger] s.lru[i],
        ) && s.spilled_times(k).cache[s.lru[i]] == s.cache[s.lru[i]] by {
            assert(s.lru[j as int] != s.lru[i]);
        }
    }
}

/// The payloads that are spilled are written one by one, least recently used first, each under the
/// name of its token and with all its bytes.
pub proof fn law_spilled_payloads_are_written<E, W: Fn(&Spill) -> Result<(), E>>(
    write: W,
    s: KvStreamState,
    k: nat,
    j: nat,
)
    requires
        s.consistent(),
        spills_first::<E, W>(write, s, k),
        j < k <= s.lru.len(),
    ensures
        exists|spill: Spill| #[trigger]
            call_ensures(write, (&spill,), Ok::<(), E>(())) && spill.token == s.lru[j as int]
                && spill.payload@ == s.cache[s.lru[j as int]] && spill.name@ == "ncf_kv_"@ + decimal(
                s.lru[j as int] as nat,
            ) + ".cache"@,
{
    lemma_spilled_in_order(s, j);
    let t = s.spilled_times(j);
    assert(t.must_spill());
    assert(t.lru[0] == s.lru[j as int]);
    let spill = choose|spill: Spill|
        spill.token == t.lru[0] && spill.name@ == spill_name(t.lru[0]) && spill.payload@
            == t.cache[t.lru[0]] && #[trigger] call_ensures(write, (&spill,), Ok::<(), E>(()));
    assert(call_ensures(write, (&spill,), Ok::<(), E>(())));
}

/// Eviction fails only where the writer fails on the payload that has to leave, with its error.
pub proof fn law_only_the_writer_fails<E, W: Fn(&Spill) -> Result<(), E>>(
    write: W,
    s: KvStreamState,
    e: E,
)
    requires
        spills_to(write, s, Err(e)),
    ensures
        exists|spill: Spill| #[trigger]
            call_ensures(write, (&spill,), Err::<(), E>(e)) && spill.token == s.lru[0]
                && spill.payload@ == s.cache[s.lru[0]] && spill.name@ == "ncf_kv_"@ + decimal(
                s.lru[0] as nat,
            ) + ".cache"@,
{
    let spill = choose|spill: Spill|
        spill.token == s.lru[0] && spill.name@ == spill_name(s.lru[0]) && spill.payload@
            == s.cache[s.lru[0]] && #[trigger] call_ensures(write, (&spill,), Err::<(), E>(e));
    assert(call_ensures(write, (&spill,), Err::<(), E>(e)));
}

/// What each step does to the payloads in memory and in files: use changes neither; putting a
/// payload in memory changes that token alone and makes it the one used last; claiming a spill
/// file takes that token alone from the files; spilling moves the least recently used token, and
/// no other, from the memory to the files.
pub proof fn law_steps_change_one_token(
    s: KvStreamState,
    token: u64,
    payload: Seq<u8>,
    other: u64,
)
    requires
        s.consistent(),
        other != token,
    ensures
        s.touched(token).cache == s.cache,
        s.touched(token).spilled == s.spilled,
        s.touched(token).usage == s.usage,
        s.touched(token).lru.last() == token,
        s.stored(token, payload).cache.contains_key(token),
        s.stored(token, payload).cache[token] == payload,
        s.stored(token, payload).cache.contains_key(other) == s.cache.contains_key(other),
        s.cache.contains_key(other) ==> s.stored(token, payload).cache[other] == s.cache[other],
        s.stored(token, payload).spilled == s.spilled,
        s.stored(token, payload).usage == s.usage + payload.len(),
        s.stored(token, payload).lru.last() == token,
        !s.claimed(token).spilled.contains(token),
        s.claimed(token).spilled.contains(other) == s.spilled.contains(other),
        s.claimed(token).cache == s.cache,
        s.claimed(token).lru == s.lru,
        s.claimed(token).usage == s.usage,
        s.lru.len() > 0 && s.lru[0] == token ==> {
            let t = s.spilled_once();
            &&& !t.cache.contains_key(token)
            &&& t.spilled.contains(token)
            &&& t.cache.contains_key(other) == s.cache.contains_key(other)
            &&& s.cache.contains_key(other) ==> t.cache[other] == s.cache[other]
            &&& t.spilled.contains(other) == s.spilled.contains(other)
            &&& t.lru.len() == s.lru.len() - 1
            &&& s.usage >= s.cache[token].len() ==> t.usage == s.usage - s.cache[token].len()
        },
{
    let t = s.stored(token, payload);
    assert(t.lru.last() == token);
}

/// Using a token keeps the order of all others: one of two other tokens that was used before the
/// other stays so.
pub proof fn law_use_keeps_the_order_of_others(s: KvStreamState, token: u64, a: int, b: int)
    requires
        s.consistent(),
        0 <= a < b < s.lru.len(),
        s.lru[a] != token,
        s.lru[b] != token,
    ensures
        exists|c: int, d: int|
            0 <= c < d < s.touched(token).lru.len() && #[trigger] s.touched(token).lru[c]
                == s.lru[a] && #[trigger] s.touched(token).lru[d] == s.lru[b],
{
    let (c, d) = lemma_without_keeps_order(s.lru, token, a, b);
    let w = without(s.lru, token);
    assert(s.touched(token).lru[c] == w[c]);
    assert(s.touched(token).lru[d] == w[d]);
}

proof fn lemma_without_keeps(s: Seq<u64>, x: u64, a: int) -> (c: int)
    requires
        0 <= a < s.len(),
        s[a] != x,
    ensures
        0 <= c < without(s, x).len(),
        without(s, x)[c] == s[a],
    decreases s.len(),
{
    let t = s.drop_last();
    if a == s.len() - 1 {
        without(t, x).len() as int
    } else {
        assert(t[a] == s[a]);
        let c = lemma_without_keeps(t, x, a);
        c
    }
}

proof fn lemma_without_keeps_order(s: Seq<u64>, x: u64, a: int, b: int) -> (r: (int, int))
    requires
        0 <= a < b < s.len(),
        s[a] != x,
        s[b] != x,
    ensures
        0 <= r.0 < r.1 < without(s, x).len(),
        without(s, x)[r.0] == s[a],
        without(s, x)[r.1] == s[b],
    decreases s.len(),
{
    let t = s.drop_last();
    assert(t[a] == s[a]);
    if b == s.len() - 1 {
        let c = lemma_without_keeps(t, x, a);
        (c, without(t, x).len() as int)
    } else {
        assert(t[b] == s[b]);
        lemma_without_keeps_order(t, x, a, b)
    }
}

} // verus!
