//! Delta encoding of a sequence of KV cache payloads.

use crate::bytes::copy_bytes;
use crate::error::{IoError, IoErrorKind};
use vstd::prelude::*;
use vstd::string::*;

verus! {

/// Records between two full snapshots.
pub const SNAPSHOT_INTERVAL: usize = 1000;

/// Encoding of one KV cache record.
#[derive(Debug, Clone, Copy, PartialEq, Eq, Structural)]
pub enum KvEncoding {
    /// A full snapshot.
    Full,
    /// A delta relative to the record before.
    Delta {
        /// Token index of the snapshot that the deltas start from.
        base_offset: u64,
    },
}

/// A single encoded KV cache record.
#[derive(Debug)]
pub struct KvChunk {
    /// Token index of the record.
    pub token_index: u64,
    /// Encoding of the payload.
    pub kv_encoding: KvEncoding,
    /// The full payload or the compressed delta.
    pub payload: Vec<u8>,
}

impl Clone for KvChunk {
    fn clone(&self) -> (r: Self)
        ensures
            r.token_index == self.token_index,
            r.kv_encoding == self.kv_encoding,
            r.payload@ == self.payload@,
    {
        KvChunk {
            token_index: self.token_index,
            kv_encoding: self.kv_encoding,
            payload: copy_bytes(self.payload.as_slice()),
        }
    }
}

impl KvChunk {
    /// Build a full snapshot record.
    pub fn full_snapshot(token_index: u64, payload: Vec<u8>) -> (c: Self)
        ensures
            c == (KvChunk { token_index, kv_encoding: KvEncoding::Full, payload }),
    {
        KvChunk { token_index, kv_encoding: KvEncoding::Full, payload }
    }

    /// Build a delta record.
    pub fn delta_snapshot(token_index: u64, base_offset: u64, payload: Vec<u8>) -> (c: Self)
        ensures
            c == (KvChunk { token_index, kv_encoding: KvEncoding::Delta { base_offset }, payload }),
    {
        KvChunk { token_index, kv_encoding: KvEncoding::Delta { base_offset }, payload }
    }
}

/// The data that a zstd stream decompresses to, or the class and the text of the decompressor's
/// failure.
pub uninterp spec fn zstd_decoded(stream: Seq<u8>) -> Result<Seq<u8>, (IoErrorKind, Seq<char>)>;

/// Calls `zstd::encode_all` at level 0, the default level of the compressor. Claimed of it: a
/// stream that it returns decompresses to the input. Nothing is claimed of when it fails, which
/// rests on the memory of the machine.
#[verifier::external_body]
fn compress(data: &[u8]) -> (r: Result<Vec<u8>, IoError>)
    ensures
        r matches Ok(stream) ==> (zstd_decoded(stream@) matches Ok(content) && content == data@),
        r matches Err(e) ==> e is Codec,
{
    match zstd::encode_all(data, 0) {
        Ok(stream) => Ok(stream),
        Err(e) => Err(IoError::Codec { kind: IoErrorKind::Other, text: e.to_string() }),
    }
}

/// Calls `zstd::decode_all`. Claimed of it: whether it succeeds, and the data that it returns or
/// the class and the text of its error, is a function of the stream alone. Of the classes that an
/// error can have it uses that of an early end and that of other failures.
#[verifier::external_body]
pub(crate) fn decompress(stream: &[u8]) -> (r: Result<Vec<u8>, IoError>)
    ensures
        match (r, zstd_decoded(stream@)) {
            (Ok(data), Ok(content)) => data@ == content,
            (Err(e), Err(failure)) => is_codec_error(e, failure.0, failure.1),
            _ => false,
        },
{
    match zstd::decode_all(stream) {
        Ok(data) => Ok(data),
        Err(e) => {
            let kind = match e.kind() {
                std::io::ErrorKind::UnexpectedEof => IoErrorKind::UnexpectedEof,
                std::io::ErrorKind::InvalidData => IoErrorKind::InvalidData,
                _ => IoErrorKind::Other,
            };
            Err(IoError::Codec { kind, text: e.to_string() })
        },
    }
}

/// Whether an error is a failure of the codec with this class and this text.
pub open spec fn is_codec_error(e: IoError, class: IoErrorKind, message: Seq<char>) -> bool {
    e matches IoError::Codec { kind, text } && kind == class && text@ == message
}

/// A change put on a base: bytewise exclusive-or as far as the base goes, and the bytes of the
/// change alone behind its end. The result is as long as the change.
pub open spec fn xor_onto(base: Seq<u8>, change: Seq<u8>) -> Seq<u8> {
    Seq::new(
        change.len(),
        |i: int|
            if i < base.len() {
                base[i] ^ change[i]
            } else {
                change[i]
            },
    )
}

/// Put a change on a base. The change from one payload to the next is the next put on the one, and
/// put on the one it gives the next.
pub fn xor_payloads(base: &[u8], change: &[u8]) -> (r: Vec<u8>)
    ensures
        r@ == xor_onto(base@, change@),
{
    let mut r: Vec<u8> = Vec::new();
    let mut i: usize = 0;
    while i < change.len()
        invariant
            i <= change@.len(),
            r@.len() == i,
            forall|j: int| 0 <= j < i ==> r@[j] == xor_onto(base@, change@)[j],
        decreases change@.len() - i,
    {
        if i < base.len() {
            r.push(base[i] ^ change[i]);
        } else {
            r.push(change[i]);
        }
        i += 1;
    }
    assert(r@ =~= xor_onto(base@, change@));
    r
}

/// Putting a change on the payload that it was made from gives the payload that it leads to,
/// whether that is longer or shorter.
pub proof fn law_change_leads_on(one: Seq<u8>, next: Seq<u8>)
    ensures
        xor_onto(one, xor_onto(one, next)) == next,
{
    let back = xor_onto(one, xor_onto(one, next));
    assert forall|j: int| 0 <= j < back.len() implies back[j] == next[j] by {
        if j < one.len() {
            let a: u8 = one[j];
            let b: u8 = next[j];
            assert(a ^ (a ^ b) == b) by (bit_vector);
        }
    }
    assert(back =~= next);
}

/// Token index of the snapshot that record `i` builds on.
pub open spec fn snapshot_index(i: int) -> int {
    i - i % (SNAPSHOT_INTERVAL as int)
}

/// Whether `chunk` is record `i` of a chain for `payloads`: a full snapshot at every multiple
/// of the interval, else the compressed change from the payload before.
pub open spec fn encodes_record(payloads: Seq<Vec<u8>>, i: int, chunk: KvChunk) -> bool {
    &&& chunk.token_index == i
    &&& if i % (SNAPSHOT_INTERVAL as int) == 0 {
        chunk.kv_encoding == KvEncoding::Full && chunk.payload@ == payloads[i]@
    } else {
        &&& chunk.kv_encoding == KvEncoding::Delta { base_offset: snapshot_index(i) as u64 }
        &&& zstd_decoded(chunk.payload@) matches Ok(change)
        &&& change == xor_onto(payloads[i - 1]@, payloads[i]@)
    }
}

/// Whether `chain` is a chain for `payloads`.
pub open spec fn encodes_chain(payloads: Seq<Vec<u8>>, chain: Seq<KvChunk>) -> bool {
    &&& chain.len() == payloads.len()
    &&& forall|i: int|
        0 <= i < chain.len() ==> encodes_record(payloads, i, #[trigger] chain[i])
}

/// Number of leading records, counted from `i` on, that do not lie behind the target.
pub open spec fn reach_from(chain: Seq<KvChunk>, target: u64, i: int) -> int
    decreases chain.len() - i,
{
    if 0 <= i < chain.len() && chain[i].token_index <= target {
        reach_from(chain, target, i + 1)
    } else {
        i
    }
}

/// The payload after the first `n` records, if a snapshot is among them; the decompressor's failure
/// at the first delta behind a snapshot that cannot be decompressed.
pub open spec fn replay_state(chain: Seq<KvChunk>, n: int) -> Result<
    Option<Seq<u8>>,
    (IoErrorKind, Seq<char>),
>
    decreases n,
{
    if n <= 0 {
        Ok(None)
    } else {
        let chunk = chain[n - 1];
        match replay_state(chain, n - 1) {
            Err(failure) => Err(failure),
            Ok(before) => match (chunk.kv_encoding, before) {
                (KvEncoding::Full, _) => Ok(Some(chunk.payload@)),
                (KvEncoding::Delta { .. }, None) => Ok(None),
                (KvEncoding::Delta { .. }, Some(previous)) => match zstd_decoded(chunk.payload@) {
                    Ok(delta) => Ok(Some(xor_onto(previous, delta))),
                    Err(failure) => Err(failure),
                },
            },
        }
    }
}

/// The payload that a chain holds for a target: that after the last of the leading records
/// that do not lie behind the target.
pub open spec fn replayed(chain: Seq<KvChunk>, target: u64) -> Result<
    Option<Seq<u8>>,
    (IoErrorKind, Seq<char>),
> {
    replay_state(chain, reach_from(chain, target, 0))
}

/// The delta record made of a compressed difference, or the compressor's failure.
pub fn delta_record(token_index: u64, base_offset: u64, compressed: Result<Vec<u8>, IoError>) -> (r:
    Result<KvChunk, IoError>)
    ensures
        match compressed {
            Ok(payload) => r == Ok::<KvChunk, IoError>(
                KvChunk { token_index, kv_encoding: KvEncoding::Delta { base_offset }, payload },
            ),
            Err(e) => r == Err::<KvChunk, IoError>(e),
        },
{
    match compressed {
        Ok(payload) => Ok(KvChunk::delta_snapshot(token_index, base_offset, payload)),
        Err(e) => Err(e),
    }
}

/// The payload after a delta, given the decompressed difference or the decompressor's failure.
pub fn apply_delta(previous: &[u8], inflated: Result<Vec<u8>, IoError>) -> (r: Result<
    Vec<u8>,
    IoError,
>)
    ensures
        match inflated {
            Ok(delta) => r matches Ok(next) && next@ == xor_onto(previous@, delta@),
            Err(e) => r == Err::<Vec<u8>, IoError>(e),
        },
{
    match inflated {
        Ok(delta) => Ok(xor_payloads(previous, delta.as_slice())),
        Err(e) => Err(e),
    }
}

/// Whether an error is a failure of the codec, reported without a class of its own.
pub open spec fn is_plain_codec_error(e: IoError) -> bool {
    e is Codec && e.spec_kind() == IoErrorKind::Other
}

fn plain_codec_error(e: IoError) -> (r: IoError)
    requires
        e is Codec,
    ensures
        is_plain_codec_error(r),
        r.spec_message() == e.spec_message(),
{
    IoError::Codec { kind: IoErrorKind::Other, text: e.message() }
}

/// Replay the records that do not lie behind the target.
///
/// `None` means that no snapshot is among them.
pub(crate) fn replay(chain: &[KvChunk], target: u64) -> (r: Result<Option<Vec<u8>>, IoError>)
    ensures
        match (r, replayed(chain@, target)) {
            (Ok(Some(payload)), Ok(Some(bytes))) => payload@ == bytes,
            (Ok(None), Ok(None)) => true,
            (Err(e), Err(failure)) => is_codec_error(e, failure.0, failure.1),
            _ => false,
        },
{
    let mut current: Option<Vec<u8>> = None;
    let mut i: usize = 0;
    while i < chain.len() && chain[i].token_index <= target
        invariant
            i <= chain@.len(),
            reach_from(chain@, target, 0) == reach_from(chain@, target, i as int),
            match (current, replay_state(chain@, i as int)) {
                (Some(payload), Ok(Some(bytes))) => payload@ == bytes,
                (None, Ok(None)) => true,
                _ => false,
            },
        decreases chain@.len() - i,
    {
        let chunk: &KvChunk = &chain[i];
        match chunk.kv_encoding {
            KvEncoding::Full => {
                current = Some(copy_bytes(chunk.payload.as_slice()));
            },
            KvEncoding::Delta { .. } => {
                if let Some(previous) = current {
                    match apply_delta(previous.as_slice(), decompress(chunk.payload.as_slice())) {
                        Ok(next) => {
                            current = Some(next);
                        },
                        Err(e) => {
                            proof {
                                lemma_reach_grows(chain@, target, i + 1);
                                lemma_replay_error_stays(
                                    chain@,
                                    i + 1,
                                    reach_from(chain@, target, 0),
                                );
                            }
                            return Err(e);
                        },
                    }
                } else {
                    current = None;
                }
            },
        }
        i += 1;
    }
    Ok(current)
}

proof fn lemma_replay_error_stays(chain: Seq<KvChunk>, a: int, b: int)
    requires
        a <= b,
        replay_state(chain, a) is Err,
    ensures
        replay_state(chain, b) == replay_state(chain, a),
    decreases b - a,
{
    if a < b {
        lemma_replay_error_stays(chain, a, b - 1);
    }
}

proof fn lemma_reach_grows(chain: Seq<KvChunk>, target: u64, i: int)
    requires
        0 <= i <= chain.len(),
    ensures
        reach_from(chain, target, i) >= i,
    decreases chain.len() - i,
{
    if i < chain.len() && chain[i].token_index <= target {
        lemma_reach_grows(chain, target, i + 1);
    }
}

/// Whether a compressor can give this result for these bytes.
pub open spec fn compresses_to<C: Fn(&[u8]) -> Result<Vec<u8>, IoError>>(
    compress: C,
    data: Seq<u8>,
    r: Result<Vec<u8>, IoError>,
) -> bool {
    exists|s: &[u8]| s@ == data && #[trigger] call_ensures(compress, (s,), r)
}

/// Whether `chunk` is record `i` of a chain that a compressor made for `payloads`: the payload
/// itself at every thousandth index, else what the compressor gave for the change from the payload
/// before.
pub open spec fn is_made_record<C: Fn(&[u8]) -> Result<Vec<u8>, IoError>>(
    payloads: Seq<Vec<u8>>,
    compress: C,
    i: int,
    chunk: KvChunk,
) -> bool {
    &&& chunk.token_index == i
    &&& if i % 1000 == 0 {
        chunk.kv_encoding == KvEncoding::Full && chunk.payload@ == payloads[i]@
    } else {
        &&& chunk.kv_encoding == KvEncoding::Delta { base_offset: (i - i % 1000) as u64 }
        &&& compresses_to(
            compress,
            xor_onto(payloads[i - 1]@, payloads[i]@),
            Ok(chunk.payload),
        )
    }
}

/// What a compressor makes of `payloads`: a record for each, or an error with the text of its
/// failure on the change to a payload that is not at a thousandth index.
pub open spec fn is_encoding<C: Fn(&[u8]) -> Result<Vec<u8>, IoError>>(
    payloads: Seq<Vec<u8>>,
    compress: C,
    r: Result<Vec<KvChunk>, IoError>,
) -> bool {
    match r {
        Ok(chain) => {
            &&& chain@.len() == payloads.len()
            &&& forall|i: int|
                0 <= i < chain@.len() ==> is_made_record(
                    payloads,
                    compress,
                    i,
                    #[trigger] chain@[i],
                )
        },
        Err(e) => exists|i: int, failure: IoError|
            0 < i < payloads.len() && i % 1000 != 0 && #[trigger] compresses_to(
                compress,
                xor_onto(payloads[i - 1]@, payloads[i]@),
                Err(failure),
            ) && is_codec_error(e, IoErrorKind::Other, failure.spec_message()),
    }
}

/// Create a delta chain from a sequence of KV payloads with a given compressor.
pub fn encode_with<C: Fn(&[u8]) -> Result<Vec<u8>, IoError>>(payloads: &[Vec<u8>], compress: C) -> (
r: Result<Vec<KvChunk>, IoError>)
    requires
        forall|s: &[u8]| #[trigger] call_requires(compress, (s,)),
        forall|s: &[u8], e: IoError| #[trigger]
            call_ensures(compress, (s,), Err(e)) ==> e is Codec,
    ensures
        is_encoding(payloads@, compress, r),
{
    let mut output: Vec<KvChunk> = Vec::new();
    let mut last_full_index: u64 = 0;
    let mut idx: usize = 0;
    while idx < payloads.len()
        invariant
            forall|s: &[u8]| #[trigger] call_requires(compress, (s,)),
            forall|s: &[u8], e: IoError| #[trigger]
                call_ensures(compress, (s,), Err(e)) ==> e is Codec,
            idx <= payloads@.len(),
            output@.len() == idx,
            idx > 0 ==> last_full_index == snapshot_index(idx - 1),
            forall|i: int|
                0 <= i < idx ==> is_made_record(payloads@, compress, i, #[trigger] output@[i]),
        decreases payloads@.len() - idx,
    {
        let token_index: u64 = idx as u64;
        if idx % SNAPSHOT_INTERVAL == 0 {
            let payload: Vec<u8> = copy_bytes(payloads[idx].as_slice());
            output.push(KvChunk::full_snapshot(token_index, payload));
            last_full_index = token_index;
        } else {
            assert(snapshot_index(idx as int) == snapshot_index(idx - 1));
            let delta: Vec<u8> = xor_payloads(
                payloads[idx - 1].as_slice(),
                payloads[idx].as_slice(),
            );
            let change: &[u8] = delta.as_slice();
            let compressed: Result<Vec<u8>, IoError> = compress(change);
            assert(compresses_to(
                compress,
                xor_onto(payloads@[idx - 1]@, payloads@[idx as int]@),
                compressed,
            ));
            match delta_record(token_index, last_full_index, compressed) {
                Ok(record) => {
                    output.push(record);
                },
                Err(e) => {
                    return Err(plain_codec_error(e));
                },
            }
        }
        idx += 1;
    }
    Ok(output)
}

/// A sequence of payloads is encoded, whatever it holds, unless the compressor fails on a change
/// between two neighbours of it; a compressor that never fails encodes every sequence.
pub proof fn law_only_the_compressor_fails<C: Fn(&[u8]) -> Result<Vec<u8>, IoError>>(
    payloads: Seq<Vec<u8>>,
    compress: C,
    r: Result<Vec<KvChunk>, IoError>,
)
    requires
        is_encoding(payloads, compress, r),
    ensures
        (forall|i: int, s: &[u8], e: IoError|
            0 < i < payloads.len() && i % 1000 != 0 && s@ == xor_onto(
                #[trigger] payloads[i - 1]@,
                payloads[i]@,
            ) ==> !#[trigger] call_ensures(compress, (s,), Err(e))) ==> r is Ok,
        payloads.len() <= 1 ==> r is Ok,
        r matches Err(e) ==> e.spec_kind() == IoErrorKind::Other && exists|s: &[u8], f: IoError|
            #[trigger] call_ensures(compress, (s,), Err(f)) && e.spec_message()
                == f.spec_message(),
{
    if let Err(e) = r {
        let (i, failure) = choose|i: int, failure: IoError|
            0 < i < payloads.len() && i % 1000 != 0 && #[trigger] compresses_to(
                compress,
                xor_onto(payloads[i - 1]@, payloads[i]@),
                Err(failure),
            ) && is_codec_error(e, IoErrorKind::Other, failure.spec_message());
        let change = xor_onto(payloads[i - 1]@, payloads[i]@);
        let s = choose|s: &[u8]|
            s@ == change && #[trigger] call_ensures(compress, (s,), Err(failure));
        assert(call_ensures(compress, (s,), Err(failure)));
    }
}

/// Every record of a chain has the index of its payload; those at the indices 0, 1000, 2000 and so
/// on hold their payload, and every other one refers to the last of these before it.
pub proof fn law_records_stand_in_order<C: Fn(&[u8]) -> Result<Vec<u8>, IoError>>(
    payloads: Seq<Vec<u8>>,
    compress: C,
    chain: Vec<KvChunk>,
    i: int,
)
    requires
        is_encoding(payloads, compress, Ok(chain)),
        0 <= i < payloads.len(),
        payloads.len() <= u64::MAX,
    ensures
        chain@.len() == payloads.len(),
        chain@[i].token_index == i,
        chain@[i].kv_encoding is Full <==> i % 1000 == 0,
        i % 1000 == 0 ==> chain@[i].payload@ == payloads[i]@,
        chain@[i].kv_encoding matches KvEncoding::Delta { base_offset } ==> base_offset % 1000 == 0
            && base_offset < i < base_offset + 1000,
        i % 1000 != 0 ==> exists|s: &[u8]| #[trigger]
            call_ensures(compress, (s,), Ok(chain@[i].payload)) && s@ == xor_onto(
                payloads[i - 1]@,
                payloads[i]@,
            ),
{
    assert(is_made_record(payloads, compress, i, chain@[i]));
}

/// Whether the compressor in use can fail with this error on these bytes.
pub closed spec fn compressor_fails(data: Seq<u8>, failure: IoError) -> bool {
    compresses_to(compress, data, Err(failure))
}

/// The compressor fails exactly where a call of it on these bytes can give this error.
proof fn law_failure_is_that_of_a_call(data: Seq<u8>, failure: IoError)
    ensures
        compressor_fails(data, failure) <==> exists|s: &[u8]| #[trigger]
            call_ensures(compress, (s,), Err(failure)) && s@ == data,
{
}

/// Encoder and decoder of KV delta chains.
pub struct KvDeltaEncoder;

impl KvDeltaEncoder {
    /// Create a delta chain from a sequence of KV payloads.
    ///
    /// The compressor alone can make this fail, and it is called for deltas only: without a
    /// second payload there is none.
    pub fn encode(payloads: &[Vec<u8>]) -> (r: Result<Vec<KvChunk>, IoError>)
        ensures
            match r {
                Ok(chain) => encodes_chain(payloads@, chain@),
                Err(e) => is_plain_codec_error(e) && payloads@.len() > 1,
            },
            r matches Err(e) ==> exists|i: int, failure: IoError|
                0 < i < payloads@.len() && i % 1000 != 0 && #[trigger] compressor_fails(
                    xor_onto(payloads@[i - 1]@, payloads@[i]@),
                    failure,
                ) && e.spec_message() == failure.spec_message(),
    {
        let r: Result<Vec<KvChunk>, IoError> = encode_with(payloads, compress);
        proof {
            let outcome = r;
            match outcome {
                Ok(chain) => {
                    assert forall|i: int| 0 <= i < chain@.len() implies encodes_record(
                        payloads@,
                        i,
                        #[trigger] chain@[i],
                    ) by {
                        assert(is_made_record(payloads@, compress, i, chain@[i]));
                    }
                },
                Err(e) => {
                    let (i, failure) = choose|i: int, failure: IoError|
                        0 < i < payloads@.len() && i % 1000 != 0 && #[trigger] compresses_to(
                            compress,
                            xor_onto(payloads@[i - 1]@, payloads@[i]@),
                            Err(failure),
                        ) && is_codec_error(e, IoErrorKind::Other, failure.spec_message());
                    assert(compressor_fails(xor_onto(payloads@[i - 1]@, payloads@[i]@), failure));
                },
            }
        }
        r
    }

    /// Decode a delta chain back to the payload of the target index.
    pub fn decode(chain: &[KvChunk], target_index: u64) -> (r: Result<Vec<u8>, IoError>)
        ensures
            match (replayed(chain@, target_index), r) {
                (Ok(Some(bytes)), Ok(payload)) => payload@ == bytes,
                (Ok(None), Err(e)) => e == IoError::MissingSnapshotFor { target: target_index },
                (Err(failure), Err(e)) => is_codec_error(e, IoErrorKind::Other, failure.1),
                _ => false,
            },
    {
        match replay(chain, target_index) {
            Ok(Some(payload)) => Ok(payload),
            Ok(None) => Err(IoError::MissingSnapshotFor { target: target_index }),
            Err(e) => Err(plain_codec_error(e)),
        }
    }
}

proof fn lemma_replay_encoded(payloads: Seq<Vec<u8>>, chain: Seq<KvChunk>, i: int)
    requires
        encodes_chain(payloads, chain),
        0 <= i < payloads.len(),
    ensures
        replay_state(chain, i + 1) == Ok::<Option<Seq<u8>>, (IoErrorKind, Seq<char>)>(
            Some(payloads[i]@),
        ),
    decreases i,
{
    assert(encodes_record(payloads, i, chain[i]));
    if i > 0 {
        lemma_replay_encoded(payloads, chain, i - 1);
        law_change_leads_on(payloads[i - 1]@, payloads[i]@);
    }
}

proof fn lemma_reach_of_encoded(payloads: Seq<Vec<u8>>, chain: Seq<KvChunk>, target: u64, i: int)
    requires
        encodes_chain(payloads, chain),
        0 <= i <= target + 1 <= chain.len(),
    ensures
        reach_from(chain, target, i) == target + 1,
    decreases target + 1 - i,
{
    if i < chain.len() {
        assert(encodes_record(payloads, i, chain[i]));
    }
    if i <= target {
        lemma_reach_of_encoded(payloads, chain, target, i + 1);
    }
}

/// Decoding an encoded chain at an index gives the payload of that index.
pub proof fn law_kv_roundtrip(payloads: Seq<Vec<u8>>, chain: Seq<KvChunk>, index: u64)
    requires
        encodes_chain(payloads, chain),
        index < payloads.len(),
    ensures
        replayed(chain, index) == Ok::<Option<Seq<u8>>, (IoErrorKind, Seq<char>)>(
            Some(payloads[index as int]@),
        ),
{
    lemma_reach_of_encoded(payloads, chain, index, 0);
    lemma_replay_encoded(payloads, chain, index as int);
}

/// The base that a delta of an encoded chain names is the index of a full snapshot at or
/// before it, and no other snapshot lies between.
pub proof fn law_delta_base_is_last_snapshot(
    payloads: Seq<Vec<u8>>,
    chain: Seq<KvChunk>,
    i: int,
    base: u64,
)
    requires
        encodes_chain(payloads, chain),
        0 <= i < chain.len(),
        chain[i].kv_encoding == (KvEncoding::Delta { base_offset: base }),
        chain.len() <= u64::MAX,
    ensures
        base < i,
        chain[base as int].kv_encoding == KvEncoding::Full,
        forall|j: int| base < j <= i ==> (#[trigger] chain[j]).kv_encoding != KvEncoding::Full,
{
    assert(encodes_record(payloads, i, chain[i]));
    assert(base == snapshot_index(i));
    assert(encodes_record(payloads, base as int, chain[base as int]));
    assert forall|j: int| base < j <= i implies (#[trigger] chain[j]).kv_encoding
        != KvEncoding::Full by {
        assert(encodes_record(payloads, j, chain[j]));
    }
}

/// A change has as many bytes as the payload that it leads to. Each byte is the exclusive-or of the
/// bytes there, or the byte alone where the payload before is shorter.
pub proof fn law_change_is_bytewise(base: Seq<u8>, change: Seq<u8>, i: int)
    requires
        0 <= i < change.len(),
    ensures
        xor_onto(base, change).len() == change.len(),
        i < base.len() ==> xor_onto(base, change)[i] == base[i] ^ change[i],
        i >= base.len() ==> xor_onto(base, change)[i] == change[i],
{
}

proof fn lemma_replay_prefix(a: Seq<KvChunk>, b: Seq<KvChunk>, n: int)
    requires
        0 <= n <= a.len(),
        n <= b.len(),
        forall|k: int| 0 <= k < n ==> a[k] == #[trigger] b[k],
    ensures
        replay_state(a, n) == replay_state(b, n),
    decreases n,
{
    if n > 0 {
        lemma_replay_prefix(a, b, n - 1);
        assert(a[n - 1] == b[n - 1]);
    }
}

proof fn lemma_reach(chain: Seq<KvChunk>, target: u64, i: int, n: int)
    requires
        0 <= i <= n <= chain.len(),
        forall|k: int| i <= k < n ==> (#[trigger] chain[k]).token_index <= target,
        n < chain.len() ==> chain[n].token_index > target,
    ensures
        reach_from(chain, target, i) == n,
    decreases n - i,
{
    if i < n {
        lemma_reach(chain, target, i + 1, n);
    }
}

/// A chain is replayed record by record, as far as no record lies behind the target: none gives no
/// payload, a snapshot gives its own payload, a delta changes the payload before it, and gives
/// none where there is none. A delta that cannot be decompressed ends the replay with its failure.
pub proof fn law_replay_goes_record_by_record(chain: Seq<KvChunk>, chunk: KvChunk, target: u64)
    requires
        forall|k: int| 0 <= k < chain.len() ==> (#[trigger] chain[k]).token_index <= target,
        chunk.token_index <= target,
    ensures
        chain.len() == 0 ==> (replayed(chain, target) matches Ok(none) && none is None),
        match replayed(chain, target) {
            Err(failure) => replayed(chain.push(chunk), target) matches Err(f) && f == failure,
            Ok(before) => match chunk.kv_encoding {
                KvEncoding::Full => replayed(chain.push(chunk), target) matches Ok(Some(p)) && p
                    == chunk.payload@,
                KvEncoding::Delta { .. } => match before {
                    None => replayed(chain.push(chunk), target) matches Ok(none) && none is None,
                    Some(previous) => match zstd_decoded(chunk.payload@) {
                        Err(failure) => replayed(chain.push(chunk), target) matches Err(f) && f
                            == failure,
                        Ok(change) => replayed(chain.push(chunk), target) matches Ok(Some(p))
                            && p.len() == change.len() && forall|i: int|
                            0 <= i < p.len() ==> #[trigger] p[i] == (if i < previous.len() {
                                previous[i] ^ change[i]
                            } else {
                                change[i]
                            }),
                    },
                },
            },
        },
{
    let more = chain.push(chunk);
    let n = chain.len() as int;
    lemma_reach(chain, target, 0, n);
    assert forall|k: int| 0 <= k < n + 1 implies (#[trigger] more[k]).token_index <= target by {
        if k < n {
            assert(more[k] == chain[k]);
        }
    }
    lemma_reach(more, target, 0, n + 1);
    lemma_replay_prefix(chain, more, n);
}

/// Records from the first one behind the target on make no difference.
pub proof fn law_later_records_do_not_count(
    chain: Seq<KvChunk>,
    later: Seq<KvChunk>,
    target: u64,
)
    requires
        forall|k: int| 0 <= k < chain.len() ==> (#[trigger] chain[k]).token_index <= target,
        later.len() > 0 ==> later[0].token_index > target,
    ensures
        replayed(chain + later, target) == replayed(chain, target),
{
    let all = chain + later;
    let n = chain.len() as int;
    lemma_reach(chain, target, 0, n);
    assert forall|k: int| 0 <= k < n implies (#[trigger] all[k]).token_index <= target by {
        assert(all[k] == chain[k]);
    }
    if later.len() > 0 {
        assert(all[n] == later[0]);
    }
    lemma_reach(all, target, 0, n);
    lemma_replay_prefix(chain, all, n);
}

/// A chain has one record for each payload, with its index. The records at the indices 0, 1000,
/// 2000 and so on are snapshots that hold their payload; every other one refers to the last of
/// these, and decompresses to as many bytes as its payload has, each the exclusive-or with the byte
/// of the payload before, where that has one.
pub proof fn law_every_thousandth_record_is_a_snapshot(
    payloads: Seq<Vec<u8>>,
    chain: Seq<KvChunk>,
    i: int,
)
    requires
        encodes_chain(payloads, chain),
        0 <= i < payloads.len() <= u64::MAX,
    ensures
        chain.len() == payloads.len(),
        chain[i].token_index == i,
        i % 1000 == 0 ==> chain[i].kv_encoding is Full && chain[i].payload@ == payloads[i]@,
        i % 1000 != 0 ==> (chain[i].kv_encoding matches KvEncoding::Delta { base_offset }
            && base_offset == i - i % 1000),
        i % 1000 != 0 ==> (zstd_decoded(chain[i].payload@) matches Ok(change) && change.len()
            == payloads[i]@.len() && forall|j: int|
            0 <= j < change.len() ==> #[trigger] change[j] == (if j < payloads[i - 1]@.len() {
                payloads[i - 1]@[j] ^ payloads[i]@[j]
            } else {
                payloads[i]@[j]
            })),
{
    assert(encodes_record(payloads, i, chain[i]));
}

} // verus!
