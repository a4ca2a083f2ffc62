//! Record codec: the on-disk frame format.
//!
//! A record is stored as `checksum || key_len || value_len || key || value`,
//! where the three header fields are little-endian `u32` values and the
//! checksum is the CRC-32 (IEEE polynomial) of `key || value`.

use vstd::prelude::*;
use vstd::arithmetic::div_mod::lemma_fundamental_div_mod;
use vstd::arithmetic::div_mod::lemma_div_denominator;

verus! {

/// An in-memory decoded record: one key together with one value.
#[derive(Debug)]
pub struct KeyValuePair {
    pub key: Vec<u8>,
    pub value: Vec<u8>,
}

/// The conditions under which an operation on the log fails.
///
/// `EndOfLog` is not a true error: it marks the clean end of the log,
/// where no byte of a further record is present. `TruncatedRecord`
/// reports a record cut short mid-header or mid-payload, and
/// `ChecksumMismatch` reports a payload that no longer matches its
/// stored checksum; both are fatal corruption conditions.
#[derive(Clone, Copy, Debug, PartialEq, Eq, Structural)]
pub enum StoreError {
    EndOfLog,
    TruncatedRecord,
    ChecksumMismatch,
}

/// The value of four bytes read as a little-endian 32-bit integer.
pub open spec fn u32_of_le(s: Seq<u8>) -> u32
    recommends
        s.len() == 4,
{
    (s[0] + s[1] * 0x100 + s[2] * 0x10000 + s[3] * 0x1000000) as u32
}

/// The four little-endian bytes of a 32-bit integer.
pub open spec fn le_of_u32(v: u32) -> Seq<u8> {
    seq![
        (v % 0x100) as u8,
        ((v / 0x100) % 0x100) as u8,
        ((v / 0x10000) % 0x100) as u8,
        ((v / 0x1000000) % 0x100) as u8,
    ]
}

/// Reading back the little-endian bytes of `v` yields `v` again.
pub proof fn lemma_le_round_trip(v: u32)
    ensures
        le_of_u32(v).len() == 4,
        u32_of_le(le_of_u32(v)) == v,
{
    let a = v as int;
    lemma_fundamental_div_mod(a, 0x100);
    lemma_fundamental_div_mod(a / 0x100, 0x100);
    lemma_fundamental_div_mod(a / 0x10000, 0x100);
    lemma_div_denominator(a, 0x100, 0x100);
    lemma_div_denominator(a, 0x10000, 0x100);
}

/// The CRC-32 (IEEE polynomial) checksum of a byte sequence. The
/// checksum is a pure function of the bytes; its value is fixed by the
/// outside implementation and is not restated here.
pub uninterp spec fn crc32_of(data: Seq<u8>) -> u32;

/// Relies on `crc::Crc::<u32>::checksum` with the `crc::CRC_32_ISO_HDLC`
/// algorithm (the CRC-32 IEEE polynomial): the checksum is computed from
/// the input bytes alone.
#[verifier::external_body]
pub(crate) fn crc32(data: &[u8]) -> (r: u32)
    ensures
        r == crc32_of(data@),
{
    crc::Crc::<u32>::new(&crc::CRC_32_ISO_HDLC).checksum(data)
}

/// The encoded frame for one record: checksum, key length, value
/// length (all little-endian 32-bit), then the key and value bytes.
pub open spec fn frame_bytes(key: Seq<u8>, value: Seq<u8>) -> Seq<u8> {
    le_of_u32(crc32_of(key + value)) + le_of_u32(key.len() as u32) + le_of_u32(value.len() as u32)
        + key + value
}

/// The checksum field of the frame starting at `pos`.
pub open spec fn stored_checksum(log: Seq<u8>, pos: int) -> u32 {
    u32_of_le(log.subrange(pos, pos + 4))
}

/// The key-length field of the frame starting at `pos`.
pub open spec fn stored_key_len(log: Seq<u8>, pos: int) -> u32 {
    u32_of_le(log.subrange(pos + 4, pos + 8))
}

/// The value-length field of the frame starting at `pos`.
pub open spec fn stored_value_len(log: Seq<u8>, pos: int) -> u32 {
    u32_of_le(log.subrange(pos + 8, pos + 12))
}

/// The total byte length of the frame starting at `pos`, as declared
/// by its header: twelve header bytes plus the two payload lengths.
pub open spec fn frame_len(log: Seq<u8>, pos: int) -> int {
    12 + stored_key_len(log, pos) + stored_value_len(log, pos)
}

/// Whether the log holds every byte of the frame starting at `pos`.
pub open spec fn frame_fits(log: Seq<u8>, pos: int) -> bool {
    &&& 0 <= pos
    &&& pos + 12 <= log.len()
    &&& pos + frame_len(log, pos) <= log.len()
}

/// The payload (key bytes followed by value bytes) of the frame at `pos`.
pub open spec fn frame_payload(log: Seq<u8>, pos: int) -> Seq<u8> {
    log.subrange(pos + 12, pos + frame_len(log, pos))
}

/// Whether the stored checksum of the frame at `pos` matches the
/// checksum recomputed over its payload.
pub open spec fn checksum_ok(log: Seq<u8>, pos: int) -> bool {
    stored_checksum(log, pos) == crc32_of(frame_payload(log, pos))
}

/// A frame that fits entirely in the log and whose checksum matches.
pub open spec fn valid_frame(log: Seq<u8>, pos: int) -> bool {
    frame_fits(log, pos) && checksum_ok(log, pos)
}

/// The key bytes of the frame at `pos`.
pub open spec fn frame_key(log: Seq<u8>, pos: int) -> Seq<u8> {
    log.subrange(pos + 12, pos + 12 + stored_key_len(log, pos))
}

/// The value bytes of the frame at `pos`.
pub open spec fn frame_value(log: Seq<u8>, pos: int) -> Seq<u8> {
    log.subrange(pos + 12 + stored_key_len(log, pos), pos + frame_len(log, pos))
}

/// Parsing the frame appended for `key` and `value` at the end of any
/// prefix yields a valid frame holding exactly that key and value.
pub proof fn lemma_frame_parse(pre: Seq<u8>, key: Seq<u8>, value: Seq<u8>)
    requires
        key.len() + value.len() <= u32::MAX,
    ensures
        ({
            let log = pre + frame_bytes(key, value);
            let pos = pre.len() as int;
            &&& frame_bytes(key, value).len() == 12 + key.len() + value.len()
            &&& stored_key_len(log, pos) == key.len()
            &&& stored_value_len(log, pos) == value.len()
            &&& frame_len(log, pos) == 12 + key.len() + value.len()
            &&& frame_fits(log, pos)
            &&& frame_payload(log, pos) == key + value
            &&& stored_checksum(log, pos) == crc32_of(key + value)
            &&& checksum_ok(log, pos)
            &&& valid_frame(log, pos)
            &&& frame_key(log, pos) == key
            &&& frame_value(log, pos) == value
        }),
{
    let log = pre + frame_bytes(key, value);
    let pos = pre.len() as int;
    let kl = key.len() as u32;
    let vl = value.len() as u32;
    lemma_le_round_trip(crc32_of(key + value));
    lemma_le_round_trip(kl);
    lemma_le_round_trip(vl);
    assert(log.subrange(pos, pos + 4) =~= le_of_u32(crc32_of(key + value)));
    assert(log.subrange(pos + 4, pos + 8) =~= le_of_u32(kl));
    assert(log.subrange(pos + 8, pos + 12) =~= le_of_u32(vl));
    assert(frame_payload(log, pos) =~= key + value);
    assert(frame_key(log, pos) =~= key);
    assert(frame_value(log, pos) =~= value);
}

/// Two logs that agree on the bytes of the frame at `pos` parse that
/// frame identically: parsing is local to the frame's own bytes.
pub proof fn lemma_frame_agree(a: Seq<u8>, b: Seq<u8>, pos: int)
    requires
        frame_fits(a, pos),
        pos + frame_len(a, pos) <= b.len(),
        forall|i: int| pos <= i < pos + frame_len(a, pos) ==> b[i] == a[i],
    ensures
        stored_key_len(b, pos) == stored_key_len(a, pos),
        stored_value_len(b, pos) == stored_value_len(a, pos),
        frame_len(b, pos) == frame_len(a, pos),
        frame_fits(b, pos),
        stored_checksum(b, pos) == stored_checksum(a, pos),
        frame_payload(b, pos) == frame_payload(a, pos),
        checksum_ok(b, pos) == checksum_ok(a, pos),
        frame_key(b, pos) == frame_key(a, pos),
        frame_value(b, pos) == frame_value(a, pos),
{
    assert(b.subrange(pos, pos + 4) =~= a.subrange(pos, pos + 4));
    assert(b.subrange(pos + 4, pos + 8) =~= a.subrange(pos + 4, pos + 8));
    assert(b.subrange(pos + 8, pos + 12) =~= a.subrange(pos + 8, pos + 12));
    assert(frame_payload(b, pos) =~= frame_payload(a, pos));
    assert(frame_key(b, pos) =~= frame_key(a, pos));
    assert(frame_value(b, pos) =~= frame_value(a, pos));
}

/// Round trip: the frame encoded for any key and value — empty ones
/// included — is a valid frame that parses back to exactly that key
/// and that value.
pub proof fn lemma_round_trip(key: Seq<u8>, value: Seq<u8>)
    ensures
        key.len() + value.len() <= u32::MAX ==> ({
            let frame = frame_bytes(key, value);
            &&& frame.len() == 12 + key.len() + value.len()
            &&& valid_frame(frame, 0)
            &&& frame_len(frame, 0) == frame.len()
            &&& frame_key(frame, 0) == key
            &&& frame_value(frame, 0) == value
        }),
{
    if key.len() + value.len() <= u32::MAX {
        lemma_frame_parse(Seq::empty(), key, value);
        assert(Seq::<u8>::empty() + frame_bytes(key, value) =~= frame_bytes(key, value));
    }
}

/// Checksum sensitivity, for what the engine itself decides: replacing
/// the payload of an encoded frame by any same-length bytes whose
/// CRC-32 differs — as flipping a payload bit does — leaves a frame
/// that still fits but fails its checksum, so decoding reports
/// `ChecksumMismatch`. That a single flipped bit always changes the
/// CRC-32 is a property of the outside checksum, not restated here.
pub proof fn lemma_tampered_payload_detected(key: Seq<u8>, value: Seq<u8>, payload2: Seq<u8>)
    requires
        key.len() + value.len() <= u32::MAX,
        payload2.len() == key.len() + value.len(),
        crc32_of(payload2) != crc32_of(key + value),
    ensures
        ({
            let tampered = frame_bytes(key, value).subrange(0, 12) + payload2;
            &&& tampered.len() == frame_bytes(key, value).len()
            &&& frame_fits(tampered, 0)
            &&& frame_len(tampered, 0) == tampered.len()
            &&& !checksum_ok(tampered, 0)
            &&& !valid_frame(tampered, 0)
        }),
{
    lemma_frame_parse(Seq::empty(), key, value);
    let frame = frame_bytes(key, value);
    assert(Seq::<u8>::empty() + frame =~= frame);
    let tampered = frame.subrange(0, 12) + payload2;
    assert(tampered.subrange(0, 4) =~= frame.subrange(0, 4));
    assert(tampered.subrange(4, 8) =~= frame.subrange(4, 8));
    assert(tampered.subrange(8, 12) =~= frame.subrange(8, 12));
    assert(frame_payload(tampered, 0) =~= payload2);
}

/// Whether two byte slices hold the same bytes.
pub fn slices_eq(a: &[u8], b: &[u8]) -> (r: bool)
    ensures
        r <==> a@ == b@,
{
    if a.len() != b.len() {
        return false;
    }
    let n = a.len();
    let mut i: usize = 0;
    while i < n
        invariant
            i <= n,
            n == a@.len(),
            n == b@.len(),
            forall|j: int| 0 <= j < i ==> a@[j] == b@[j],
        decreases n - i,
    {
        if a[i] != b[i] {
            return false;
        }
        i = i + 1;
    }
    proof {
        assert(a@ =~= b@);
    }
    true
}

/// An owned copy of a byte slice.
pub fn copy_bytes(src: &[u8]) -> (r: Vec<u8>)
    ensures
        r@ == src@,
{
    copy_range(src, 0, src.len())
}

/// An owned copy of the bytes of `src` from `from` (inclusive) to
/// `to` (exclusive).
pub fn copy_range(src: &[u8], from: usize, to: usize) -> (r: Vec<u8>)
    requires
        from <= to <= src@.len(),
    ensures
        r@ == src@.subrange(from as int, to as int),
{
    let mut r: Vec<u8> = Vec::new();
    let mut i: usize = from;
    while i < to
        invariant
            from <= i <= to <= src@.len(),
            r@ == src@.subrange(from as int, i as int),
        decreases to - i,
    {
        r.push(src[i]);
        proof {
            assert(r@ =~= src@.subrange(from as int, i as int + 1));
        }
        i = i + 1;
    }
    r
}

fn push_bytes(dst: &mut Vec<u8>, src: &[u8])
    ensures
        final(dst)@ == old(dst)@ + src@,
{
    let ghost orig: Seq<u8> = dst@;
    let n = src.len();
    let mut i: usize = 0;
    while i < n
        invariant
            i <= n,
            n == src@.len(),
            dst@ == orig + src@.subrange(0, i as int),
        decreases n - i,
    {
        dst.push(src[i]);
        proof {
            assert(dst@ =~= orig + src@.subrange(0, i as int + 1));
        }
        i = i + 1;
    }
    proof {
        assert(orig + src@.subrange(0, n as int) =~= orig + src@);
    }
}

fn push_u32_le(dst: &mut Vec<u8>, v: u32)
    ensures
        final(dst)@ == old(dst)@ + le_of_u32(v),
{
    let ghost orig: Seq<u8> = dst@;
    dst.push((v % 0x100) as u8);
    dst.push(((v / 0x100) % 0x100) as u8);
    dst.push(((v / 0x10000) % 0x100) as u8);
    dst.push(((v / 0x1000000) % 0x100) as u8);
    proof {
        assert(dst@ =~= orig + le_of_u32(v));
    }
}

fn read_u32_le(log: &[u8], pos: usize) -> (r: u32)
    requires
        pos + 4 <= log@.len(),
    ensures
        r == u32_of_le(log@.subrange(pos as int, pos as int + 4)),
{
    let b0 = log[pos] as u32;
    let b1 = log[pos + 1] as u32;
    let b2 = log[pos + 2] as u32;
    let b3 = log[pos + 3] as u32;
    b0 + b1 * 0x100 + b2 * 0x10000 + b3 * 0x1000000
}

/// Serializes one key/value pair into its on-disk frame.
pub fn encode(key: &[u8], value: &[u8]) -> (r: Vec<u8>)
    requires
        key@.len() + value@.len() <= u32::MAX,
    ensures
        r@ == frame_bytes(key@, value@),
        r@.len() == 12 + key@.len() + value@.len(),
{
    let mut payload: Vec<u8> = Vec::new();
    push_bytes(&mut payload, key);
    push_bytes(&mut payload, value);
    let checksum = crc32(payload.as_slice());

    let mut r: Vec<u8> = Vec::new();
    push_u32_le(&mut r, checksum);
    push_u32_le(&mut r, key.len() as u32);
    push_u32_le(&mut r, value.len() as u32);
    push_bytes(&mut r, key);
    push_bytes(&mut r, value);
    proof {
        assert(r@ =~= frame_bytes(key@, value@));
    }
    r
}

/// Parses the frame starting at byte offset `pos` of `log`, checking
/// its integrity.
///
/// Exactly at the end of the log it reports `EndOfLog` (the clean
/// terminal condition); a frame whose header or payload runs past the
/// end of the log reports `TruncatedRecord`; a complete frame whose
/// recomputed checksum differs from the stored one reports
/// `ChecksumMismatch`; otherwise the decoded pair is returned.
pub fn decode(log: &[u8], pos: usize) -> (r: Result<KeyValuePair, StoreError>)
    ensures
        r == Result::<KeyValuePair, StoreError>::Err(StoreError::EndOfLog) <==> pos >= log@.len(),
        r == Result::<KeyValuePair, StoreError>::Err(StoreError::TruncatedRecord) <==> (pos
            < log@.len() && !frame_fits(log@, pos as int)),
        r == Result::<KeyValuePair, StoreError>::Err(StoreError::ChecksumMismatch) <==> (frame_fits(
            log@,
            pos as int,
        ) && !checksum_ok(log@, pos as int)),
        r is Ok <==> valid_frame(log@, pos as int),
        r is Ok ==> r->Ok_0.key@ == frame_key(log@, pos as int) && r->Ok_0.value@ == frame_value(
            log@,
            pos as int,
        ),
{
    let n = log.len();
    if pos >= n {
        return Err(StoreError::EndOfLog);
    }
    if n - pos < 12 {
        return Err(StoreError::TruncatedRecord);
    }
    let saved_checksum = read_u32_le(log, pos);
    let key_len = read_u32_le(log, pos + 4);
    let value_len = read_u32_le(log, pos + 8);
    let data_len: u64 = key_len as u64 + value_len as u64;
    if ((n - pos - 12) as u64) < data_len {
        return Err(StoreError::TruncatedRecord);
    }
    let data_len_us = data_len as usize;
    let payload = copy_range(log, pos + 12, pos + 12 + data_len_us);
    let checksum = crc32(payload.as_slice());
    if checksum != saved_checksum {
        return Err(StoreError::ChecksumMismatch);
    }
    let key = copy_range(log, pos + 12, pos + 12 + key_len as usize);
    let value = copy_range(log, pos + 12 + key_len as usize, pos + 12 + data_len_us);
    Ok(KeyValuePair { key, value })
}

} // verus!
