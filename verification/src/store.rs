//! The engine: an in-memory image of the append-only log, together
//! with the index built from it by replay.
//!
//! The log is a byte sequence holding encoded records back to back.
//! Opening hands the engine the log's current bytes; `load` replays
//! them into the index; the write operations append a frame to the log
//! image and update the index. Reading the log file and persisting
//! appended frames are the caller's concern.

use vstd::prelude::*;
use crate::codec;
use crate::codec::KeyValuePair;
use crate::codec::StoreError;
use crate::codec::frame_bytes;
use crate::codec::frame_fits;
use crate::codec::frame_len;
use crate::codec::frame_key;
use crate::codec::frame_value;
use crate::codec::checksum_ok;
use crate::codec::valid_frame;
use crate::index::Index;

verus! {

/// The index that replay builds from `log`, starting at `pos` with the
/// entries of `acc` already in place: records are decoded back to
/// back, each setting its key's offset, until the clean end of the log
/// (`Ok`) or the first corrupt record (`Err`).
pub open spec fn replay_from(log: Seq<u8>, pos: int, acc: Map<Seq<u8>, u64>) -> Result<
    Map<Seq<u8>, u64>,
    StoreError,
>
    decreases log.len() - pos,
{
    if pos < 0 || pos > log.len() {
        Err(StoreError::TruncatedRecord)
    } else if pos == log.len() {
        Ok(acc)
    } else if !frame_fits(log, pos) {
        Err(StoreError::TruncatedRecord)
    } else if !checksum_ok(log, pos) {
        Err(StoreError::ChecksumMismatch)
    } else {
        replay_from(log, pos + frame_len(log, pos), acc.insert(frame_key(log, pos), pos as u64))
    }
}

/// The index described by a full replay of `log`.
pub open spec fn replay(log: Seq<u8>) -> Result<Map<Seq<u8>, u64>, StoreError> {
    replay_from(log, 0, Map::empty())
}

/// The log after appending one record for `key` and `value`.
pub open spec fn spec_insert_log(log: Seq<u8>, key: Seq<u8>, value: Seq<u8>) -> Seq<u8> {
    log + frame_bytes(key, value)
}

/// The index after recording that `key`'s latest record starts at the
/// end of `log`.
pub open spec fn spec_insert_index(log: Seq<u8>, m: Map<Seq<u8>, u64>, key: Seq<u8>) -> Map<
    Seq<u8>,
    u64,
> {
    m.insert(key, log.len() as u64)
}

/// What a lookup returns: the value of the key's latest record, or
/// `None` for a key the index does not hold.
pub open spec fn spec_get(log: Seq<u8>, m: Map<Seq<u8>, u64>, key: Seq<u8>) -> Option<Seq<u8>> {
    if m.contains_key(key) {
        Some(frame_value(log, m[key] as int))
    } else {
        None
    }
}

/// Every entry of `m` points at a valid frame of `log` whose key is
/// the entry's own key.
pub open spec fn index_ok(log: Seq<u8>, m: Map<Seq<u8>, u64>) -> bool {
    forall|k: Seq<u8>| #[trigger] m.contains_key(k) ==> valid_frame(log, m[k] as int) && frame_key(
        log,
        m[k] as int,
    ) == k
}

/// A replay that succeeds hands back an index whose every entry points
/// at a valid frame carrying that entry's key.
pub proof fn lemma_replay_index_ok(log: Seq<u8>, pos: int, acc: Map<Seq<u8>, u64>)
    requires
        0 <= pos <= log.len(),
        log.len() <= u64::MAX,
        replay_from(log, pos, acc) is Ok,
        index_ok(log, acc),
    ensures
        index_ok(log, replay_from(log, pos, acc)->Ok_0),
    decreases log.len() - pos,
{
    if pos == log.len() {
    } else {
        let acc2 = acc.insert(frame_key(log, pos), pos as u64);
        assert forall|k: Seq<u8>| #[trigger] acc2.contains_key(k) implies valid_frame(
            log,
            acc2[k] as int,
        ) && frame_key(log, acc2[k] as int) == k by {
            if k != frame_key(log, pos) {
                assert(acc.contains_key(k));
            }
        }
        lemma_replay_index_ok(log, pos + frame_len(log, pos), acc2);
    }
}

/// Appending one encoded record to a log that replays cleanly yields a
/// log that still replays cleanly, with the one index change that the
/// appended record's key now points at the old end of the log.
pub proof fn lemma_replay_append(
    log: Seq<u8>,
    key: Seq<u8>,
    value: Seq<u8>,
    pos: int,
    acc: Map<Seq<u8>, u64>,
)
    requires
        0 <= pos <= log.len(),
        log.len() + 12 + key.len() + value.len() <= u64::MAX,
        key.len() + value.len() <= u32::MAX,
        replay_from(log, pos, acc) is Ok,
    ensures
        replay_from(spec_insert_log(log, key, value), pos, acc) == Ok::<
            Map<Seq<u8>, u64>,
            StoreError,
        >(replay_from(log, pos, acc)->Ok_0.insert(key, log.len() as u64)),
    decreases log.len() - pos,
{
    let log2 = spec_insert_log(log, key, value);
    codec::lemma_frame_parse(log, key, value);
    if pos == log.len() {
        assert(valid_frame(log2, pos));
        let acc2 = acc.insert(key, pos as u64);
        assert(pos + frame_len(log2, pos) == log2.len());
        assert(replay_from(log2, pos, acc) == replay_from(log2, log2.len() as int, acc2));
        assert(replay_from(log2, log2.len() as int, acc2) == Ok::<Map<Seq<u8>, u64>, StoreError>(
            acc2,
        ));
    } else {
        assert(frame_fits(log, pos));
        assert(forall|i: int| pos <= i < pos + frame_len(log, pos) ==> log2[i] == log[i]);
        codec::lemma_frame_agree(log, log2, pos);
        lemma_replay_append(
            log,
            key,
            value,
            pos + frame_len(log, pos),
            acc.insert(frame_key(log, pos), pos as u64),
        );
    }
}

proof fn lemma_truncated_replay(log: Seq<u8>, t: int, pos: int, acc: Map<Seq<u8>, u64>)
    requires
        1 <= t <= 3,
        0 <= pos < log.len(),
        log.len() <= u64::MAX,
        replay_from(log, pos, acc) is Ok,
    ensures
        replay_from(log.subrange(0, log.len() - t), pos, acc) == Err::<
            Map<Seq<u8>, u64>,
            StoreError,
        >(StoreError::TruncatedRecord),
    decreases log.len() - pos,
{
    let n = log.len() as int;
    let tr = log.subrange(0, n - t);
    assert(frame_fits(log, pos));
    let fl = frame_len(log, pos);
    let next = pos + fl;
    if next == n {
        if pos + 12 <= n - t {
            assert(tr.subrange(pos + 4, pos + 8) =~= log.subrange(pos + 4, pos + 8));
            assert(tr.subrange(pos + 8, pos + 12) =~= log.subrange(pos + 8, pos + 12));
            assert(frame_len(tr, pos) == fl);
            assert(!frame_fits(tr, pos));
        } else {
            assert(!frame_fits(tr, pos));
        }
    } else {
        let acc2 = acc.insert(frame_key(log, pos), pos as u64);
        assert(replay_from(log, pos, acc) == replay_from(log, next, acc2));
        assert(replay_from(log, next, acc2) is Ok);
        assert(frame_fits(log, next));
        assert(next <= n - t);
        assert(forall|i: int| pos <= i < pos + fl ==> tr[i] == log[i]);
        codec::lemma_frame_agree(log, tr, pos);
        lemma_truncated_replay(log, t, next, acc2);
    }
}

/// Truncation detection: cutting one to three bytes off the end of a
/// non-empty log that replays cleanly leaves a log whose replay — and
/// so any load of it — fails with `TruncatedRecord`, never silently
/// succeeding with a partial index.
pub proof fn lemma_truncation_detected(log: Seq<u8>, t: int)
    requires
        1 <= t <= 3,
        log.len() > 0,
        log.len() <= u64::MAX,
        replay(log) is Ok,
    ensures
        replay(log.subrange(0, log.len() - t)) == Err::<Map<Seq<u8>, u64>, StoreError>(
            StoreError::TruncatedRecord,
        ),
{
    lemma_truncated_replay(log, t, 0, Map::empty());
}

/// The key-value engine: the log's byte image and the derived index.
pub struct BaseKV {
    log: Vec<u8>,
    pub index: Index,
}

impl BaseKV {
    /// The bytes of the log image.
    pub closed spec fn log_view(self) -> Seq<u8> {
        self.log@
    }

    /// The key-to-offset mapping of the index.
    pub closed spec fn index_view(self) -> Map<Seq<u8>, u64> {
        self.index@
    }

    /// Whether the index's own invariant holds.
    pub closed spec fn index_wf(self) -> bool {
        self.index.wf()
    }

    /// The engine's invariant once loaded: the index is well formed
    /// and is exactly what replaying the log yields.
    pub open spec fn wf(self) -> bool {
        &&& self.index_wf()
        &&& replay(self.log_view()) == Ok::<Map<Seq<u8>, u64>, StoreError>(self.index_view())
    }

    /// Takes ownership of the log's current bytes, with an empty index
    /// pending replay.
    pub fn open(contents: Vec<u8>) -> (r: BaseKV)
        ensures
            r.log_view() == contents@,
            r.index_view() == Map::<Seq<u8>, u64>::empty(),
            r.index_wf(),
    {
        BaseKV { log: contents, index: Index::new() }
    }

    /// Populates the index by a full replay of the log.
    ///
    /// Replay ends cleanly at the end of the log; a truncated or
    /// corrupt record aborts the load with the decode error, and the
    /// engine must not be used further.
    pub fn load(&mut self) -> (r: Result<(), StoreError>)
        requires
            old(self).index_view() == Map::<Seq<u8>, u64>::empty(),
            old(self).index_wf(),
        ensures
            final(self).log_view() == old(self).log_view(),
            r is Ok <==> replay(old(self).log_view()) is Ok,
            r is Ok ==> final(self).wf(),
            r matches Err(e) ==> replay(old(self).log_view()) == Err::<
                Map<Seq<u8>, u64>,
                StoreError,
            >(e),
    {
        let ghost log0 = self.log@;
        let mut pos: usize = 0;
        #[verifier::loop_isolation(false)]
        loop
            invariant
                pos <= self.log@.len(),
                self.log@ == log0,
                self.index.wf(),
                replay_from(log0, pos as int, self.index@) == replay(log0),
            decreases self.log@.len() - pos,
        {
            match codec::decode(self.log.as_slice(), pos) {
                Ok(kv) => {
                    proof {
                        assert(self.log.len() == log0.len());
                        assert(kv.key@.len() == codec::stored_key_len(log0, pos as int));
                        assert(kv.value@.len() == codec::stored_value_len(log0, pos as int));
                        assert(pos + frame_len(log0, pos as int) <= log0.len());
                    }
                    let key_len = kv.key.len();
                    let value_len = kv.value.len();
                    self.index.upsert(kv.key, pos as u64);
                    pos = pos + 12 + key_len + value_len;
                },
                Err(StoreError::EndOfLog) => {
                    return Ok(());
                },
                Err(e) => {
                    return Err(e);
                },
            }
        }
    }

    /// Decodes the single record starting at byte offset `position`.
    ///
    /// At or past the end of the log this reports `EndOfLog`, which is
    /// an error here: a requested record must be present in full.
    pub fn get_at(&self, position: u64) -> (r: Result<KeyValuePair, StoreError>)
        ensures
            r == Result::<KeyValuePair, StoreError>::Err(StoreError::EndOfLog) <==> position
                >= self.log_view().len(),
            r == Result::<KeyValuePair, StoreError>::Err(StoreError::TruncatedRecord) <==> (position
                < self.log_view().len() && !frame_fits(self.log_view(), position as int)),
            r == Result::<KeyValuePair, StoreError>::Err(StoreError::ChecksumMismatch) <==> (
            frame_fits(self.log_view(), position as int) && !checksum_ok(
                self.log_view(),
                position as int,
            )),
            r is Ok <==> valid_frame(self.log_view(), position as int),
            r is Ok ==> r->Ok_0.key@ == frame_key(self.log_view(), position as int)
                && r->Ok_0.value@ == frame_value(self.log_view(), position as int),
    {
        let n = self.log.len();
        if position >= n as u64 {
            return Err(StoreError::EndOfLog);
        }
        codec::decode(self.log.as_slice(), position as usize)
    }

    /// The byte length of the log image: the offset at which the next
    /// appended record will land.
    pub fn log_len(&self) -> (r: usize)
        ensures
            r == self.log_view().len(),
    {
        self.log.len()
    }

    /// Looks the key up in the index and, when it is present, decodes
    /// the record at the recorded offset and returns its value.
    ///
    /// An absent key yields `Ok(None)` — not an error. For a present
    /// key the loaded engine's invariant guarantees that the offset
    /// decodes, so the latest value for the key is returned.
    pub fn get(&self, key: &[u8]) -> (r: Result<Option<Vec<u8>>, StoreError>)
        requires
            self.wf(),
        ensures
            r is Ok,
            r->Ok_0 is Some <==> self.index_view().contains_key(key@),
            r->Ok_0 is Some ==> Some(r->Ok_0->Some_0@) == spec_get(
                self.log_view(),
                self.index_view(),
                key@,
            ),
    {
        match self.index.lookup(key) {
            None => Ok(None),
            Some(position) => {
                proof {
                    assert(self.log.len() == self.log@.len());
                    lemma_replay_index_ok(self.log@, 0, Map::empty());
                    assert(self.index@.contains_key(key@));
                }
                match self.get_at(position) {
                    Ok(kv) => Ok(Some(kv.value)),
                    Err(e) => {
                        proof {
                            assert(false);
                        }
                        Err(e)
                    },
                }
            },
        }
    }

    fn insert_but_ignore_index(&mut self, key: &[u8], value: &[u8]) -> (r: u64)
        requires
            key@.len() + value@.len() <= u32::MAX,
            old(self).log_view().len() + 12 + key@.len() + value@.len() <= usize::MAX,
        ensures
            final(self).log_view() == spec_insert_log(old(self).log_view(), key@, value@),
            final(self).index == old(self).index,
            r == old(self).log_view().len() as u64,
    {
        let position = self.log.len() as u64;
        let mut frame = codec::encode(key, value);
        self.log.append(&mut frame);
        position
    }

    /// Appends a record for the key and value at the end of the log
    /// and points the index at it; the record's offset is the log
    /// length before the append. This is the sole write primitive.
    pub fn insert(&mut self, key: &[u8], value: &[u8])
        requires
            old(self).wf(),
            key@.len() + value@.len() <= u32::MAX,
            old(self).log_view().len() + 12 + key@.len() + value@.len() <= usize::MAX,
        ensures
            final(self).wf(),
            final(self).log_view() == spec_insert_log(old(self).log_view(), key@, value@),
            final(self).index_view() == spec_insert_index(
                old(self).log_view(),
                old(self).index_view(),
                key@,
            ),
    {
        proof {
            assert(self.log.len() == self.log@.len());
            lemma_replay_append(self.log@, key@, value@, 0, Map::empty());
        }
        let position = self.insert_but_ignore_index(key, value);
        let owned = codec::copy_bytes(key);
        self.index.upsert(owned, position);
    }

    /// Appends a record whose value is empty — the tombstone shape —
    /// and points the index at it. A later lookup of the key returns
    /// the empty value, not "not found": deletion and an explicit
    /// empty-value insert are indistinguishable.
    pub fn delete(&mut self, key: &[u8])
        requires
            old(self).wf(),
            key@.len() <= u32::MAX,
            old(self).log_view().len() + 12 + key@.len() <= usize::MAX,
        ensures
            final(self).wf(),
            final(self).log_view() == spec_insert_log(
                old(self).log_view(),
                key@,
                Seq::<u8>::empty(),
            ),
            final(self).index_view() == spec_insert_index(
                old(self).log_view(),
                old(self).index_view(),
                key@,
            ),
    {
        let empty: Vec<u8> = Vec::new();
        self.insert(key, empty.as_slice());
    }

    /// Identical to `insert`: the key's history is irrelevant and no
    /// existence check is made.
    pub fn update(&mut self, key: &[u8], value: &[u8])
        requires
            old(self).wf(),
            key@.len() + value@.len() <= u32::MAX,
            old(self).log_view().len() + 12 + key@.len() + value@.len() <= usize::MAX,
        ensures
            final(self).wf(),
            final(self).log_view() == spec_insert_log(old(self).log_view(), key@, value@),
            final(self).index_view() == spec_insert_index(
                old(self).log_view(),
                old(self).index_view(),
                key@,
            ),
    {
        self.insert(key, value);
    }
}

/// Replay idempotence: two loaded engines holding the same log bytes
/// hold the same index mapping — the index is a function of the log.
pub proof fn lemma_replay_deterministic(s1: &BaseKV, s2: &BaseKV)
    requires
        s1.wf(),
        s2.wf(),
        s1.log_view() == s2.log_view(),
    ensures
        s1.index_view() == s2.index_view(),
{
}

/// Last write wins: after a record for `key` with value `a` and then
/// one with value `b`, the log still replays cleanly, the index holds
/// exactly one offset for `key` — that of the second record — and a
/// lookup of `key` yields `b`.
pub proof fn lemma_last_write_wins(
    log: Seq<u8>,
    m: Map<Seq<u8>, u64>,
    key: Seq<u8>,
    a: Seq<u8>,
    b: Seq<u8>,
)
    requires
        replay(log) == Ok::<Map<Seq<u8>, u64>, StoreError>(m),
        key.len() + a.len() <= u32::MAX,
        key.len() + b.len() <= u32::MAX,
        log.len() + 24 + key.len() + a.len() + key.len() + b.len() <= u64::MAX,
    ensures
        ({
            let log1 = spec_insert_log(log, key, a);
            let m1 = spec_insert_index(log, m, key);
            let log2 = spec_insert_log(log1, key, b);
            let m2 = spec_insert_index(log1, m1, key);
            &&& replay(log2) == Ok::<Map<Seq<u8>, u64>, StoreError>(m2)
            &&& m2[key] == log1.len() as u64
            &&& spec_get(log2, m2, key) == Some(b)
        }),
{
    let log1 = spec_insert_log(log, key, a);
    lemma_replay_append(log, key, a, 0, Map::empty());
    lemma_replay_append(log1, key, b, 0, Map::empty());
    codec::lemma_frame_parse(log1, key, b);
}

/// Delete then get: deleting a key right after inserting it leaves a
/// log on which a lookup of the key yields the empty value — present,
/// not "not found".
pub proof fn lemma_delete_then_get(log: Seq<u8>, m: Map<Seq<u8>, u64>, key: Seq<u8>, v: Seq<u8>)
    requires
        replay(log) == Ok::<Map<Seq<u8>, u64>, StoreError>(m),
        key.len() + v.len() <= u32::MAX,
        log.len() + 24 + key.len() + v.len() + key.len() <= u64::MAX,
    ensures
        ({
            let log1 = spec_insert_log(log, key, v);
            let m1 = spec_insert_index(log, m, key);
            let log2 = spec_insert_log(log1, key, Seq::<u8>::empty());
            let m2 = spec_insert_index(log1, m1, key);
            &&& replay(log2) == Ok::<Map<Seq<u8>, u64>, StoreError>(m2)
            &&& spec_get(log2, m2, key) == Some(Seq::<u8>::empty())
        }),
{
    lemma_last_write_wins(log, m, key, v, Seq::<u8>::empty());
}

/// The log image holding the given records encoded back to back,
/// starting from an empty log.
pub open spec fn log_of_pairs(ps: Seq<(Seq<u8>, Seq<u8>)>) -> Seq<u8>
    decreases ps.len(),
{
    if ps.len() == 0 {
        Seq::empty()
    } else {
        log_of_pairs(ps.drop_last()) + frame_bytes(ps.last().0, ps.last().1)
    }
}

/// The offset at which the record numbered `i` (from zero) lands when
/// the records are inserted in order on a fresh empty log: the log
/// length just before that insert.
pub open spec fn offset_of_record(ps: Seq<(Seq<u8>, Seq<u8>)>, i: int) -> int {
    log_of_pairs(ps.subrange(0, i)).len() as int
}

/// The summed encoded sizes of the records numbered below `i`.
pub open spec fn sum_of_sizes(ps: Seq<(Seq<u8>, Seq<u8>)>, i: int) -> int
    decreases i,
{
    if i <= 0 {
        0
    } else {
        sum_of_sizes(ps, i - 1) + 12 + ps[i - 1].0.len() + ps[i - 1].1.len()
    }
}

/// One more insert extends the modelled log exactly as `insert`'s
/// contract extends the engine's log.
pub proof fn lemma_log_of_pairs_push(ps: Seq<(Seq<u8>, Seq<u8>)>, key: Seq<u8>, value: Seq<u8>)
    ensures
        log_of_pairs(ps.push((key, value))) == spec_insert_log(log_of_pairs(ps), key, value),
{
    assert(ps.push((key, value)).drop_last() =~= ps);
}

/// The index that results from inserting the given records in order on
/// a fresh empty log: each key maps to the offset of its last record.
pub open spec fn index_of_pairs(ps: Seq<(Seq<u8>, Seq<u8>)>) -> Map<Seq<u8>, u64>
    decreases ps.len(),
{
    if ps.len() == 0 {
        Map::empty()
    } else {
        index_of_pairs(ps.drop_last()).insert(
            ps.last().0,
            offset_of_record(ps, ps.len() - 1) as u64,
        )
    }
}

/// Replaying the log built by inserting records in order on a fresh
/// empty log yields exactly the index of those inserts — and that
/// index holds no key that was never inserted, so looking such a key
/// up answers "not found" rather than an error or an empty value.
pub proof fn lemma_replay_of_inserts(ps: Seq<(Seq<u8>, Seq<u8>)>)
    requires
        forall|i: int| 0 <= i < ps.len() ==> (#[trigger] ps[i]).0.len() + ps[i].1.len()
            <= u32::MAX,
        log_of_pairs(ps).len() <= u64::MAX,
    ensures
        replay(log_of_pairs(ps)) == Ok::<Map<Seq<u8>, u64>, StoreError>(index_of_pairs(ps)),
        forall|k: Seq<u8>| #[trigger] index_of_pairs(ps).contains_key(k) ==> exists|i: int|
            0 <= i < ps.len() && (#[trigger] ps[i]).0 == k,
    decreases ps.len(),
{
    if ps.len() == 0 {
        assert(replay(log_of_pairs(ps)) == Ok::<Map<Seq<u8>, u64>, StoreError>(Map::empty()));
    } else {
        let ps0 = ps.drop_last();
        let key = ps.last().0;
        let value = ps.last().1;
        assert(log_of_pairs(ps0).len() <= log_of_pairs(ps).len());
        lemma_replay_of_inserts(ps0);
        lemma_replay_append(log_of_pairs(ps0), key, value, 0, Map::empty());
        assert(ps.subrange(0, ps.len() - 1) =~= ps0);
        assert forall|k: Seq<u8>| #[trigger] index_of_pairs(ps).contains_key(k) implies exists|
            i: int,
        | 0 <= i < ps.len() && (#[trigger] ps[i]).0 == k by {
            if k == key {
                assert(ps[ps.len() - 1].0 == k);
            } else {
                assert(index_of_pairs(ps0).contains_key(k));
                let i = choose|i: int| 0 <= i < ps0.len() && (#[trigger] ps0[i]).0 == k;
                assert(ps[i].0 == k);
            }
        }
    }
}

proof fn lemma_offset_step(ps: Seq<(Seq<u8>, Seq<u8>)>, i: int)
    requires
        0 <= i < ps.len(),
    ensures
        offset_of_record(ps, i + 1) == offset_of_record(ps, i) + 12 + ps[i].0.len()
            + ps[i].1.len(),
{
    assert(ps.subrange(0, i + 1).drop_last() =~= ps.subrange(0, i));
    assert(ps.subrange(0, i + 1).last() == ps[i]);
}

proof fn lemma_offset_is_sum(ps: Seq<(Seq<u8>, Seq<u8>)>, i: int)
    requires
        0 <= i <= ps.len(),
    ensures
        offset_of_record(ps, i) == sum_of_sizes(ps, i),
    decreases i,
{
    if i == 0 {
        assert(ps.subrange(0, 0) =~= Seq::<(Seq<u8>, Seq<u8>)>::empty());
    } else {
        lemma_offset_is_sum(ps, i - 1);
        lemma_offset_step(ps, i - 1);
    }
}

/// Offset monotonicity: for records inserted in order on a fresh empty
/// log, each record's offset equals the summed encoded sizes of all
/// records before it, and the offsets are strictly increasing.
pub proof fn lemma_offsets_monotonic(ps: Seq<(Seq<u8>, Seq<u8>)>, i: int, j: int)
    requires
        0 <= i < j <= ps.len(),
    ensures
        offset_of_record(ps, i) == sum_of_sizes(ps, i),
        offset_of_record(ps, j) == sum_of_sizes(ps, j),
        offset_of_record(ps, i) < offset_of_record(ps, j),
    decreases j - i,
{
    lemma_offset_is_sum(ps, i);
    lemma_offset_is_sum(ps, j);
    lemma_offset_step(ps, j - 1);
    if i < j - 1 {
        lemma_offsets_monotonic(ps, i, j - 1);
    }
}

} // verus!
