//! The mathematical model of a log segment: what replaying its frames in
//! file order yields.
//!
//! [`replay_from`] walks the frames of a byte sequence, applying each
//! record to an index per the index update rule — a live record maps its
//! key to the frame's starting offset, a tombstone erases the key — and
//! stops at the first position where no frame decodes (the end of the log,
//! or a torn tail). [`log_state`] derives from the index the logical
//! contents of the log: each live key mapped to the value stored in its
//! record. The lemmas below are what the engine's operations rest on:
//! appending a frame updates the state pointwise, every index offset holds
//! a live record for its key, frames never overlap, and a log truncated at
//! the point where replay stopped replays to the same state.

use vstd::prelude::*;
use crate::codec::{
    encodable, lemma_decode_frame_agree, lemma_decode_frame_at_append, lemma_decode_frame_inverts,
    lemma_frame_len, spec_decode_frame, spec_frame, spec_frame_len, EntryView, Tag,
};

verus! {

/// How the record `e`, found at offset `pos`, changes the index.
pub open spec fn apply_record(m: Map<Seq<char>, u64>, e: EntryView, pos: u64) -> Map<
    Seq<char>,
    u64,
> {
    match e.tag {
        Tag::Normal => m.insert(e.key, pos),
        Tag::Deleted => m.remove(e.key),
    }
}

/// Replays frames from `pos` on, starting from the index `m`. Returns the
/// final index together with the position at which decoding first failed.
pub open spec fn replay_from(log: Seq<u8>, pos: int, m: Map<Seq<char>, u64>) -> (Map<
    Seq<char>,
    u64,
>, int)
    decreases log.len() - pos,
{
    if pos < 0 || pos > log.len() {
        (m, pos)
    } else {
        match spec_decode_frame(log, pos) {
            None => (m, pos),
            Some((e, l)) => if l < 13 || pos + l > log.len() {
                (m, pos)
            } else {
                replay_from(log, pos + l, apply_record(m, e, pos as u64))
            },
        }
    }
}

/// Whether `p` is one of the frame boundaries that a replay starting at
/// `pos` visits.
pub open spec fn is_replay_pos(log: Seq<u8>, pos: int, p: int) -> bool
    decreases log.len() - pos,
{
    if pos == p {
        true
    } else if pos < 0 || pos > log.len() {
        false
    } else {
        match spec_decode_frame(log, pos) {
            None => false,
            Some((e, l)) => if l < 13 || pos + l > log.len() {
                false
            } else {
                is_replay_pos(log, pos + l, p)
            },
        }
    }
}

/// The index obtained by replaying the whole log from its start.
pub open spec fn replay_index(log: Seq<u8>) -> Map<Seq<char>, u64> {
    replay_from(log, 0, Map::empty()).0
}

/// The position at which a whole-log replay stops.
pub open spec fn replay_end(log: Seq<u8>) -> int {
    replay_from(log, 0, Map::empty()).1
}

/// A log is clean when replay consumes every byte: no torn or malformed
/// tail.
pub open spec fn clean_log(log: Seq<u8>) -> bool {
    replay_end(log) == log.len()
}

/// The value held by the record at offset `pos` (meaningful only where a
/// frame decodes).
pub open spec fn value_at(log: Seq<u8>, pos: u64) -> Seq<char> {
    match spec_decode_frame(log, pos as int) {
        Some((e, l)) => e.value,
        None => Seq::empty(),
    }
}

/// The logical contents of a log: every live key, mapped to the value of
/// its most recent record.
pub open spec fn log_state(log: Seq<u8>) -> Map<Seq<char>, Seq<char>> {
    Map::new(
        |k: Seq<char>| replay_index(log).contains_key(k),
        |k: Seq<char>| value_at(log, replay_index(log)[k]),
    )
}

/// Whether the record at `p` is a live record for key `k`.
pub open spec fn live_record_at(log: Seq<u8>, k: Seq<char>, p: int) -> bool {
    match spec_decode_frame(log, p) {
        Some((e, l)) => e.key == k && e.tag == Tag::Normal,
        None => false,
    }
}

/// A replay only moves forward, and never past the end of the log.
pub proof fn lemma_replay_from_bounds(log: Seq<u8>, pos: int, m: Map<Seq<char>, u64>)
    requires
        0 <= pos <= log.len(),
    ensures
        pos <= replay_from(log, pos, m).1 <= log.len(),
        spec_decode_frame(log, replay_from(log, pos, m).1) is None,
    decreases log.len() - pos,
{
    match spec_decode_frame(log, pos) {
        None => {},
        Some((e, l)) => {
            lemma_decode_frame_inverts(log, pos);
            lemma_replay_from_bounds(log, pos + l, apply_record(m, e, pos as u64));
        },
    }
}

/// The position where a replay stops does not depend on the index it
/// started from.
pub proof fn lemma_replay_end_ignores_index(
    log: Seq<u8>,
    pos: int,
    m1: Map<Seq<char>, u64>,
    m2: Map<Seq<char>, u64>,
)
    ensures
        replay_from(log, pos, m1).1 == replay_from(log, pos, m2).1,
    decreases log.len() - pos,
{
    if 0 <= pos <= log.len() {
        match spec_decode_frame(log, pos) {
            None => {},
            Some((e, l)) => {
                lemma_decode_frame_inverts(log, pos);
                lemma_replay_end_ignores_index(
                    log,
                    pos + l,
                    apply_record(m1, e, pos as u64),
                    apply_record(m2, e, pos as u64),
                );
            },
        }
    }
}

/// Replaying from a later frame boundary stops at the same place as the
/// replay that reached it.
pub proof fn lemma_replay_end_from_mid(
    log: Seq<u8>,
    pos: int,
    p: int,
    m1: Map<Seq<char>, u64>,
    m2: Map<Seq<char>, u64>,
)
    requires
        is_replay_pos(log, pos, p),
    ensures
        replay_from(log, p, m2).1 == replay_from(log, pos, m1).1,
    decreases log.len() - pos,
{
    if pos == p {
        lemma_replay_end_ignores_index(log, pos, m1, m2);
    } else {
        let (e, l) = spec_decode_frame(log, pos).unwrap();
        lemma_replay_end_from_mid(log, pos + l, p, apply_record(m1, e, pos as u64), m2);
    }
}

/// Every frame boundary reached from a frame boundary is itself reached
/// from the start.
pub proof fn lemma_replay_pos_trans(log: Seq<u8>, a: int, b: int, c: int)
    requires
        is_replay_pos(log, a, b),
        is_replay_pos(log, b, c),
    ensures
        is_replay_pos(log, a, c),
    decreases log.len() - a,
{
    if a != b {
        let (e, l) = spec_decode_frame(log, a).unwrap();
        lemma_replay_pos_trans(log, a + l, b, c);
    }
}

/// Frame boundaries only lie forward of the position they are reached from.
pub proof fn lemma_replay_pos_lower(log: Seq<u8>, pos: int, p: int)
    requires
        is_replay_pos(log, pos, p),
    ensures
        pos <= p,
    decreases log.len() - pos,
{
    if pos != p {
        let (e, l) = spec_decode_frame(log, pos).unwrap();
        lemma_replay_pos_lower(log, pos + l, p);
    }
}

/// Frame boundaries never lie past the end of the log.
pub proof fn lemma_replay_pos_upper(log: Seq<u8>, pos: int, p: int)
    requires
        is_replay_pos(log, pos, p),
        pos <= log.len(),
    ensures
        p <= log.len(),
    decreases log.len() - pos,
{
    if pos != p {
        let (e, l) = spec_decode_frame(log, pos).unwrap();
        lemma_replay_pos_upper(log, pos + l, p);
    }
}

/// Frames met during one replay never overlap: of two distinct frame
/// boundaries, the earlier one's whole frame lies before the later one.
pub proof fn lemma_replay_pos_disjoint(log: Seq<u8>, pos: int, p1: int, p2: int)
    requires
        is_replay_pos(log, pos, p1),
        is_replay_pos(log, pos, p2),
        p1 < p2,
    ensures
        spec_decode_frame(log, p1) is Some,
        p1 + spec_decode_frame(log, p1).unwrap().1 <= p2,
    decreases log.len() - pos,
{
    lemma_replay_pos_lower(log, pos, p1);
    if pos == p1 {
        let (e, l) = spec_decode_frame(log, pos).unwrap();
        lemma_replay_pos_lower(log, pos + l, p2);
    } else {
        let (e, l) = spec_decode_frame(log, pos).unwrap();
        lemma_replay_pos_disjoint(log, pos + l, p1, p2);
    }
}

/// The position where a replay stops is itself a frame boundary.
pub proof fn lemma_replay_end_is_pos(log: Seq<u8>, pos: int, m: Map<Seq<char>, u64>)
    requires
        0 <= pos <= log.len(),
    ensures
        is_replay_pos(log, pos, replay_from(log, pos, m).1),
    decreases log.len() - pos,
{
    match spec_decode_frame(log, pos) {
        None => {},
        Some((e, l)) => {
            lemma_decode_frame_inverts(log, pos);
            lemma_replay_end_is_pos(log, pos + l, apply_record(m, e, pos as u64));
        },
    }
}

/// Appending one frame to a fully replayed log extends the replay by
/// exactly that record: the index picks up its update, and the replay now
/// stops at the new end.
pub proof fn lemma_replay_append(log: Seq<u8>, pos: int, m: Map<Seq<char>, u64>, e: EntryView)
    requires
        0 <= pos <= log.len(),
        log.len() <= u64::MAX,
        replay_from(log, pos, m).1 == log.len(),
        encodable(e),
    ensures
        replay_from(log + spec_frame(e), pos, m) == (
            apply_record(replay_from(log, pos, m).0, e, log.len() as u64),
            log.len() + spec_frame_len(e),
        ),
    decreases log.len() - pos,
{
    lemma_frame_len(e);
    let log2 = log + spec_frame(e);
    match spec_decode_frame(log, pos) {
        None => {
            assert(replay_from(log, pos, m) == (m, pos));
            assert(pos == log.len());
            lemma_decode_frame_at_append(log, e);
            assert(spec_decode_frame(log2, pos) == Some((e, spec_frame_len(e))));
            assert(pos + spec_frame_len(e) == log2.len());
            assert(replay_from(log2, pos, m) == replay_from(
                log2,
                log2.len() as int,
                apply_record(m, e, pos as u64),
            ));
        },
        Some((e1, l1)) => {
            lemma_decode_frame_inverts(log, pos);
            assert(log2.subrange(pos, pos + l1) =~= log.subrange(pos, pos + l1));
            lemma_decode_frame_agree(log, log2, pos);
            lemma_replay_append(log, pos + l1, apply_record(m, e1, pos as u64), e);
        },
    }
}

/// Where each offset in a replayed index points: every key the replay
/// added maps to a frame boundary before the stopping point that holds a
/// live record for that key.
pub proof fn lemma_replay_offsets(log: Seq<u8>, pos: int, m: Map<Seq<char>, u64>)
    requires
        0 <= pos <= log.len(),
        log.len() <= u64::MAX,
    ensures
        forall|k: Seq<char>| #[trigger]
            replay_from(log, pos, m).0.contains_key(k) ==> {
                ||| (m.contains_key(k) && replay_from(log, pos, m).0[k] == m[k])
                ||| {
                    let off = replay_from(log, pos, m).0[k] as int;
                    &&& pos <= off < replay_from(log, pos, m).1
                    &&& is_replay_pos(log, pos, off)
                    &&& live_record_at(log, k, off)
                }
            },
    decreases log.len() - pos,
{
    match spec_decode_frame(log, pos) {
        None => {},
        Some((e, l)) => {
            lemma_decode_frame_inverts(log, pos);
            let m1 = apply_record(m, e, pos as u64);
            lemma_replay_offsets(log, pos + l, m1);
            lemma_replay_from_bounds(log, pos + l, m1);
            let (mr, end) = replay_from(log, pos, m);
            assert(replay_from(log, pos + l, m1) == replay_from(log, pos, m));
            assert forall|k: Seq<char>| #[trigger] mr.contains_key(k) implies {
                ||| (m.contains_key(k) && mr[k] == m[k])
                ||| {
                    let off = mr[k] as int;
                    &&& pos <= off < end
                    &&& is_replay_pos(log, pos, off)
                    &&& live_record_at(log, k, off)
                }
            } by {
                if m1.contains_key(k) && mr[k] == m1[k] {
                    if e.tag == Tag::Normal && k == e.key {
                        assert(mr[k] == pos as u64);
                        assert(live_record_at(log, k, pos));
                    } else {
                        assert(m.contains_key(k) && m1[k] == m[k]);
                    }
                } else {
                    let off = mr[k] as int;
                    assert(pos + l <= off < end);
                    assert(is_replay_pos(log, pos + l, off));
                    assert(is_replay_pos(log, pos, off));
                }
            }
        },
    }
}

/// Cutting a log at the point where its replay stopped changes nothing
/// about the replay: same index, same stopping point.
pub proof fn lemma_replay_truncate(log: Seq<u8>, pos: int, m: Map<Seq<char>, u64>)
    requires
        0 <= pos <= log.len(),
    ensures
        replay_from(log.subrange(0, replay_from(log, pos, m).1), pos, m) == replay_from(
            log,
            pos,
            m,
        ),
    decreases log.len() - pos,
{
    let (mr, end) = replay_from(log, pos, m);
    lemma_replay_from_bounds(log, pos, m);
    let prefix = log.subrange(0, end);
    match spec_decode_frame(log, pos) {
        None => {
            assert(end == pos);
            assert(spec_decode_frame(prefix, pos) is None);
        },
        Some((e, l)) => {
            lemma_decode_frame_inverts(log, pos);
            let m1 = apply_record(m, e, pos as u64);
            lemma_replay_from_bounds(log, pos + l, m1);
            assert(replay_from(log, pos + l, m1) == replay_from(log, pos, m));
            assert(pos + l <= end);
            assert(prefix.subrange(pos, pos + l) =~= log.subrange(pos, pos + l));
            lemma_decode_frame_agree(log, prefix, pos);
            lemma_replay_truncate(log, pos + l, m1);
        },
    }
}

/// The whole-log corollary of [`lemma_replay_truncate`]: dropping a torn
/// tail leaves a clean log with the same index and the same logical state.
pub proof fn lemma_truncated_log(log: Seq<u8>)
    requires
        log.len() <= u64::MAX,
    ensures
        clean_log(log.subrange(0, replay_end(log))),
        replay_index(log.subrange(0, replay_end(log))) == replay_index(log),
        log_state(log.subrange(0, replay_end(log))) == log_state(log),
{
    let end = replay_end(log);
    lemma_replay_from_bounds(log, 0, Map::empty());
    lemma_replay_truncate(log, 0, Map::empty());
    let prefix = log.subrange(0, end);
    lemma_replay_offsets(log, 0, Map::empty());
    lemma_replay_end_is_pos(log, 0, Map::empty());
    assert forall|k: Seq<char>| #[trigger]
        replay_index(log).contains_key(k) implies value_at(prefix, replay_index(log)[k])
        == value_at(log, replay_index(log)[k]) by {
        let off = replay_index(log)[k] as int;
        assert(live_record_at(log, k, off));
        let (e, l) = spec_decode_frame(log, off).unwrap();
        lemma_decode_frame_inverts(log, off);
        if off < end {
            lemma_replay_pos_disjoint(log, 0, off, end);
            assert(off + l <= end);
            assert(prefix.subrange(off, off + l) =~= log.subrange(off, off + l));
            lemma_decode_frame_agree(log, prefix, off);
        } else {
            assert(false);
        }
    }
    assert(log_state(prefix) =~= log_state(log));
}

/// A segment with no dead bytes: every frame in it is the live record of
/// its key. This is what compaction establishes — the segment's size is
/// then proportional to the live data alone.
pub open spec fn compacted_log(log: Seq<u8>) -> bool {
    forall|p: int| #[trigger]
        is_replay_pos(log, 0, p) && 0 <= p < log.len() ==> (match spec_decode_frame(log, p) {
            Some((e, l)) => e.tag == Tag::Normal && replay_index(log).contains_key(e.key)
                && replay_index(log)[e.key] == p as u64,
            None => false,
        })
}

/// Appending one frame to a fully replayed log adds exactly one frame
/// boundary: the old end of the log moves to the new end, and every other
/// boundary is unchanged.
pub proof fn lemma_replay_pos_append(log: Seq<u8>, e: EntryView, pos: int, p: int)
    requires
        0 <= pos <= log.len(),
        replay_from(log, pos, Map::empty()).1 == log.len(),
        encodable(e),
    ensures
        is_replay_pos(log + spec_frame(e), pos, p) <==> (is_replay_pos(log, pos, p) || p
            == log.len() + spec_frame_len(e)),
    decreases log.len() - pos,
{
    lemma_frame_len(e);
    let log2 = log + spec_frame(e);
    match spec_decode_frame(log, pos) {
        None => {
            assert(pos == log.len());
            lemma_decode_frame_at_append(log, e);
            assert(spec_decode_frame(log2, pos) == Some((e, spec_frame_len(e))));
            assert(spec_decode_frame(log2, log2.len() as int) is None);
            assert(is_replay_pos(log2, log2.len() as int, p) <==> p == log2.len());
            assert(is_replay_pos(log, pos, p) <==> p == pos);
        },
        Some((e1, l1)) => {
            lemma_decode_frame_inverts(log, pos);
            assert(log2.subrange(pos, pos + l1) =~= log.subrange(pos, pos + l1));
            lemma_decode_frame_agree(log, log2, pos);
            lemma_replay_end_ignores_index(
                log,
                pos + l1,
                apply_record(Map::empty(), e1, pos as u64),
                Map::empty(),
            );
            lemma_replay_pos_append(log, e, pos + l1, p);
        },
    }
}

/// Appending one frame to a clean log updates the logical state pointwise:
/// a live record stores its value under its key, a tombstone erases the
/// key, and nothing else changes. The extended log is clean again.
pub proof fn lemma_append_frame(log: Seq<u8>, e: EntryView)
    requires
        clean_log(log),
        log.len() <= u64::MAX,
        encodable(e),
    ensures
        clean_log(log + spec_frame(e)),
        replay_index(log + spec_frame(e)) == apply_record(replay_index(log), e, log.len() as u64),
        e.tag == Tag::Normal ==> log_state(log + spec_frame(e)) == log_state(log).insert(
            e.key,
            e.value,
        ),
        e.tag == Tag::Deleted ==> log_state(log + spec_frame(e)) == log_state(log).remove(e.key),
{
    lemma_frame_len(e);
    let log2 = log + spec_frame(e);
    lemma_replay_append(log, 0, Map::empty(), e);
    lemma_replay_offsets(log, 0, Map::empty());
    lemma_decode_frame_at_append(log, e);
    let idx = replay_index(log);
    let idx2 = replay_index(log2);
    assert(idx2 == apply_record(idx, e, log.len() as u64));
    assert forall|k: Seq<char>| #[trigger]
        idx.contains_key(k) implies value_at(log2, idx[k]) == value_at(log, idx[k]) by {
        let off = idx[k] as int;
        assert(live_record_at(log, k, off));
        lemma_decode_frame_inverts(log, off);
        let (e1, l1) = spec_decode_frame(log, off).unwrap();
        assert(log2.subrange(off, off + l1) =~= log.subrange(off, off + l1));
        lemma_decode_frame_agree(log, log2, off);
    }
    if e.tag == Tag::Normal {
        assert(value_at(log2, log.len() as u64) == e.value);
        assert(log_state(log2) =~= log_state(log).insert(e.key, e.value));
    } else {
        assert(log_state(log2) =~= log_state(log).remove(e.key));
    }
}

} // verus!
