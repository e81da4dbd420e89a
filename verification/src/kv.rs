//! The log-structured storage engine.
//!
//! A [`KvStore`] owns the contents of the active log segment as plain
//! bytes, an index from each live key to the offset of its most recent
//! record, and the active segment's id. Mutations append a record frame to
//! the segment and update the index; reads decode the record the index
//! points at. When the segment outgrows [`LOG_THRESHOLD`], the engine
//! rewrites the live records into a fresh segment with the next id and
//! drops the old one — this is compaction.
//!
//! The engine never touches a file itself: it is opened from the bytes an
//! embedding program read from the active segment, and after each mutation
//! that program asks [`KvStore::sync_delta`] what to write back. Every
//! operation is verified against the replay model of [`crate::replay`]:
//! the index always equals the replay of the segment, so reopening the
//! same bytes always rebuilds the same state.

use vstd::prelude::*;
use vstd::hash_map::StringHashMap;
use vstd::utf8::encode_utf8;
use crate::codec::{
    decode_frame, encodable, encode_frame, lemma_decode_frame_agree, lemma_decode_frame_at_append,
    lemma_decode_frame_inverts, spec_decode_frame, spec_frame, spec_frame_len, Entry, EntryView,
    Tag,
};
use crate::engine::KvsEngine;
use crate::error::KvError;
use crate::replay::{
    apply_record, clean_log, compacted_log, is_replay_pos, lemma_append_frame,
    lemma_replay_end_from_mid, lemma_replay_end_is_pos, lemma_replay_from_bounds,
    lemma_replay_offsets, lemma_replay_pos_append, lemma_replay_pos_disjoint,
    lemma_replay_pos_trans, lemma_replay_pos_upper, lemma_truncated_log, live_record_at,
    log_state, replay_end, replay_from, replay_index, value_at,
};

verus! {

/// Once the active segment reaches this many bytes, a mutation triggers
/// compaction.
pub const LOG_THRESHOLD: u64 = 4 * 1024 * 1024;

/// How a mutation changes the logical state: a live record stores the
/// pair, a tombstone erases the key.
pub open spec fn apply_to_state(
    s: Map<Seq<char>, Seq<char>>,
    key: Seq<char>,
    val: Seq<char>,
    tag: Tag,
) -> Map<Seq<char>, Seq<char>> {
    match tag {
        Tag::Normal => s.insert(key, val),
        Tag::Deleted => s.remove(key),
    }
}

/// The log-structured engine: the active segment's bytes, the in-memory
/// index over it, and the segment's id.
pub struct KvStore {
    memtable: StringHashMap<u64>,
    log: Vec<u8>,
    log_id: u32,
}

/// What an embedding program must do to the store directory after a
/// mutation, given the segment id and length it last brought in step.
pub enum SegmentSync {
    /// The active segment kept its id; append `bytes` to its file.
    Append { bytes: Vec<u8> },
    /// Compaction produced segment `log_id`: write `bytes` as its file,
    /// rewrite the manifest to `log_id`, then delete the old segment.
    Rewrite { log_id: u32, bytes: Vec<u8> },
}

impl KvStore {
    /// The bytes of the active segment.
    pub closed spec fn log_view(&self) -> Seq<u8> {
        self.log@
    }

    /// The id of the active segment.
    pub closed spec fn id(&self) -> u32 {
        self.log_id
    }

    /// The index: each live key, mapped to the offset of its record.
    pub closed spec fn index_view(&self) -> Map<Seq<char>, u64> {
        self.memtable@
    }

    /// Opens an engine over the bytes of segment `log_id`, replaying them
    /// in file order to rebuild the index. Replay stops cleanly at the
    /// first position where no record decodes — the end of the segment,
    /// or the torn tail a crash left — and the engine keeps exactly the
    /// replayed prefix.
    pub fn open(log_id: u32, bytes: Vec<u8>) -> (r: KvStore)
        ensures
            r.inv(),
            r.id() == log_id,
            r.state() == log_state(bytes@),
            r.log_view() == bytes@.subrange(0, replay_end(bytes@)),
    {
        let mut log = bytes;
        let mut memtable = StringHashMap::<u64>::new();
        let n = log.len();
        let mut pos: usize = 0;
        let mut done = false;
        while !done
            invariant
                n == log@.len(),
                pos <= n,
                replay_from(log@, 0, Map::empty()) == replay_from(log@, pos as int, memtable@),
                done ==> spec_decode_frame(log@, pos as int) is None,
            decreases (n - pos) + (if done { 0int } else { 1int }),
        {
            match decode_frame(&log, pos) {
                Ok((entry, flen)) => {
                    proof {
                        lemma_decode_frame_inverts(log@, pos as int);
                    }
                    if entry.tag == Tag::Normal {
                        memtable.insert(entry.key, pos as u64);
                    } else {
                        memtable.remove(entry.key.as_str());
                    }
                    pos = pos + flen;
                },
                Err(_) => {
                    done = true;
                },
            }
        }
        proof {
            assert(replay_from(log@, pos as int, memtable@) == (memtable@, pos as int));
            assert(replay_index(log@) == memtable@);
            assert(replay_end(log@) == pos as int);
            lemma_truncated_log(log@);
        }
        log.truncate(pos);
        KvStore { memtable, log, log_id }
    }

    /// Applies one appended record to the index, exactly as replay would:
    /// a live record maps its key to the record's offset, a tombstone
    /// erases the key.
    fn append_to_memtable(&mut self, entry: &Entry, pos: u64)
        ensures
            final(self).memtable@ == apply_record(old(self).memtable@, entry@, pos),
            final(self).log == old(self).log,
            final(self).log_id == old(self).log_id,
    {
        if entry.tag == Tag::Normal {
            self.memtable.insert(entry.key.clone(), pos);
        } else {
            self.memtable.remove(entry.key.as_str());
        }
    }

    /// Appends the record `(key, val, tag)` to the active segment and
    /// updates the index, then compacts if the segment has outgrown the
    /// threshold. Fails only on a record too large for the frame format,
    /// writing nothing.
    fn start_write(&mut self, key: String, val: String, tag: Tag) -> (r: Result<(), KvError>)
        requires
            old(self).inv(),
        ensures
            final(self).inv(),
            r is Ok <==> encodable((EntryView { key: key@, value: val@, tag: tag })),
            r matches Ok(()) ==> final(self).state() == apply_to_state(
                old(self).state(),
                key@,
                val@,
                tag,
            ),
            final(self).id() == old(self).id() || final(self).id() == old(self).id() + 1,
            final(self).id() != old(self).id() <==> (r is Ok && old(self).id() < u32::MAX && old(
                self,
            ).log_view().len() + spec_frame_len((EntryView { key: key@, value: val@, tag: tag }))
                >= LOG_THRESHOLD),
            final(self).id() == old(self).id() && r is Ok ==> final(self).log_view() == old(
                self,
            ).log_view() + spec_frame((EntryView { key: key@, value: val@, tag: tag })),
            final(self).id() != old(self).id() ==> compacted_log(final(self).log_view())
                && final(self).log_view().len() <= old(self).log_view().len() + spec_frame_len(
                (EntryView { key: key@, value: val@, tag: tag }),
            ),
            r is Err ==> *final(self) == *old(self) && r == Err::<(), KvError>(
                KvError::CodecError,
            ),
    {
        let entry = Entry::new(key, val, tag);
        let frame = match encode_frame(&entry) {
            Ok(f) => f,
            Err(e) => {
                return Err(e);
            },
        };
        let ghost log0: Seq<u8> = self.log@;
        let pos_us: usize = self.log.len();
        let pos: u64 = pos_us as u64;
        let mut buf: Vec<u8> = Vec::new();
        core::mem::swap(&mut self.log, &mut buf);
        buf = crate::codec::push_bytes(buf, frame.as_slice());
        core::mem::swap(&mut self.log, &mut buf);
        let new_len = self.log.len();
        self.append_to_memtable(&entry, pos);
        proof {
            assert(self.log@ == log0 + spec_frame(entry@));
            assert(self.log@.len() == new_len as int <= u64::MAX);
            lemma_append_frame(log0, entry@);
        }
        if self.log.len() as u64 >= LOG_THRESHOLD && self.log_id < u32::MAX {
            self.compaction();
        }
        Ok(())
    }

    /// Rewrites the live records — in segment order — into a fresh
    /// segment with the next id and switches the engine over to it. The
    /// logical state is unchanged, and the new segment is no longer than
    /// the old one: it holds exactly one record per live key.
    fn compaction(&mut self)
        requires
            old(self).inv(),
            old(self).log_id < u32::MAX,
        ensures
            final(self).inv(),
            final(self).state() == old(self).state(),
            final(self).id() == old(self).id() + 1,
            final(self).log_view().len() <= old(self).log_view().len(),
            compacted_log(final(self).log_view()),
    {
        let mut old_log: Vec<u8> = Vec::new();
        core::mem::swap(&mut self.log, &mut old_log);
        let mut old_mem: StringHashMap<u64> = StringHashMap::new();
        core::mem::swap(&mut self.memtable, &mut old_mem);
        let ghost olog: Seq<u8> = old_log@;
        let ghost m: Map<Seq<char>, u64> = old_mem@;
        proof {
            lemma_replay_offsets(olog, 0, Map::empty());
            lemma_replay_from_bounds(olog, 0, Map::empty());
        }
        let mut new_log: Vec<u8> = Vec::new();
        let mut new_mem: StringHashMap<u64> = StringHashMap::new();
        let n = old_log.len();
        let mut pos: usize = 0;
        while pos < n
            invariant
                n == olog.len(),
                old_log@ == olog,
                old_mem@ == m,
                olog.len() <= u64::MAX,
                pos <= n,
                replay_from(olog, 0, Map::empty()) == (m, olog.len() as int),
                is_replay_pos(olog, 0, pos as int),
                clean_log(new_log@),
                compacted_log(new_log@),
                new_log@.len() <= pos,
                replay_index(new_log@) == new_mem@,
                forall|k: Seq<char>| #[trigger]
                    new_mem@.contains_key(k) ==> m.contains_key(k) && (m[k] as int) < pos as int
                        && log_state(new_log@)[k] == log_state(olog)[k],
                forall|k: Seq<char>|
                    m.contains_key(k) && (m[k] as int) < pos as int ==> #[trigger]
                        new_mem@.contains_key(k),
            decreases n - pos,
        {
            proof {
                lemma_replay_end_from_mid(olog, 0, pos as int, Map::empty(), Map::empty());
                lemma_replay_offsets(olog, 0, Map::empty());
            }
            match decode_frame(&old_log, pos) {
                Err(_) => {
                    proof {
                        assert(replay_from(olog, pos as int, Map::empty()).1 == olog.len());
                        assert(false);
                    }
                },
                Ok((entry, flen)) => {
                    proof {
                        lemma_decode_frame_inverts(olog, pos as int);
                    }
                    let live = match old_mem.get(entry.key.as_str()) {
                        Some(p) => *p == pos as u64,
                        None => false,
                    };
                    let ghost fl: int = flen as int;
                    let ghost posg: int = pos as int;
                    proof {
                        assert forall|k: Seq<char>|
                            m.contains_key(k) && posg < (m[k] as int) && (m[k] as int) < posg
                                + fl implies false by {
                            assert(replay_from(olog, 0, Map::empty()).0.contains_key(k));
                            lemma_replay_pos_disjoint(olog, 0, posg, m[k] as int);
                        }
                    }
                    if live {
                        let new_pos = new_log.len();
                        let ghost nl0: Seq<u8> = new_log@;
                        let ghost nm0: Map<Seq<char>, u64> = new_mem@;
                        new_log = crate::codec::push_bytes(
                            new_log,
                            &old_log.as_slice()[pos..pos + flen],
                        );
                        new_mem.insert(entry.key, new_pos as u64);
                        proof {
                            assert(replay_from(olog, 0, Map::empty()).0.contains_key(entry@.key));
                            assert(live_record_at(olog, entry@.key, posg));
                            assert(entry@.tag == Tag::Normal);
                            assert(olog.subrange(posg, posg + fl) == spec_frame(entry@));
                            assert(new_log@ == nl0 + spec_frame(entry@));
                            lemma_append_frame(nl0, entry@);
                            assert(new_pos as int == nl0.len() as int);
                            assert(replay_index(new_log@) == new_mem@);
                            assert(log_state(new_log@) == log_state(nl0).insert(
                                entry@.key,
                                entry@.value,
                            ));
                            assert(m.contains_key(entry@.key) && m[entry@.key] == pos as u64);
                            assert(value_at(olog, m[entry@.key]) == entry@.value);
                            assert(log_state(olog)[entry@.key] == entry@.value);
                            assert forall|k: Seq<char>| #[trigger]
                                new_mem@.contains_key(k) implies m.contains_key(k) && (m[k] as int)
                                < posg + fl && log_state(new_log@)[k] == log_state(olog)[k] by {
                                if k != entry@.key {
                                    assert(log_state(new_log@)[k] == log_state(nl0)[k]);
                                }
                            }
                            assert forall|k: Seq<char>|
                                m.contains_key(k) && (m[k] as int) < posg + fl implies #[trigger]
                                new_mem@.contains_key(k) by {
                                if (m[k] as int) == posg {
                                    assert(replay_from(olog, 0, Map::empty()).0.contains_key(k));
                                    assert(live_record_at(olog, k, posg));
                                    assert(k == entry@.key);
                                }
                            }
                            lemma_replay_end_is_pos(nl0, 0, Map::empty());
                            assert(is_replay_pos(nl0, 0, nl0.len() as int));
                            assert forall|p: int|
                                is_replay_pos(new_log@, 0, p) && 0 <= p
                                    < new_log@.len() implies (match spec_decode_frame(
                                new_log@,
                                p,
                            ) {
                                Some((e2, l2)) => e2.tag == Tag::Normal && replay_index(
                                    new_log@,
                                ).contains_key(e2.key) && replay_index(new_log@)[e2.key]
                                    == p as u64,
                                None => false,
                            }) by {
                                lemma_replay_pos_append(nl0, entry@, 0, p);
                                if p != nl0.len() + crate::codec::spec_frame_len(entry@) {
                                    assert(is_replay_pos(nl0, 0, p));
                                    lemma_replay_pos_upper(nl0, 0, p);
                                    if p == nl0.len() as int {
                                        lemma_decode_frame_at_append(nl0, entry@);
                                    } else {
                                        assert(is_replay_pos(nl0, 0, p) && 0 <= p < nl0.len());
                                        let (e2, l2) = spec_decode_frame(nl0, p).unwrap();
                                        lemma_replay_pos_disjoint(nl0, 0, p, nl0.len() as int);
                                        assert(new_log@.subrange(p, p + l2) =~= nl0.subrange(
                                            p,
                                            p + l2,
                                        ));
                                        lemma_decode_frame_agree(nl0, new_log@, p);
                                        assert(replay_index(nl0).contains_key(e2.key));
                                        if e2.key == entry@.key {
                                            assert(nm0.contains_key(entry@.key));
                                            assert(false);
                                        }
                                    }
                                }
                            }
                        }
                    } else {
                        proof {
                            assert forall|k: Seq<char>|
                                m.contains_key(k) && (m[k] as int) < posg + fl implies #[trigger]
                                new_mem@.contains_key(k) by {
                                if (m[k] as int) == posg {
                                    assert(replay_from(olog, 0, Map::empty()).0.contains_key(k));
                                    assert(live_record_at(olog, k, posg));
                                    assert(k == entry@.key);
                                    assert(false);
                                }
                            }
                        }
                    }
                    proof {
                        assert(13 <= fl && posg + fl <= olog.len());
                        assert(is_replay_pos(olog, posg + fl, posg + fl));
                        assert(is_replay_pos(olog, posg, posg + fl));
                        lemma_replay_pos_trans(olog, 0, posg, posg + fl);
                    }
                    pos = pos + flen;
                },
            }
        }
        proof {
            assert forall|k: Seq<char>| #[trigger] m.contains_key(k) implies (m[k] as int)
                < n as int by {
                assert(replay_from(olog, 0, Map::empty()).0.contains_key(k));
            }
            assert(log_state(new_log@) =~= log_state(olog));
        }
        self.log = new_log;
        self.memtable = new_mem;
        self.log_id = self.log_id + 1;
    }

    /// Maps `key` to `val`. Durable once the caller has synced the
    /// returned segment delta. Fails only on a pair too large for the
    /// record format.
    pub fn set(&mut self, key: String, val: String) -> (r: Result<(), KvError>)
        requires
            old(self).inv(),
        ensures
            final(self).inv(),
            r is Ok <==> encodable((EntryView { key: key@, value: val@, tag: Tag::Normal })),
            r matches Ok(()) ==> final(self).state() == old(self).state().insert(key@, val@),
            final(self).id() == old(self).id() || final(self).id() == old(self).id() + 1,
            final(self).id() != old(self).id() <==> (r is Ok && old(self).id() < u32::MAX && old(
                self,
            ).log_view().len() + spec_frame_len(
                (EntryView { key: key@, value: val@, tag: Tag::Normal }),
            ) >= LOG_THRESHOLD),
            final(self).id() == old(self).id() && r is Ok ==> final(self).log_view() == old(
                self,
            ).log_view() + spec_frame((EntryView { key: key@, value: val@, tag: Tag::Normal })),
            final(self).id() != old(self).id() ==> compacted_log(final(self).log_view())
                && final(self).log_view().len() <= old(self).log_view().len() + spec_frame_len(
                (EntryView { key: key@, value: val@, tag: Tag::Normal }),
            ),
            r is Err ==> *final(self) == *old(self) && r == Err::<(), KvError>(
                KvError::CodecError,
            ),
    {
        self.start_write(key, val, Tag::Normal)
    }

    /// Looks `key` up in the index and decodes the record it points at.
    /// Never fails on a well-formed store: the index invariant guarantees
    /// the record decodes as a live record for `key`.
    pub fn get(&mut self, key: String) -> (r: Result<Option<String>, KvError>)
        requires
            old(self).inv(),
        ensures
            *final(self) == *old(self),
            match r {
                Ok(Some(v)) => old(self).state().contains_key(key@) && v@ == old(self).state()[
                    key@
                ],
                Ok(None) => !old(self).state().contains_key(key@),
                Err(_) => false,
            },
    {
        proof {
            lemma_replay_offsets(self.log@, 0, Map::empty());
            lemma_replay_from_bounds(self.log@, 0, Map::empty());
        }
        let off_u64: u64 = match self.memtable.get(key.as_str()) {
            Some(p) => *p,
            None => {
                return Ok(None);
            },
        };
        let log_len = self.log.len();
        proof {
            assert(self.memtable@.contains_key(key@));
            assert(live_record_at(self.log@, key@, self.memtable@[key@] as int));
            assert(off_u64 < log_len as u64);
        }
        let off: usize = off_u64 as usize;
        match decode_frame(&self.log, off) {
            Ok((entry, _flen)) => {
                proof {
                    assert(value_at(self.log@, off_u64) == entry@.value);
                }
                Ok(Some(entry.value))
            },
            Err(_) => {
                proof {
                    assert(false);
                }
                Err(KvError::CodecError)
            },
        }
    }

    /// Unmaps `key` by appending a tombstone and erasing the index entry.
    /// Removing a key that is not mapped fails with `KeyNotExit` and
    /// writes nothing: the segment is left byte-for-byte unchanged.
    pub fn remove(&mut self, key: String) -> (r: Result<(), KvError>)
        requires
            old(self).inv(),
        ensures
            final(self).inv(),
            r is Ok <==> old(self).state().contains_key(key@),
            r matches Ok(()) ==> final(self).state() == old(self).state().remove(key@),
            final(self).id() == old(self).id() || final(self).id() == old(self).id() + 1,
            final(self).id() != old(self).id() <==> (r is Ok && old(self).id() < u32::MAX && old(
                self,
            ).log_view().len() + spec_frame_len(
                (EntryView { key: key@, value: Seq::empty(), tag: Tag::Deleted }),
            ) >= LOG_THRESHOLD),
            final(self).id() == old(self).id() && r is Ok ==> final(self).log_view() == old(
                self,
            ).log_view() + spec_frame(
                (EntryView { key: key@, value: Seq::empty(), tag: Tag::Deleted }),
            ),
            final(self).id() != old(self).id() ==> compacted_log(final(self).log_view())
                && final(self).log_view().len() <= old(self).log_view().len() + spec_frame_len(
                (EntryView { key: key@, value: Seq::empty(), tag: Tag::Deleted }),
            ),
            r is Err ==> *final(self) == *old(self) && r == Err::<(), KvError>(
                KvError::KeyNotExit,
            ),
    {
        if !self.memtable.contains_key(key.as_str()) {
            return Err(KvError::KeyNotExit);
        }
        proof {
            lemma_replay_offsets(self.log@, 0, Map::empty());
            let off = self.memtable@[key@] as int;
            assert(live_record_at(self.log@, key@, off));
            lemma_decode_frame_inverts(self.log@, off);
            let e1 = spec_decode_frame(self.log@, off).unwrap().0;
            assert(e1.key == key@ && encodable(e1));
            assert(encode_utf8(Seq::<char>::empty()).len() == 0);
            assert(encodable((EntryView { key: key@, value: Seq::<char>::empty(), tag: Tag::Deleted })));
        }
        let r = self.start_write(key, String::new(), Tag::Deleted);
        proof {
            assert(r is Ok);
        }
        r
    }

    /// The id of the active segment, as the manifest must record it.
    pub fn segment_id(&self) -> (r: u32)
        ensures
            r == self.id(),
    {
        self.log_id
    }

    /// The length of the active segment in bytes.
    pub fn segment_len(&self) -> (r: usize)
        ensures
            r == self.log_view().len(),
    {
        self.log.len()
    }

    /// The bytes of the active segment, as its file must hold them.
    pub fn segment_bytes(&self) -> (r: &Vec<u8>)
        ensures
            r@ == self.log_view(),
    {
        &self.log
    }

    /// What to write to bring a directory in step with the engine, given
    /// the segment id and length the caller last synced. While the
    /// segment id is unchanged the file only grew: appending the returned
    /// bytes suffices. After a compaction — or when the caller's record
    /// is inconsistent — the whole new segment is handed back.
    pub fn sync_delta(&self, prev_id: u32, prev_len: usize) -> (r: SegmentSync)
        ensures
            match r {
                SegmentSync::Append { bytes } => self.id() == prev_id && prev_len
                    <= self.log_view().len() && bytes@ == self.log_view().subrange(
                    prev_len as int,
                    self.log_view().len() as int,
                ),
                SegmentSync::Rewrite { log_id, bytes } => log_id == self.id() && bytes@
                    == self.log_view(),
            },
    {
        let len = self.log.len();
        if self.log_id == prev_id && prev_len <= len {
            let tail = crate::codec::push_bytes(Vec::new(), &self.log.as_slice()[prev_len..len]);
            SegmentSync::Append { bytes: tail }
        } else {
            let whole = crate::codec::push_bytes(Vec::new(), self.log.as_slice());
            SegmentSync::Rewrite { log_id: self.log_id, bytes: whole }
        }
    }
}

impl KvsEngine for KvStore {
    /// The mapping the engine represents: the logical state of its log.
    closed spec fn state(&self) -> Map<Seq<char>, Seq<char>> {
        log_state(self.log@)
    }

    /// The index is exactly the replay of the log, the log has no torn
    /// tail, and its length fits the offsets the index stores.
    closed spec fn inv(&self) -> bool {
        &&& clean_log(self.log@)
        &&& self.memtable@ == replay_index(self.log@)
        &&& self.log@.len() <= u64::MAX
    }

    fn set(&mut self, key: String, val: String) -> (r: Result<(), KvError>) {
        self.set(key, val)
    }

    fn get(&mut self, key: String) -> (r: Result<Option<String>, KvError>) {
        self.get(key)
    }

    fn remove(&mut self, key: String) -> (r: Result<(), KvError>) {
        self.remove(key)
    }
}

/// Read-your-writes: once a store's state records `set(key, val)`, a
/// lookup of `key` answers `val`, and no other key changed.
pub proof fn lemma_read_your_writes(pre: KvStore, post: KvStore, key: String, val: String)
    requires
        post.state() == pre.state().insert(key@, val@),
    ensures
        post.state().contains_key(key@),
        post.state()[key@] == val@,
        forall|k2: Seq<char>|
            k2 != key@ ==> (#[trigger] post.state().contains_key(k2) <==> pre.state().contains_key(
                k2,
            )),
        forall|k2: Seq<char>|
            k2 != key@ && pre.state().contains_key(k2) ==> #[trigger] post.state()[k2]
                == pre.state()[k2],
{
}

/// A tombstone hides its key: once a store's state records `remove(key)`,
/// a lookup of `key` answers nothing, and no other key changed.
pub proof fn lemma_tombstone_hides(pre: KvStore, post: KvStore, key: String)
    requires
        post.state() == pre.state().remove(key@),
    ensures
        !post.state().contains_key(key@),
        forall|k2: Seq<char>|
            k2 != key@ ==> (#[trigger] post.state().contains_key(k2) <==> pre.state().contains_key(
                k2,
            )),
        forall|k2: Seq<char>|
            k2 != key@ && pre.state().contains_key(k2) ==> #[trigger] post.state()[k2]
                == pre.state()[k2],
{
}

/// Persistence: a well-formed store's segment bytes replay to exactly its
/// current state, so an engine opened over those bytes — as after a
/// restart — serves the same answers.
pub proof fn lemma_persistence(s: KvStore)
    requires
        s.inv(),
    ensures
        clean_log(s.log_view()),
        log_state(s.log_view()) == s.state(),
{
}

} // verus!
