//! The store: the log, the index over it and the set of stale offsets, with
//! the operations `open`, `set`, `get` and `remove`, and compaction.
//!
//! The store is stated over the records of its log. `records()` is the
//! sequence of records that the log holds; the view of the store is what those
//! records say, a map from keys to values.

use crate::codec::{decode_one, encode, Command, Record};
use crate::compaction::{
    is_live, lemma_compaction_keeps_contents, lemma_compaction_shrinks, live, live_upto,
};
use crate::error::KvsError;
use crate::index::{
    contents, index_of, latest, lemma_index_offsets, lemma_index_points_to_value, lemma_latest,
    replay, value_comes_from_latest,
};
use crate::log::{
    lemma_log_bytes_push, lemma_offset_end, lemma_offset_increases, lemma_record_at, log_bytes,
    offset, records_of, Log,
};
use std::collections::HashSet;
use vstd::hash_map::StringHashMap;
use vstd::prelude::*;

verus! {

/// Compaction runs when `set` leaves more stale offsets than this.
pub const COMPACTION_TRIGGER: usize = 500;

/// A key-value store over an append-only log.
pub struct KvStore {
    index: StringHashMap<usize>,
    log: Log,
    stale: HashSet<usize>,
    records: Ghost<Seq<Record>>,
}

/// The value that a map holds for a key, if any.
pub open spec fn lookup(m: Map<Seq<char>, Seq<char>>, k: Seq<char>) -> Option<Seq<char>> {
    if m.contains_key(k) {
        Some(m[k])
    } else {
        None
    }
}

/// The stale offsets after a `set` of `k`: the offset that the index held for
/// `k` joins them.
pub open spec fn stale_after_set(
    index: Map<Seq<char>, usize>,
    stale: Set<usize>,
    k: Seq<char>,
) -> Set<usize> {
    if index.contains_key(k) {
        stale.insert(index[k])
    } else {
        stale
    }
}

impl View for KvStore {
    type V = Map<Seq<char>, Seq<char>>;

    /// What the store holds: what the records of its log say.
    open spec fn view(&self) -> Map<Seq<char>, Seq<char>> {
        contents(self.records())
    }
}

impl KvStore {
    /// The records of the log, in order.
    pub closed spec fn records(&self) -> Seq<Record> {
        self.records@
    }

    /// The index: each live key with the offset of its latest `SET`.
    pub closed spec fn index(&self) -> Map<Seq<char>, usize> {
        self.index@
    }

    /// The stale offsets gathered since the log was opened or compacted.
    pub closed spec fn stale(&self) -> Set<usize> {
        self.stale@
    }

    /// The log.
    pub closed spec fn log_state(&self) -> Log {
        self.log
    }

    /// Well-formedness: the log is made of the records, and the index is the
    /// one that replaying them gives.
    pub open spec fn wf(&self) -> bool {
        &&& self.log_state().wf()
        &&& self.log_state()@ == log_bytes(self.records())
        &&& self.index() == index_of(self.records())
    }

    /// Opens a store over the bytes of a log: replays them to build the
    /// index, and starts with no stale offsets.
    ///
    /// Fails with `Corrupt` where the bytes are not a sequence of records.
    pub fn open(log: Vec<u8>) -> (r: Result<KvStore, KvsError>)
        ensures
            match r {
                Ok(store) => {
                    &&& store.wf()
                    &&& records_of(log@) == Some(store.records())
                    &&& store.log_state()@ == log@
                    &&& store.log_state().synced() == log@.len()
                    &&& !store.log_state().rewritten()
                    &&& store.stale() == Set::<usize>::empty()
                },
                Err(e) => e == KvsError::Corrupt && records_of(log@) is None,
            },
    {
        let index = match replay(log.as_slice()) {
            Ok(index) => index,
            Err(e) => {
                return Err(e);
            },
        };
        let ghost rs = records_of(log@)->0;
        Ok(KvStore { index, log: Log::new(log), stale: HashSet::new(), records: Ghost(rs) })
    }

    /// The log, for whoever mirrors it to a file.
    pub fn log(&self) -> (log: &Log)
        ensures
            *log == self.log_state(),
    {
        &self.log
    }

    /// Records that all bytes of the log are written out.
    pub fn mark_synced(&mut self)
        requires
            old(self).wf(),
        ensures
            final(self).wf(),
            final(self).records() == old(self).records(),
            final(self).index() == old(self).index(),
            final(self).stale() == old(self).stale(),
            final(self).log_state()@ == old(self).log_state()@,
            final(self).log_state().synced() == old(self).log_state()@.len(),
            !final(self).log_state().rewritten(),
    {
        self.log.mark_synced();
    }

    /// Sets the value of a key: appends a `SET` record to the log and points
    /// the index at it. The offset that the index held for the key, if any,
    /// becomes stale. Where that leaves more than `COMPACTION_TRIGGER` stale
    /// offsets, the log is compacted.
    pub fn set(&mut self, key: String, value: String) -> (r: Result<(), KvsError>)
        requires
            old(self).wf(),
        ensures
            final(self).wf(),
            r is Ok,
            final(self)@ == old(self)@.insert(key@, value@),
            ({
                let written = old(self).records().push(Record::SET { key: key@, value: value@ });
                let stale = stale_after_set(old(self).index(), old(self).stale(), key@);
                if stale.len() > COMPACTION_TRIGGER {
                    &&& final(self).records() == live(written)
                    &&& final(self).stale() == Set::<usize>::empty()
                    &&& final(self).log_state().rewritten()
                    &&& final(self).log_state().synced() == 0
                } else {
                    &&& final(self).records() == written
                    &&& final(self).stale() == stale
                    &&& final(self).log_state().rewritten() == old(self).log_state().rewritten()
                    &&& final(self).log_state().synced() == old(self).log_state().synced()
                }
            }),
    {
        broadcast use vstd::std_specs::hash::group_hash_axioms;

        let index_key = key.clone();
        let command = Command::SET { key, value };
        let ghost record = command@;
        let bytes = encode(&command);
        let offset: usize = self.log.append(bytes);
        match self.index.get(index_key.as_str()) {
            Some(previous) => {
                self.stale.insert(*previous);
            },
            None => {},
        }
        self.index.insert(index_key, offset);
        proof {
            lemma_log_bytes_push(old(self).records(), record);
            assert(old(self).records().push(record).drop_last() =~= old(self).records());
        }
        self.records = Ghost(self.records@.push(record));
        if self.stale.len() > COMPACTION_TRIGGER {
            match compact_log(self) {
                Ok(()) => {},
                Err(e) => {
                    return Err(e);
                },
            }
        }
        Ok(())
    }

    /// Gets the value of a key: `None` where the key is not in the store,
    /// else the value that the record at the key's offset carries.
    pub fn get(&self, key: String) -> (r: Result<Option<String>, KvsError>)
        requires
            self.wf(),
        ensures
            r matches Ok(found) && lookup(self@, key@) == match found {
                Some(v) => Some(v@),
                None => None,
            },
    {
        proof {
            self.log.lemma_len_fits();
            lemma_index_offsets(self.records());
        }
        let offset: usize = match self.index.get(key.as_str()) {
            Some(offset) => *offset,
            None => {
                return Ok(None);
            },
        };
        proof {
            lemma_index_points_to_value(self.records(), key@);
        }
        match decode_one(self.log.read_at(offset)) {
            Ok((Command::SET { key: _, value }, _)) => Ok(Some(value)),
            _ => Err(KvsError::Corrupt),
        }
    }

    /// Removes a key: appends an `RM` record to the log and takes the key out
    /// of the index. The offset of the `RM` record becomes stale.
    ///
    /// Fails with `KeyNotFound`, and changes nothing, where the key is not in
    /// the store.
    pub fn remove(&mut self, key: String) -> (r: Result<(), KvsError>)
        requires
            old(self).wf(),
        ensures
            final(self).wf(),
            if old(self)@.contains_key(key@) {
                &&& r is Ok
                &&& final(self)@ == old(self)@.remove(key@)
                &&& final(self).records() == old(self).records().push(Record::RM { key: key@ })
                &&& final(self).stale() == old(self).stale().insert(
                    old(self).log_state()@.len() as usize,
                )
                &&& final(self).log_state().rewritten() == old(self).log_state().rewritten()
                &&& final(self).log_state().synced() == old(self).log_state().synced()
            } else {
                &&& r == Err::<(), KvsError>(KvsError::KeyNotFound)
                &&& *final(self) == *old(self)
            },
    {
        broadcast use vstd::std_specs::hash::group_hash_axioms;

        proof {
            self.log.lemma_len_fits();
            lemma_index_offsets(self.records());
        }
        if !self.index.contains_key(key.as_str()) {
            return Err(KvsError::KeyNotFound);
        }
        self.index.remove(key.as_str());
        let command = Command::RM { key };
        let ghost record = command@;
        let bytes = encode(&command);
        let offset: usize = self.log.append(bytes);
        self.stale.insert(offset);
        proof {
            lemma_log_bytes_push(old(self).records(), record);
            assert(old(self).records().push(record).drop_last() =~= old(self).records());
        }
        self.records = Ghost(self.records@.push(record));
        Ok(())
    }
}

/// Compacts the log: reads its records in order, writes those that the index
/// reaches to a new log and points the index at them there; then the new log
/// takes the place of the old one, and no offset is stale.
///
/// What the store holds does not change, and the log does not grow.
pub fn compact_log(store: &mut KvStore) -> (r: Result<(), KvsError>)
    requires
        old(store).wf(),
    ensures
        final(store).wf(),
        r is Ok,
        final(store).records() == live(old(store).records()),
        final(store)@ == old(store)@,
        final(store).stale() == Set::<usize>::empty(),
        final(store).log_state().rewritten(),
        final(store).log_state().synced() == 0,
        final(store).log_state()@.len() <= old(store).log_state()@.len(),
{
    let ghost rs = store.records();
    let len: usize = store.log.len();
    let mut new_log: Vec<u8> = Vec::new();
    let mut new_index: StringHashMap<usize> = StringHashMap::new();
    let mut pos: usize = 0;
    let ghost mut j: int = 0;
    proof {
        lemma_offset_end(rs);
    }
    while pos < len
        invariant
            store.wf(),
            *store == *old(store),
            rs == store.records(),
            len == store.log_state()@.len(),
            0 <= j <= rs.len(),
            pos == offset(rs, j),
            pos <= len,
            new_log@ == log_bytes(live_upto(rs, j)),
            new_index@ == index_of(live_upto(rs, j)),
        decreases len - pos,
    {
        proof {
            store.log.lemma_len_fits();
            lemma_offset_end(rs);
            lemma_record_at(rs, j);
            lemma_index_offsets(rs);
            lemma_latest(rs);
        }
        let (command, n) = match decode_one(store.log.read_at(pos)) {
            Ok(read) => read,
            Err(_) => {
                return Err(KvsError::Corrupt);
            },
        };
        let ghost record = command@;
        let at: usize = new_log.len();
        match command {
            Command::SET { key, value } => {
                let reached = match store.index.get(key.as_str()) {
                    Some(o) => *o == pos,
                    None => false,
                };
                proof {
                    let k = key@;
                    if store.index().contains_key(k) {
                        assert(latest(rs).contains_key(k));
                        assert(value_comes_from_latest(rs, k));
                        if latest(rs)[k] < j {
                            lemma_offset_increases(rs, latest(rs)[k], j);
                        }
                        if latest(rs)[k] > j {
                            lemma_offset_increases(rs, j, latest(rs)[k]);
                        }
                    }
                    assert(reached == is_live(rs, j));
                }
                if reached {
                    let index_key = key.clone();
                    let mut bytes = encode(&Command::SET { key, value });
                    new_log.append(&mut bytes);
                    new_index.insert(index_key, at);
                    proof {
                        lemma_log_bytes_push(live_upto(rs, j), record);
                        assert(live_upto(rs, j).push(record).drop_last() =~= live_upto(rs, j));
                    }
                }
            },
            _ => {},
        }
        proof {
            j = j + 1;
        }
        pos = pos + n;
    }
    proof {
        lemma_offset_end(rs);
        if j < rs.len() {
            lemma_offset_increases(rs, j, rs.len() as int);
        }
        lemma_compaction_keeps_contents(rs);
        lemma_compaction_shrinks(rs);
    }
    store.log.replace_with(new_log);
    store.index = new_index;
    store.stale.clear();
    store.records = Ghost(live(rs));
    Ok(())
}

} // verus!
