//! The index: for each live key, the byte offset of its latest `SET` record in
//! the log. It is built by replaying the log from its beginning.

use crate::codec::{
    decode_one, decoding, lemma_encoding_len, lemma_encoding_of_decoding, Command, Record,
};
use crate::error::KvsError;
use crate::log::{
    lemma_log_bytes_push, lemma_prefix_records, lemma_record_at, lemma_records_of_log_bytes,
    log_bytes, offset, records_of,
};
use vstd::hash_map::StringHashMap;
use vstd::prelude::*;
use vstd::slice::slice_subrange;

verus! {

/// What a log says: each key with the value of its last `SET`, unless an `RM`
/// came after it. `GET` records say nothing.
pub open spec fn contents(rs: Seq<Record>) -> Map<Seq<char>, Seq<char>>
    decreases rs.len(),
{
    if rs.len() == 0 {
        Map::empty()
    } else {
        let before = contents(rs.drop_last());
        match rs.last() {
            Record::SET { key, value } => before.insert(key, value),
            Record::RM { key } => before.remove(key),
            Record::GET { .. } => before,
        }
    }
}

/// The position in the log of the record that each live key has its value
/// from: its last `SET`.
pub open spec fn latest(rs: Seq<Record>) -> Map<Seq<char>, int>
    decreases rs.len(),
{
    if rs.len() == 0 {
        Map::empty()
    } else {
        let before = latest(rs.drop_last());
        match rs.last() {
            Record::SET { key, .. } => before.insert(key, rs.len() - 1),
            Record::RM { key } => before.remove(key),
            Record::GET { .. } => before,
        }
    }
}

/// The index of a log: the byte offset of that record, for each live key.
pub open spec fn index_of(rs: Seq<Record>) -> Map<Seq<char>, usize>
    decreases rs.len(),
{
    if rs.len() == 0 {
        Map::empty()
    } else {
        let before = index_of(rs.drop_last());
        match rs.last() {
            Record::SET { key, .. } => before.insert(key, log_bytes(rs.drop_last()).len() as usize),
            Record::RM { key } => before.remove(key),
            Record::GET { .. } => before,
        }
    }
}

/// The index that replaying `log` gives; `None` where the bytes are not a
/// sequence of records.
pub open spec fn replayed(log: Seq<u8>) -> Option<Map<Seq<char>, usize>> {
    match records_of(log) {
        Some(rs) => Some(index_of(rs)),
        None => None,
    }
}

/// The value of the live key `k` comes from record `latest(rs)[k]`: that
/// record is the `SET` of `k` to its value.
pub open spec fn value_comes_from_latest(rs: Seq<Record>, k: Seq<char>) -> bool {
    let j = latest(rs)[k];
    &&& contents(rs).contains_key(k)
    &&& 0 <= j < rs.len()
    &&& rs[j] == Record::SET { key: k, value: contents(rs)[k] }
}

/// Every live key has its value from the record that `latest` names, and no
/// other key is named.
pub proof fn lemma_latest(rs: Seq<Record>)
    ensures
        latest(rs).dom() == contents(rs).dom(),
        forall|k: Seq<char>| #[trigger]
            latest(rs).contains_key(k) ==> value_comes_from_latest(rs, k),
    decreases rs.len(),
{
    if rs.len() == 0 {
        assert(latest(rs).dom() =~= contents(rs).dom());
    } else {
        let prev = rs.drop_last();
        lemma_latest(prev);
        assert(latest(rs).dom() =~= contents(rs).dom());
        assert forall|k: Seq<char>| #[trigger]
            latest(rs).contains_key(k) implies value_comes_from_latest(rs, k) by {
            let j = latest(rs)[k];
            if !(j == rs.len() - 1 && rs.last() is SET && rs.last().key() == k) {
                assert(latest(prev).contains_key(k));
                assert(value_comes_from_latest(prev, k));
                assert(rs[j] == prev[j]);
            }
        }
    }
}

/// The index holds exactly the live keys, and for each of them the offset of
/// the `SET` record that gave it its value (invariants of the index).
pub proof fn lemma_index_offsets(rs: Seq<Record>)
    requires
        log_bytes(rs).len() <= usize::MAX,
    ensures
        index_of(rs).dom() == contents(rs).dom(),
        forall|k: Seq<char>| #[trigger]
            index_of(rs).contains_key(k) ==> index_of(rs)[k] == offset(rs, latest(rs)[k]),
    decreases rs.len(),
{
    lemma_latest(rs);
    if rs.len() == 0 {
        assert(index_of(rs).dom() =~= contents(rs).dom());
    } else {
        let prev = rs.drop_last();
        lemma_log_bytes_push(prev, rs.last());
        assert(prev.push(rs.last()) =~= rs);
        lemma_index_offsets(prev);
        lemma_latest(prev);
        assert(index_of(rs).dom() =~= contents(rs).dom());
        assert forall|k: Seq<char>| #[trigger] index_of(rs).contains_key(k) implies index_of(rs)[k]
            == offset(rs, latest(rs)[k]) by {
            let j = latest(rs)[k];
            if j == rs.len() - 1 && rs.last() is SET && rs.last().key() == k {
                assert(rs.take(j) =~= prev);
            } else {
                assert(latest(prev).contains_key(k));
                assert(value_comes_from_latest(prev, k));
                assert(rs.take(j) =~= prev.take(j));
            }
        }
    }
}

/// Reading the log at the offset that the index holds for a live key gives
/// the `SET` of that key to its value.
pub proof fn lemma_index_points_to_value(rs: Seq<Record>, k: Seq<char>)
    requires
        log_bytes(rs).len() <= usize::MAX,
        index_of(rs).contains_key(k),
    ensures
        contents(rs).contains_key(k),
        index_of(rs)[k] < log_bytes(rs).len(),
        decoding(log_bytes(rs).skip(index_of(rs)[k] as int)) matches Ok((r, _))
            && r == (Record::SET { key: k, value: contents(rs)[k] }),
{
    lemma_index_offsets(rs);
    lemma_latest(rs);
    assert(latest(rs).contains_key(k));
    assert(value_comes_from_latest(rs, k));
    lemma_record_at(rs, latest(rs)[k]);
    lemma_encoding_len(rs[latest(rs)[k]]);
}

/// Where reading fails in the middle of the bytes, behind some records, the
/// bytes are not a log.
proof fn lemma_not_a_log(log: Seq<u8>, rs: Seq<Record>, pos: int)
    requires
        0 <= pos < log.len(),
        log.take(pos) == log_bytes(rs),
        decoding(log.skip(pos)) is Err,
    ensures
        records_of(log) is None,
{
    assert forall|x: Seq<Record>| #[trigger] log_bytes(x) != log by {
        if log_bytes(x) == log {
            assert(log_bytes(rs).is_prefix_of(log_bytes(x)));
            lemma_prefix_records(rs, x);
            assert(rs =~= x.take(rs.len() as int));
            if rs.len() == x.len() {
                assert(rs =~= x);
            }
            lemma_record_at(x, rs.len() as int);
        }
    }
}

/// Replays the log to build the index: the records are read in order from
/// offset 0; a `SET` puts its key at the offset where the record begins, an
/// `RM` takes its key out, and a `GET` is passed over.
///
/// Fails with `Corrupt` where the bytes are not a sequence of records.
pub fn replay(log: &[u8]) -> (r: Result<StringHashMap<usize>, KvsError>)
    ensures
        replayed(log@) == match r {
            Ok(index) => Some(index@),
            Err(_) => None,
        },
        r matches Err(e) ==> e == KvsError::Corrupt,
{
    let mut index: StringHashMap<usize> = StringHashMap::new();
    let mut pos: usize = 0;
    let ghost mut rs: Seq<Record> = Seq::empty();
    assert(log@.take(0) =~= log_bytes(rs));
    while pos < log.len()
        invariant
            pos <= log.len(),
            log@.take(pos as int) == log_bytes(rs),
            index@ == index_of(rs),
        decreases log.len() - pos,
    {
        let rest = slice_subrange(log, pos, log.len());
        assert(rest@ =~= log@.skip(pos as int));
        match decode_one(rest) {
            Ok((command, n)) => {
                let ghost record = command@;
                proof {
                    lemma_encoding_of_decoding(rest@);
                    lemma_log_bytes_push(rs, record);
                    assert(log@.take(pos + n) =~= log@.take(pos as int) + rest@.subrange(
                        0,
                        n as int,
                    ));
                    assert(rs.push(record).drop_last() =~= rs);
                }
                match command {
                    Command::SET { key, .. } => {
                        index.insert(key, pos);
                    },
                    Command::RM { key } => {
                        index.remove(key.as_str());
                    },
                    Command::GET { .. } => {},
                }
                proof {
                    rs = rs.push(record);
                }
                pos = pos + n;
            },
            Err(_) => {
                proof {
                    lemma_not_a_log(log@, rs, pos as int);
                }
                return Err(KvsError::Corrupt);
            },
        }
    }
    proof {
        assert(log@.take(pos as int) =~= log@);
        lemma_records_of_log_bytes(rs);
    }
    Ok(index)
}

} // verus!
