//! What holds of the store whatever is done with it: theorems that relate its
//! operations to each other, to the log and to compaction.
//!
//! The operations are stated over the view of the store, a map from keys to
//! values: `set` inserts, `remove` removes, and `get` looks up. The theorems
//! below are stated over the same functions.

use crate::codec::{decoding, Record};
use crate::compaction::{lemma_compaction_keeps_contents, lemma_compaction_shrinks, live};
use crate::index::{
    contents, index_of, lemma_index_offsets, lemma_index_points_to_value, replayed,
};
use crate::log::{lemma_log_bytes_push, lemma_records_of_log_bytes, log_bytes, records_of};
use crate::store::{lookup, KvStore};
use vstd::prelude::*;

verus! {

/// Read after write, on the view: whatever the store held, after
/// `set(k, v)` a `get(k)` gives `v`.
pub proof fn lemma_read_after_write(before: Map<Seq<char>, Seq<char>>, k: Seq<char>, v: Seq<char>)
    ensures
        lookup(before.insert(k, v), k) == Some(v),
{
}

/// Overwrite, on the view: after `set(k, v1)` and `set(k, v2)`, a `get(k)`
/// gives `v2`.
pub proof fn lemma_overwrite(
    before: Map<Seq<char>, Seq<char>>,
    k: Seq<char>,
    v1: Seq<char>,
    v2: Seq<char>,
)
    ensures
        lookup(before.insert(k, v1).insert(k, v2), k) == Some(v2),
{
}

/// Remove, on the view: after `set(k, v)` and `remove(k)`, a `get(k)` gives
/// nothing.
pub proof fn lemma_remove(before: Map<Seq<char>, Seq<char>>, k: Seq<char>, v: Seq<char>)
    ensures
        lookup(before.insert(k, v).remove(k), k) is None,
{
}

/// Remove of a missing key, on the view: a key that was never set, or was
/// removed after it was set, is not in the store, which is when `remove`
/// fails with `KeyNotFound`.
pub proof fn lemma_remove_missing(before: Map<Seq<char>, Seq<char>>, k: Seq<char>, v: Seq<char>)
    ensures
        !contents(Seq::<Record>::empty()).contains_key(k),
        !before.remove(k).contains_key(k),
        !before.insert(k, v).remove(k).contains_key(k),
{
}

/// What a `set` and a `remove` do to the records is what they do to the view:
/// a `SET` record inserts, an `RM` record removes, and a `GET` record changes
/// nothing.
pub proof fn lemma_contents_push(rs: Seq<Record>, r: Record)
    ensures
        contents(rs.push(r)) == match r {
            Record::SET { key, value } => contents(rs).insert(key, value),
            Record::RM { key } => contents(rs).remove(key),
            Record::GET { .. } => contents(rs),
        },
{
    assert(rs.push(r).drop_last() =~= rs);
}

/// Persistence: the bytes of a store's log are a log of exactly its records.
/// A store that is opened over them replays to the same index and holds what
/// the first one held.
pub proof fn lemma_persistence(closed: KvStore, reopened: KvStore)
    requires
        closed.wf(),
        reopened.wf(),
        records_of(closed.log_state()@) == Some(reopened.records()),
    ensures
        records_of(closed.log_state()@) == Some(closed.records()),
        replayed(closed.log_state()@) == Some(closed.index()),
        reopened.records() == closed.records(),
        reopened.index() == closed.index(),
        reopened@ == closed@,
{
    lemma_records_of_log_bytes(closed.records());
}

/// The invariants of the index: it holds exactly the keys of the store, and
/// reading the log at the offset it holds for a key gives the `SET` record of
/// that key to its value.
pub proof fn lemma_index_invariants(store: KvStore, k: Seq<char>)
    requires
        store.wf(),
    ensures
        store.index().dom() == store@.dom(),
        store.index().contains_key(k) ==> (decoding(
            store.log_state()@.skip(store.index()[k] as int),
        ) matches Ok((r, _)) && r == (Record::SET { key: k, value: store@[k] })),
{
    store.log_state().lemma_len_fits();
    lemma_index_offsets(store.records());
    if store.index().contains_key(k) {
        lemma_index_points_to_value(store.records(), k);
    }
}

/// The records that a log holds after the commands `written` were appended
/// one by one, where the log was compacted after each command for which
/// `compacted` says so.
pub open spec fn history(written: Seq<Record>, compacted: Seq<bool>) -> Seq<Record>
    decreases written.len(),
{
    if written.len() == 0 {
        Seq::empty()
    } else {
        let appended = history(written.drop_last(), compacted).push(written.last());
        if written.len() <= compacted.len() && compacted[written.len() - 1] {
            live(appended)
        } else {
            appended
        }
    }
}

/// Compaction soundness: however often and whenever the log was compacted,
/// it says what the same commands say without compaction, and it is no
/// longer.
pub proof fn lemma_compaction_sound(written: Seq<Record>, compacted: Seq<bool>)
    ensures
        contents(history(written, compacted)) == contents(written),
        log_bytes(history(written, compacted)).len() <= log_bytes(written).len(),
    decreases written.len(),
{
    if written.len() > 0 {
        let before = history(written.drop_last(), compacted);
        let appended = before.push(written.last());
        lemma_compaction_sound(written.drop_last(), compacted);
        lemma_contents_push(before, written.last());
        lemma_contents_push(written.drop_last(), written.last());
        lemma_log_bytes_push(before, written.last());
        lemma_log_bytes_push(written.drop_last(), written.last());
        assert(written.drop_last().push(written.last()) =~= written);
        lemma_compaction_keeps_contents(appended);
        lemma_compaction_shrinks(appended);
    }
}

/// Replay of a compacted log: the compacted log replays to the index of its
/// records, which holds the keys that the index held before.
pub proof fn lemma_compacted_replays(rs: Seq<Record>)
    requires
        log_bytes(rs).len() <= usize::MAX,
    ensures
        replayed(log_bytes(live(rs))) == Some(index_of(live(rs))),
        index_of(live(rs)).dom() == index_of(rs).dom(),
{
    lemma_records_of_log_bytes(live(rs));
    lemma_compaction_keeps_contents(rs);
    lemma_compaction_shrinks(rs);
    lemma_index_offsets(rs);
    lemma_index_offsets(live(rs));
}

/// Replay idempotence: the index that replay builds is a function of the
/// bytes, so replaying the same bytes twice gives the same index.
pub proof fn lemma_replay_idempotent(
    log: Seq<u8>,
    first: Map<Seq<char>, usize>,
    second: Map<Seq<char>, usize>,
)
    requires
        replayed(log) == Some(first),
        replayed(log) == Some(second),
    ensures
        first == second,
{
}

/// Read after write, on the log: after any commands that end in a `SET` of
/// `k` to `v`, and however the log was compacted on the way, the store holds
/// `v` for `k`.
pub proof fn lemma_last_set_is_read(
    written: Seq<Record>,
    compacted: Seq<bool>,
    k: Seq<char>,
    v: Seq<char>,
)
    requires
        written.len() > 0,
        written.last() == (Record::SET { key: k, value: v }),
    ensures
        lookup(contents(history(written, compacted)), k) == Some(v),
{
    lemma_compaction_sound(written, compacted);
}

/// Overwrite, on the log: of two `SET`s of one key at the end of the
/// commands, the second is read.
pub proof fn lemma_second_set_is_read(
    written: Seq<Record>,
    compacted: Seq<bool>,
    k: Seq<char>,
    v1: Seq<char>,
    v2: Seq<char>,
)
    requires
        written.len() > 1,
        written[written.len() - 2] == (Record::SET { key: k, value: v1 }),
        written.last() == (Record::SET { key: k, value: v2 }),
    ensures
        lookup(contents(history(written, compacted)), k) == Some(v2),
{
    lemma_compaction_sound(written, compacted);
}

/// Remove, on the log: after any commands that end in an `RM` of `k`, the
/// store does not hold `k`, so that a `get(k)` gives nothing and a further
/// `remove(k)` fails with `KeyNotFound`.
pub proof fn lemma_removed_is_missing(written: Seq<Record>, compacted: Seq<bool>, k: Seq<char>)
    requires
        written.len() > 0,
        written.last() == (Record::RM { key: k }),
    ensures
        lookup(contents(history(written, compacted)), k) is None,
        !contents(history(written, compacted)).contains_key(k),
{
    lemma_compaction_sound(written, compacted);
}

/// A key that was never set is not in the store: where no command is a `SET`
/// of `k`, the store does not hold `k`, however the log was compacted.
pub proof fn lemma_never_set_is_missing(written: Seq<Record>, compacted: Seq<bool>, k: Seq<char>)
    requires
        forall|i: int| 0 <= i < written.len() ==> !(#[trigger] written[i] is SET && written[i].key() == k),
    ensures
        !contents(history(written, compacted)).contains_key(k),
    decreases written.len(),
{
    lemma_compaction_sound(written, compacted);
    if written.len() > 0 {
        let before = written.drop_last();
        assert forall|i: int| 0 <= i < before.len() implies !(#[trigger] before[i] is SET
            && before[i].key() == k) by {
            assert(before[i] == written[i]);
        }
        lemma_never_set_is_missing(before, Seq::empty(), k);
        lemma_compaction_sound(before, Seq::empty());
        assert(!(written[written.len() - 1] is SET && written[written.len() - 1].key() == k));
    }
}

} // verus!
