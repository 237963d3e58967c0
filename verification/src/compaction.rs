//! Compaction: the log rebuilt from the records that the index reaches.
//!
//! A record is live where it is the `SET` that a live key has its value from.
//! The compacted log holds the live records and no others, in their order.

use crate::codec::Record;
use crate::index::{contents, latest, lemma_latest, value_comes_from_latest};
use crate::log::{lemma_log_bytes_push, log_bytes};
use vstd::prelude::*;

verus! {

/// Whether record `j` of the log is live: a `SET` that no later `SET` or `RM`
/// of its key has superseded.
pub open spec fn is_live(rs: Seq<Record>, j: int) -> bool {
    &&& rs[j] is SET
    &&& latest(rs).contains_key(rs[j].key())
    &&& latest(rs)[rs[j].key()] == j
}

/// The live records among the first `j` records of the log, in their order.
pub open spec fn live_upto(rs: Seq<Record>, j: int) -> Seq<Record>
    decreases j,
{
    if j <= 0 {
        Seq::empty()
    } else if is_live(rs, j - 1) {
        live_upto(rs, j - 1).push(rs[j - 1])
    } else {
        live_upto(rs, j - 1)
    }
}

/// The records of the compacted log: the live records, in their order.
pub open spec fn live(rs: Seq<Record>) -> Seq<Record> {
    live_upto(rs, rs.len() as int)
}

/// The keys whose value comes from one of the first `j` records.
pub open spec fn settled(rs: Seq<Record>, j: int) -> Set<Seq<char>> {
    Set::new(|k: Seq<char>| latest(rs).contains_key(k) && latest(rs)[k] < j)
}

/// The live records among the first `j` say of each key that has its value
/// from one of them what the whole log says, and nothing of other keys.
pub proof fn lemma_live_upto_contents(rs: Seq<Record>, j: int)
    requires
        0 <= j <= rs.len(),
    ensures
        contents(live_upto(rs, j)) == contents(rs).restrict(settled(rs, j)),
    decreases j,
{
    lemma_latest(rs);
    if j == 0 {
        assert(contents(live_upto(rs, j)) =~= contents(rs).restrict(settled(rs, j)));
    } else {
        lemma_live_upto_contents(rs, j - 1);
        let before = live_upto(rs, j - 1);
        let r = rs[j - 1];
        if is_live(rs, j - 1) {
            assert(before.push(r).drop_last() =~= before);
            assert(value_comes_from_latest(rs, r.key()));
        }
        assert forall|k: Seq<char>| settled(rs, j).contains(k) && !settled(rs, j - 1).contains(
            k,
        ) implies is_live(rs, j - 1) && r.key() == k by {
            assert(latest(rs).contains_key(k));
            assert(value_comes_from_latest(rs, k));
        }
        assert(contents(live_upto(rs, j)) =~= contents(rs).restrict(settled(rs, j)));
    }
}

/// Compaction is sound: the compacted log says of every key what the log
/// said.
pub proof fn lemma_compaction_keeps_contents(rs: Seq<Record>)
    ensures
        contents(live(rs)) == contents(rs),
{
    lemma_latest(rs);
    lemma_live_upto_contents(rs, rs.len() as int);
    assert forall|k: Seq<char>| contents(rs).contains_key(k) implies settled(
        rs,
        rs.len() as int,
    ).contains(k) by {
        assert(latest(rs).contains_key(k));
        assert(value_comes_from_latest(rs, k));
    }
    assert(contents(rs).restrict(settled(rs, rs.len() as int)) =~= contents(rs));
}

/// The live records among the first `j` take no more bytes than the first `j`
/// records.
pub proof fn lemma_live_upto_len(rs: Seq<Record>, j: int)
    requires
        0 <= j <= rs.len(),
    ensures
        log_bytes(live_upto(rs, j)).len() <= log_bytes(rs.take(j)).len(),
    decreases j,
{
    if j > 0 {
        lemma_live_upto_len(rs, j - 1);
        assert(rs.take(j) =~= rs.take(j - 1).push(rs[j - 1]));
        lemma_log_bytes_push(rs.take(j - 1), rs[j - 1]);
        lemma_log_bytes_push(live_upto(rs, j - 1), rs[j - 1]);
    }
}

/// Compaction does not grow the log.
pub proof fn lemma_compaction_shrinks(rs: Seq<Record>)
    ensures
        log_bytes(live(rs)).len() <= log_bytes(rs).len(),
{
    lemma_live_upto_len(rs, rs.len() as int);
    assert(rs.take(rs.len() as int) =~= rs);
}

/// Each of the live records among the first `j` is live among them too: it
/// is a `SET`, of a key that has its value from one of the first `j` records,
/// and no other of them speaks of that key.
pub proof fn lemma_live_upto_all_live(rs: Seq<Record>, j: int)
    requires
        0 <= j <= rs.len(),
    ensures
        forall|x: int|
            0 <= x < live_upto(rs, j).len() ==> #[trigger] is_live(live_upto(rs, j), x)
                && settled(rs, j).contains(live_upto(rs, j)[x].key()),
    decreases j,
{
    if j > 0 {
        lemma_live_upto_all_live(rs, j - 1);
        let before = live_upto(rs, j - 1);
        let now = live_upto(rs, j);
        if is_live(rs, j - 1) {
            let r = rs[j - 1];
            assert(now.drop_last() =~= before);
            assert forall|x: int| 0 <= x < now.len() implies #[trigger] is_live(now, x) && settled(
                rs,
                j,
            ).contains(now[x].key()) by {
                if x < before.len() {
                    assert(is_live(before, x));
                    assert(settled(rs, j - 1).contains(before[x].key()));
                    assert(now[x] == before[x]);
                }
            }
        } else {
            assert forall|x: int| 0 <= x < now.len() implies #[trigger] is_live(now, x) && settled(
                rs,
                j,
            ).contains(now[x].key()) by {
                assert(is_live(before, x));
                assert(settled(rs, j - 1).contains(before[x].key()));
            }
        }
    }
}

/// The compacted log holds one `SET` for each live key and nothing else:
/// every record of it is live in it, so compacting it again changes nothing.
pub proof fn lemma_compacted_is_compact(rs: Seq<Record>)
    ensures
        forall|x: int| 0 <= x < live(rs).len() ==> #[trigger] is_live(live(rs), x),
        live(live(rs)) == live(rs),
{
    lemma_live_upto_all_live(rs, rs.len() as int);
    lemma_all_live(live(rs), live(rs).len() as int);
    assert(live(rs).take(live(rs).len() as int) =~= live(rs));
}

/// Where the first `j` records of a log are all live, they are the live
/// records among the first `j`.
proof fn lemma_all_live(rs: Seq<Record>, j: int)
    requires
        0 <= j <= rs.len(),
        forall|x: int| 0 <= x < j ==> #[trigger] is_live(rs, x),
    ensures
        live_upto(rs, j) == rs.take(j),
    decreases j,
{
    if j > 0 {
        lemma_all_live(rs, j - 1);
        assert(rs.take(j) =~= rs.take(j - 1).push(rs[j - 1]));
    } else {
        assert(rs.take(0) =~= Seq::<Record>::empty());
    }
}

} // verus!
