//! The log: an append-only byte stream of records, one after the other with
//! nothing between them.
//!
//! `Log` holds the bytes of the log as the store sees them. It does no input
//! or output. It keeps track of how far its bytes have been written out, so
//! that whoever mirrors it to a file knows what is left to write.

use crate::codec::{
    decoding, encoding, lemma_decoding_of_encoding, lemma_encoding_len, lemma_encoding_unique,
    Record,
};
use crate::error::DecodeError;
use vstd::prelude::*;
use vstd::slice::slice_subrange;

verus! {

/// The bytes of a log that holds the records `rs`, in order.
pub open spec fn log_bytes(rs: Seq<Record>) -> Seq<u8>
    decreases rs.len(),
{
    if rs.len() == 0 {
        Seq::empty()
    } else {
        log_bytes(rs.drop_last()) + encoding(rs.last())
    }
}

/// The byte offset at which record `j` of a log begins.
pub open spec fn offset(rs: Seq<Record>, j: int) -> nat {
    log_bytes(rs.take(j)).len()
}

/// The records that a log is made of; `None` where the bytes are not a
/// sequence of records.
pub open spec fn records_of(log: Seq<u8>) -> Option<Seq<Record>> {
    if exists|rs: Seq<Record>| #[trigger] log_bytes(rs) == log {
        Some(choose|rs: Seq<Record>| #[trigger] log_bytes(rs) == log)
    } else {
        None
    }
}

/// Appending a record to a log appends its bytes.
pub proof fn lemma_log_bytes_push(rs: Seq<Record>, r: Record)
    ensures
        log_bytes(rs.push(r)) == log_bytes(rs) + encoding(r),
{
    assert(rs.push(r).drop_last() =~= rs);
}

/// The bytes of two logs, one after the other, are the bytes of the joined
/// log.
pub proof fn lemma_log_bytes_concat(a: Seq<Record>, b: Seq<Record>)
    ensures
        log_bytes(a + b) == log_bytes(a) + log_bytes(b),
    decreases b.len(),
{
    if b.len() == 0 {
        assert(a + b =~= a);
        assert(log_bytes(a) + log_bytes(b) =~= log_bytes(a));
    } else {
        lemma_log_bytes_concat(a, b.drop_last());
        assert((a + b).drop_last() =~= a + b.drop_last());
        assert((a + b).last() == b.last());
        assert(log_bytes(a + b) =~= log_bytes(a) + log_bytes(b));
    }
}

/// A log is at least 30 bytes long for each of its records.
pub proof fn lemma_log_bytes_len(rs: Seq<Record>)
    ensures
        log_bytes(rs).len() >= 30 * rs.len(),
    decreases rs.len(),
{
    if rs.len() > 0 {
        lemma_log_bytes_len(rs.drop_last());
        lemma_encoding_len(rs.last());
    }
}

/// A non-empty log begins with the bytes of its first record.
pub proof fn lemma_log_bytes_first(rs: Seq<Record>)
    requires
        rs.len() > 0,
    ensures
        log_bytes(rs) == encoding(rs[0]) + log_bytes(rs.skip(1)),
{
    let head = seq![rs[0]];
    assert(head + rs.skip(1) =~= rs);
    lemma_log_bytes_concat(head, rs.skip(1));
    assert(head.drop_last() =~= Seq::<Record>::empty());
    assert(log_bytes(head.drop_last()) =~= Seq::<u8>::empty());
    assert(log_bytes(head) =~= encoding(rs[0]));
}

/// A log splits into records in one way only: where the bytes of `a` are the
/// beginning of the bytes of `b`, the records of `a` are the first records of
/// `b`.
pub proof fn lemma_prefix_records(a: Seq<Record>, b: Seq<Record>)
    requires
        log_bytes(a).is_prefix_of(log_bytes(b)),
    ensures
        a.is_prefix_of(b),
    decreases a.len(),
{
    if a.len() == 0 {
        assert(a =~= b.subrange(0, 0));
    } else {
        lemma_log_bytes_first(a);
        lemma_encoding_len(a[0]);
        let la = log_bytes(a);
        let lb = log_bytes(b);
        assert(la =~= lb.subrange(0, la.len() as int));
        assert(b.len() > 0);
        lemma_log_bytes_first(b);
        let ea = encoding(a[0]);
        let eb = encoding(b[0]);
        assert(ea.is_prefix_of(lb)) by {
            assert(ea =~= lb.subrange(0, ea.len() as int)) by {
                assert forall|k: int| 0 <= k < ea.len() implies ea[k] == lb[k] by {
                    assert(la[k] == ea[k]);
                    assert(lb.subrange(0, la.len() as int)[k] == lb[k]);
                }
            }
        }
        assert(eb.is_prefix_of(lb)) by {
            assert(eb =~= lb.subrange(0, eb.len() as int));
        }
        lemma_encoding_unique(a[0], b[0], lb);
        let ra = log_bytes(a.skip(1));
        let rb = log_bytes(b.skip(1));
        assert(ra.is_prefix_of(rb)) by {
            assert(ra =~= rb.subrange(0, ra.len() as int)) by {
                assert forall|k: int| 0 <= k < ra.len() implies ra[k] == rb[k] by {
                    assert(la[ea.len() + k] == ra[k]);
                    assert(lb.subrange(0, la.len() as int)[ea.len() + k] == lb[ea.len() + k]);
                    assert(lb[ea.len() + k] == rb[k]);
                }
            }
        }
        lemma_prefix_records(a.skip(1), b.skip(1));
        assert(a =~= b.subrange(0, a.len() as int)) by {
            assert(a.skip(1) =~= b.skip(1).subrange(0, a.len() - 1));
            assert forall|k: int| 0 <= k < a.len() implies a[k] == b[k] by {
                if k > 0 {
                    assert(a.skip(1)[k - 1] == a[k]);
                    assert(b.skip(1).subrange(0, a.len() - 1)[k - 1] == b[k]);
                }
            }
        }
    }
}

/// Two logs with the same bytes hold the same records.
pub proof fn lemma_log_bytes_injective(a: Seq<Record>, b: Seq<Record>)
    requires
        log_bytes(a) == log_bytes(b),
    ensures
        a == b,
{
    assert(log_bytes(a) =~= log_bytes(b).subrange(0, log_bytes(a).len() as int));
    lemma_prefix_records(a, b);
    lemma_prefix_records(b, a);
    assert(a =~= b);
}

/// The bytes of a sequence of records are a log of exactly those records.
pub proof fn lemma_records_of_log_bytes(rs: Seq<Record>)
    ensures
        records_of(log_bytes(rs)) == Some(rs),
{
    let found = choose|x: Seq<Record>| #[trigger] log_bytes(x) == log_bytes(rs);
    lemma_log_bytes_injective(found, rs);
}

/// Record `j` of a log stands at its offset, the next record begins where it
/// ends, and reading there gives it back.
pub proof fn lemma_record_at(rs: Seq<Record>, j: int)
    requires
        0 <= j < rs.len(),
    ensures
        offset(rs, j + 1) == offset(rs, j) + encoding(rs[j]).len(),
        offset(rs, j + 1) <= log_bytes(rs).len(),
        encoding(rs[j]).is_prefix_of(log_bytes(rs).skip(offset(rs, j) as int)),
        decoding(log_bytes(rs).skip(offset(rs, j) as int)) == Ok::<(Record, nat), DecodeError>(
            (rs[j], encoding(rs[j]).len()),
        ),
{
    let before = rs.take(j);
    let upto = rs.take(j + 1);
    let after = rs.skip(j + 1);
    assert(upto =~= before.push(rs[j]));
    lemma_log_bytes_push(before, rs[j]);
    assert(upto + after =~= rs);
    lemma_log_bytes_concat(upto, after);
    let t = log_bytes(rs).skip(offset(rs, j) as int);
    assert(t =~= encoding(rs[j]) + log_bytes(after));
    lemma_decoding_of_encoding(rs[j], log_bytes(after));
    assert(encoding(rs[j]) =~= t.subrange(0, encoding(rs[j]).len() as int));
}

/// Later records begin at greater offsets.
pub proof fn lemma_offset_increases(rs: Seq<Record>, i: int, j: int)
    requires
        0 <= i < j <= rs.len(),
    ensures
        offset(rs, i) < offset(rs, j),
{
    let between = rs.subrange(i, j);
    assert(rs.take(i) + between =~= rs.take(j));
    lemma_log_bytes_concat(rs.take(i), between);
    lemma_log_bytes_len(between);
}

/// The offset behind the last record is the length of the log.
pub proof fn lemma_offset_end(rs: Seq<Record>)
    ensures
        offset(rs, rs.len() as int) == log_bytes(rs).len(),
        offset(rs, 0) == 0,
{
    assert(rs.take(rs.len() as int) =~= rs);
    assert(rs.take(0) =~= Seq::<Record>::empty());
}

/// The bytes of the log, and how far they have been written out.
///
/// A log starts out as the bytes that were read from its file. The store
/// appends to it and, when it compacts, replaces it. Whoever mirrors the log
/// to the file writes out `unsynced()`, or all of `bytes()` over a new file
/// where `is_rewritten()` says so, and then calls `mark_synced`.
pub struct Log {
    bytes: Vec<u8>,
    synced: usize,
    rewritten: bool,
}

impl View for Log {
    type V = Seq<u8>;

    closed spec fn view(&self) -> Seq<u8> {
        self.bytes@
    }
}

impl Log {
    /// Well-formedness: what is written out is part of the log.
    pub closed spec fn wf(&self) -> bool {
        self.synced <= self.bytes@.len()
    }

    /// The length of a log is a `usize`.
    pub proof fn lemma_len_fits(self)
        ensures
            self@.len() <= usize::MAX,
    {
        assert(self.bytes.len() == self.bytes@.len());
    }

    /// How many bytes at the beginning of the log are written out already.
    pub closed spec fn synced(&self) -> nat {
        self.synced as nat
    }

    /// Whether the log was replaced since it was last written out.
    pub closed spec fn rewritten(&self) -> bool {
        self.rewritten
    }

    /// The log whose bytes were read from its file: all of them are written
    /// out.
    pub fn new(bytes: Vec<u8>) -> (log: Log)
        ensures
            log.wf(),
            log@ == bytes@,
            log.synced() == bytes@.len(),
            !log.rewritten(),
    {
        let synced: usize = bytes.len();
        Log { bytes, synced, rewritten: false }
    }

    /// The length of the log in bytes: the offset at which the next record
    /// will begin.
    pub fn len(&self) -> (n: usize)
        ensures
            n == self@.len(),
    {
        self.bytes.len()
    }

    /// All bytes of the log.
    pub fn bytes(&self) -> (all: &[u8])
        ensures
            all@ == self@,
    {
        self.bytes.as_slice()
    }

    /// Appends `bytes` to the log and returns the offset at which they were
    /// placed. The log grows by exactly those bytes.
    pub fn append(&mut self, bytes: Vec<u8>) -> (start: usize)
        requires
            old(self).wf(),
        ensures
            final(self).wf(),
            start == old(self)@.len(),
            final(self)@ == old(self)@ + bytes@,
            final(self).synced() == old(self).synced(),
            final(self).rewritten() == old(self).rewritten(),
    {
        let start: usize = self.bytes.len();
        let mut tail = bytes;
        self.bytes.append(&mut tail);
        start
    }

    /// The bytes of the log from `offset` onward; none where `offset` lies
    /// behind the end.
    pub fn read_at(&self, offset: usize) -> (rest: &[u8])
        ensures
            rest@ == if offset <= self@.len() {
                self@.skip(offset as int)
            } else {
                Seq::empty()
            },
    {
        let all = self.bytes.as_slice();
        let from: usize = if offset <= all.len() {
            offset
        } else {
            all.len()
        };
        let rest = slice_subrange(all, from, all.len());
        assert(rest@ =~= if offset <= self@.len() {
            self@.skip(offset as int)
        } else {
            Seq::empty()
        });
        rest
    }

    /// Replaces the log by `bytes`. Nothing of the new log is written out.
    pub fn replace_with(&mut self, bytes: Vec<u8>)
        ensures
            final(self).wf(),
            final(self)@ == bytes@,
            final(self).synced() == 0,
            final(self).rewritten(),
    {
        self.synced = 0;
        self.rewritten = true;
        self.bytes = bytes;
    }

    /// Whether the log was replaced since it was last written out, so that
    /// the file has to be written anew.
    pub fn is_rewritten(&self) -> (b: bool)
        ensures
            b == self.rewritten(),
    {
        self.rewritten
    }

    /// The bytes that are not written out yet.
    pub fn unsynced(&self) -> (rest: &[u8])
        requires
            self.wf(),
        ensures
            rest@ == self@.skip(self.synced() as int),
    {
        let all = self.bytes.as_slice();
        let rest = slice_subrange(all, self.synced, all.len());
        assert(rest@ =~= self@.skip(self.synced() as int));
        rest
    }

    /// Records that all bytes of the log are written out.
    pub fn mark_synced(&mut self)
        ensures
            final(self).wf(),
            final(self)@ == old(self)@,
            final(self).synced() == old(self)@.len(),
            !final(self).rewritten(),
    {
        self.synced = self.bytes.len();
        self.rewritten = false;
    }
}

} // verus!
