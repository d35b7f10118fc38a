//! The progress log: fixed-size, checksummed records appended after each wave barrier.
//! It is only a lower bound and a consistency check; observation of the tree is
//! authoritative. Torn or corrupt regions are skipped.
use vstd::prelude::*;

use crate::bytes::bytes_eq;
use crate::checksum::{blake3_of, checksum};

verus! {

/// One record of the log.
#[derive(Clone, Copy, Debug, PartialEq, Eq, Structural)]
pub enum Record {
    ApplyDone(u32),
    UndoDone(u32),
}

/// The length of an encoded record.
pub const LEN: usize = 16;

/// `FXPR`.
pub open spec fn magic() -> Seq<u8> {
    seq![70u8, 88u8, 80u8, 82u8]
}

/// `n` in four bytes, least significant first.
pub open spec fn le_bytes(n: u32) -> Seq<u8> {
    seq![(n % 256) as u8, (n / 256 % 256) as u8, (n / 65536 % 256) as u8, (n / 16777216) as u8]
}

/// The number that four bytes stand for, least significant first.
pub open spec fn le_value(a: u8, b: u8, c: u8, d: u8) -> u32 {
    (a + 256 * b + 65536 * c + 16777216 * d) as u32
}

/// The first twelve bytes of an encoded record.
pub open spec fn record_head(r: Record) -> Seq<u8> {
    let (kind, wave) = match r {
        Record::ApplyDone(w) => (1u8, w),
        Record::UndoDone(w) => (2u8, w),
    };
    magic() + seq![kind, 0u8, 0u8, 0u8] + le_bytes(wave)
}

/// The first four bytes of the checksum of `head`.
pub open spec fn short_sum(head: Seq<u8>) -> Seq<u8> {
    Seq::new(4, |i: int| blake3_of(head)[i])
}

/// An encoded record: its head, and the first four bytes of the head's checksum.
pub open spec fn record_bytes(r: Record) -> Seq<u8> {
    record_head(r) + short_sum(record_head(r))
}

/// The record that starts at `i`, if one does.
pub open spec fn record_at(bytes: Seq<u8>, i: int) -> Option<Record> {
    if 0 <= i && i + LEN <= bytes.len() && bytes.subrange(i, i + 4) == magic() && bytes.subrange(i + 5, i + 8)
        == seq![0u8, 0u8, 0u8] && bytes.subrange(i + 12, i + 16) == short_sum(
        bytes.subrange(i, i + 12),
    ) {
        let wave = le_value(bytes[i + 8], bytes[i + 9], bytes[i + 10], bytes[i + 11]);
        if bytes[i + 4] == 1 {
            Some(Record::ApplyDone(wave))
        } else if bytes[i + 4] == 2 {
            Some(Record::UndoDone(wave))
        } else {
            None
        }
    } else {
        None
    }
}

/// Every record from position `i` on; bytes that start no record are skipped one by one.
pub open spec fn records_from(bytes: Seq<u8>, i: int) -> Seq<Record>
    decreases bytes.len() - i,
{
    if i < 0 || i + LEN > bytes.len() {
        Seq::empty()
    } else {
        match record_at(bytes, i) {
            Some(r) => seq![r] + records_from(bytes, i + LEN),
            None => records_from(bytes, i + 1),
        }
    }
}

/// Four bytes for `n`, least significant first.
fn write_le(n: u32) -> (r: Vec<u8>)
    ensures
        r@ == le_bytes(n),
{
    let r: Vec<u8> = vec![
        (n % 256) as u8,
        (n / 256 % 256) as u8,
        (n / 65536 % 256) as u8,
        (n / 16777216) as u8,
    ];
    assert(r@ =~= le_bytes(n));
    r
}

/// The number that four bytes stand for.
fn read_le(a: u8, b: u8, c: u8, d: u8) -> (r: u32)
    ensures
        r == le_value(a, b, c, d),
{
    a as u32 + 256 * (b as u32) + 65536 * (c as u32) + 16777216 * (d as u32)
}

/// The first four bytes of the checksum of `head`.
fn check(head: &[u8]) -> (r: Vec<u8>)
    ensures
        r@ == short_sum(head@),
        r@.len() == 4,
{
    let h = checksum(head);
    let r: Vec<u8> = vec![h[0], h[1], h[2], h[3]];
    assert(r@ =~= short_sum(head@));
    r
}

/// Encodes one record.
pub fn encode(r: Record) -> (out: Vec<u8>)
    ensures
        out@ == record_bytes(r),
        out@.len() == LEN,
{
    let (kind, wave): (u8, u32) = match r {
        Record::ApplyDone(w) => (1, w),
        Record::UndoDone(w) => (2, w),
    };
    let mut out: Vec<u8> = vec![70, 88, 80, 82, kind, 0, 0, 0];
    let mut le = write_le(wave);
    out.append(&mut le);
    assert(out@ =~= record_head(r));
    let mut c = check(&out);
    out.append(&mut c);
    assert(out@ =~= record_bytes(r));
    out
}

/// Reads the record that starts at `i`.
fn read_record(bytes: &[u8], i: usize) -> (r: Option<Record>)
    requires
        i + LEN <= bytes@.len(),
    ensures
        r == record_at(bytes@, i as int),
{
    let n = bytes.len();
    assert(i + LEN <= n);
    let m: Vec<u8> = vec![70, 88, 80, 82];
    let zeros: Vec<u8> = vec![0, 0, 0];
    assert(m@ =~= magic());
    assert(zeros@ =~= seq![0u8, 0u8, 0u8]);
    if !bytes_eq(vstd::slice::slice_subrange(bytes, i, i + 4), &m) {
        return None;
    }
    if !bytes_eq(vstd::slice::slice_subrange(bytes, i + 5, i + 8), &zeros) {
        return None;
    }
    let c = check(vstd::slice::slice_subrange(bytes, i, i + 12));
    if !bytes_eq(vstd::slice::slice_subrange(bytes, i + 12, i + 16), &c) {
        return None;
    }
    let wave = read_le(bytes[i + 8], bytes[i + 9], bytes[i + 10], bytes[i + 11]);
    if bytes[i + 4] == 1 {
        Some(Record::ApplyDone(wave))
    } else if bytes[i + 4] == 2 {
        Some(Record::UndoDone(wave))
    } else {
        None
    }
}

/// Returns every valid record. Corrupt or torn regions (e.g. an unsynced tail cut by a
/// power loss, followed by records appended by a later recovery) are skipped by scanning
/// forward byte by byte, so later records are never hidden behind garbage. Only the set of
/// records matters (recovery uses their min/max), not their order.
pub fn parse(bytes: &[u8]) -> (out: Vec<Record>)
    ensures
        out@ == records_from(bytes@, 0),
{
    let mut out: Vec<Record> = Vec::new();
    let n = bytes.len();
    let mut i: usize = 0;
    while i < n && n - i >= LEN
        invariant
            i <= n,
            n == bytes@.len(),
            out@ + records_from(bytes@, i as int) == records_from(bytes@, 0),
        decreases n - i,
    {
        match read_record(bytes, i) {
            Some(r) => {
                let ghost before = out@;
                out.push(r);
                assert(out@ + records_from(bytes@, i + LEN) =~= before + (seq![r] + records_from(bytes@, i + LEN)));
                i = i + LEN;
            },
            None => {
                i = i + 1;
            },
        }
    }
    assert(records_from(bytes@, i as int) =~= Seq::<Record>::empty());
    assert(out@ =~= out@ + Seq::<Record>::empty());
    out
}

proof fn lemma_le_round_trip(n: u32)
    ensures
        le_value(le_bytes(n)[0], le_bytes(n)[1], le_bytes(n)[2], le_bytes(n)[3]) == n,
{
}

/// An encoded record reads back, wherever it stands.
pub proof fn law_record_round_trip(before: Seq<u8>, r: Record, after: Seq<u8>)
    ensures
        record_at(before + record_bytes(r) + after, before.len() as int) == Some(r),
{
    let all = before + record_bytes(r) + after;
    let i = before.len() as int;
    let wave = match r {
        Record::ApplyDone(w) => w,
        Record::UndoDone(w) => w,
    };
    assert(all.subrange(i, i + 4) =~= magic());
    assert(all.subrange(i + 5, i + 8) =~= seq![0u8, 0u8, 0u8]);
    assert(all.subrange(i, i + 12) =~= record_head(r));
    assert(all.subrange(i + 12, i + 16) =~= short_sum(record_head(r)));
    lemma_le_round_trip(wave);
    assert(all[i + 8] == le_bytes(wave)[0]);
    assert(all[i + 9] == le_bytes(wave)[1]);
    assert(all[i + 10] == le_bytes(wave)[2]);
    assert(all[i + 11] == le_bytes(wave)[3]);
}

/// Resynchronisation: bytes in which no record starts, be they torn or corrupt, hide nothing
/// that follows them. The record behind them is read, and reading goes on after it.
pub proof fn law_records_behind_garbage_are_found(garbage: Seq<u8>, r: Record, rest: Seq<u8>)
    requires
        forall|i: int|
            0 <= i < garbage.len() ==> #[trigger] record_at(garbage + record_bytes(r) + rest, i) is None,
    ensures
        records_from(garbage + record_bytes(r) + rest, 0) == seq![r] + records_from(rest, 0),
{
    let all = garbage + record_bytes(r) + rest;
    let n = garbage.len() as int;
    lemma_skip(all, 0, n);
    law_record_round_trip(garbage, r, rest);
    assert(all.skip(n + LEN) =~= rest);
    lemma_shift(all, rest, n + LEN, 0);
}

proof fn lemma_skip(all: Seq<u8>, i: int, n: int)
    requires
        0 <= i <= n,
        n + LEN <= all.len(),
        forall|j: int| i <= j < n ==> #[trigger] record_at(all, j) is None,
    ensures
        records_from(all, i) == records_from(all, n),
    decreases n - i,
{
    if i < n {
        lemma_skip(all, i + 1, n);
    }
}

proof fn lemma_shift(all: Seq<u8>, rest: Seq<u8>, n: int, i: int)
    requires
        n >= 0,
        0 <= i,
        all.len() == n + rest.len(),
        all.skip(n) == rest,
    ensures
        records_from(all, n + i) == records_from(rest, i),
    decreases rest.len() - i,
{
    if i + LEN <= rest.len() {
        assert(forall|j: int| 0 <= j < rest.len() ==> #[trigger] all.skip(n)[j] == all[n + j]);
        assert(all.subrange(n + i, n + i + 4) =~= rest.subrange(i, i + 4));
        assert(all.subrange(n + i + 5, n + i + 8) =~= rest.subrange(i + 5, i + 8));
        assert(all.subrange(n + i + 12, n + i + 16) =~= rest.subrange(i + 12, i + 16));
        assert(all.subrange(n + i, n + i + 12) =~= rest.subrange(i, i + 12));
        assert(all[n + i + 4] == rest[i + 4]);
        assert(all[n + i + 8] == rest[i + 8]);
        assert(all[n + i + 9] == rest[i + 9]);
        assert(all[n + i + 10] == rest[i + 10]);
        assert(all[n + i + 11] == rest[i + 11]);
        assert(record_at(all, n + i) == record_at(rest, i));
        lemma_shift(all, rest, n, i + LEN);
        lemma_shift(all, rest, n, i + 1);
    }
}

/// The encoding of a whole log.
pub open spec fn log_bytes(recs: Seq<Record>) -> Seq<u8>
    decreases recs.len(),
{
    if recs.len() == 0 {
        Seq::empty()
    } else {
        record_bytes(recs[0]) + log_bytes(recs.drop_first())
    }
}

/// A log that was written whole reads back as it was written.
pub proof fn law_log_round_trip(recs: Seq<Record>)
    ensures
        records_from(log_bytes(recs), 0) == recs,
    decreases recs.len(),
{
    if recs.len() > 0 {
        let rest = log_bytes(recs.drop_first());
        law_log_round_trip(recs.drop_first());
        let none = Seq::<u8>::empty();
        assert(none + record_bytes(recs[0]) + rest =~= log_bytes(recs));
        law_records_behind_garbage_are_found(none, recs[0], rest);
        assert(seq![recs[0]] + recs.drop_first() =~= recs);
    } else {
        assert(recs =~= Seq::<Record>::empty());
    }
}

} // verus!
