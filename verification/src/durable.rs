//! The durable log's record format: `ts(8) len(4) op_bytes`, appended in
//! delivery order, and its parser. A torn tail (a record cut short by a crash)
//! ends the parse cleanly.

use vstd::prelude::*;
use vstd::bytes::*;
use vstd::slice::*;
use crate::wire::{u32_at, u64_at, push_u64, push_u32, push_slice};
use crate::state::{cap32};

verus! {

/// Encoding of one log record.
pub open spec fn record_bytes(ts: u64, op: Seq<u8>) -> Seq<u8> {
    spec_u64_to_le_bytes(ts) + spec_u32_to_le_bytes(cap32(op.len())) + op
}

/// Encoding of a log: its records in order.
pub open spec fn log_bytes(rs: Seq<(u64, Seq<u8>)>) -> Seq<u8>
    decreases rs.len(),
{
    if rs.len() == 0 {
        Seq::empty()
    } else {
        record_bytes(rs[0].0, rs[0].1) + log_bytes(rs.drop_first())
    }
}

/// The records a raw log holds: read records while a full header remains;
/// stop at a record whose payload runs past the end.
pub open spec fn parse_log_spec(raw: Seq<u8>) -> Seq<(u64, Seq<u8>)>
    decreases raw.len(),
{
    if raw.len() < 12 {
        Seq::empty()
    } else {
        let len = u32_at(raw, 8) as int;
        if 12 + len > raw.len() {
            Seq::empty()
        } else {
            seq![(u64_at(raw, 0), raw.subrange(12, 12 + len))] + parse_log_spec(raw.subrange(12 + len, raw.len() as int))
        }
    }
}

/// Encode one log record.
pub fn encode_record(ts: u64, op_bytes: &[u8]) -> (r: Vec<u8>)
    ensures
        r@ == record_bytes(ts, op_bytes@),
{
    let mut rec: Vec<u8> = Vec::new();
    push_u64(&mut rec, ts);
    let n = op_bytes.len();
    push_u32(&mut rec, if n <= 0xffff_ffff { n as u32 } else { 0xffff_ffff });
    push_slice(&mut rec, op_bytes);
    assert(rec@ =~= record_bytes(ts, op_bytes@));
    rec
}

/// Read every record of a raw log in order as `(ts, op_bytes)`.
pub fn parse_log(raw: &[u8]) -> (r: Vec<(u64, Vec<u8>)>)
    ensures
        r@.map_values(|x: (u64, Vec<u8>)| (x.0, x.1@)) == parse_log_spec(raw@),
{
    let mut out: Vec<(u64, Vec<u8>)> = Vec::new();
    let mut p: usize = 0;
    let len = raw.len();
    assert(raw@.subrange(0, len as int) =~= raw@);
    assert(out@.map_values(|x: (u64, Vec<u8>)| (x.0, x.1@)) + parse_log_spec(raw@) =~= parse_log_spec(raw@));
    while p <= len && len - p >= 12
        invariant
            p <= raw@.len(),
            len == raw@.len(),
            out@.map_values(|x: (u64, Vec<u8>)| (x.0, x.1@)) + parse_log_spec(raw@.subrange(p as int, len as int))
                == parse_log_spec(raw@),
        decreases len - p,
    {
        let ghost rest = raw@.subrange(p as int, len as int);
        let ts = u64_from_le_bytes(slice_subrange(raw, p, p + 8));
        let n = u32_from_le_bytes(slice_subrange(raw, p + 8, p + 12)) as usize;
        assert(rest.subrange(0, 8) =~= raw@.subrange(p as int, p + 8));
        assert(rest.subrange(8, 12) =~= raw@.subrange(p + 8, p + 12));
        if n > len - p - 12 {
            assert(parse_log_spec(rest) =~= Seq::<(u64, Seq<u8>)>::empty());
            assert(out@.map_values(|x: (u64, Vec<u8>)| (x.0, x.1@)) + parse_log_spec(rest)
                =~= out@.map_values(|x: (u64, Vec<u8>)| (x.0, x.1@)));
            return out;
        }
        let body = slice_to_vec(slice_subrange(raw, p + 12, p + 12 + n));
        let ghost before = out@.map_values(|x: (u64, Vec<u8>)| (x.0, x.1@));
        assert(rest.subrange(12, 12 + n as int) =~= body@);
        assert(rest.subrange(12 + n as int, rest.len() as int) =~= raw@.subrange(p + 12 + n, len as int));
        out.push((ts, body));
        assert(out@.map_values(|x: (u64, Vec<u8>)| (x.0, x.1@)) =~= before.push((ts, body@)));
        assert(before.push((ts, body@)) + parse_log_spec(raw@.subrange(p + 12 + n, len as int)) =~= before
            + parse_log_spec(rest));
        p = p + 12 + n;
    }
    let ghost rest = raw@.subrange(p as int, len as int);
    assert(parse_log_spec(rest) =~= Seq::<(u64, Seq<u8>)>::empty());
    assert(out@.map_values(|x: (u64, Vec<u8>)| (x.0, x.1@)) + parse_log_spec(rest)
        =~= out@.map_values(|x: (u64, Vec<u8>)| (x.0, x.1@)));
    out
}

/// Records whose payload length fits the 32-bit field.
pub open spec fn records_fit(rs: Seq<(u64, Seq<u8>)>) -> bool {
    forall|i: int| 0 <= i < rs.len() ==> (#[trigger] rs[i]).1.len() <= 0xffff_ffff
}

/// Reading back what appending wrote: parsing the records' bytes followed by
/// anything yields the records, then whatever the rest parses to. In
/// particular a log parses to exactly its records, and a torn tail shorter
/// than a record header adds nothing.
pub proof fn lemma_parse_log_append(rs: Seq<(u64, Seq<u8>)>, tail: Seq<u8>)
    requires
        records_fit(rs),
    ensures
        parse_log_spec(log_bytes(rs) + tail) == rs + parse_log_spec(tail),
    decreases rs.len(),
{
    lemma_auto_spec_u32_to_from_le_bytes();
    lemma_auto_spec_u64_to_from_le_bytes();
    if rs.len() == 0 {
        assert(log_bytes(rs) + tail =~= tail);
        assert(rs + parse_log_spec(tail) =~= parse_log_spec(tail));
    } else {
        let d = rs.drop_first();
        assert(records_fit(d)) by {
            assert forall|i: int| 0 <= i < d.len() implies (#[trigger] d[i]).1.len() <= 0xffff_ffff by {
                assert(d[i] == rs[i + 1]);
            }
        }
        lemma_parse_log_append(d, tail);
        let (ts, op) = rs[0];
        assert(op.len() <= 0xffff_ffff);
        let all = log_bytes(rs) + tail;
        let rb = record_bytes(ts, op);
        assert(all =~= rb + (log_bytes(d) + tail));
        assert(all.subrange(0, 8) =~= spec_u64_to_le_bytes(ts));
        assert(all.subrange(8, 12) =~= spec_u32_to_le_bytes(cap32(op.len())));
        assert(all.subrange(12, 12 + op.len() as int) =~= op);
        assert(all.subrange(12 + op.len() as int, all.len() as int) =~= log_bytes(d) + tail);
        assert(rs =~= seq![(ts, op)] + d);
    }
}

/// A tail shorter than a record header parses to nothing.
pub proof fn lemma_parse_short(tail: Seq<u8>)
    requires
        tail.len() < 12,
    ensures
        parse_log_spec(tail) == Seq::<(u64, Seq<u8>)>::empty(),
{
}

/// A write torn by a crash loses its whole record and nothing else: the
/// records before it read back in full, and no part of the torn record does
/// (so a multi-key transaction is recovered all or nothing).
pub proof fn lemma_torn_record_dropped(rs: Seq<(u64, Seq<u8>)>, ts: u64, op: Seq<u8>, k: int)
    requires
        records_fit(rs),
        op.len() <= 0xffff_ffff,
        0 <= k < record_bytes(ts, op).len(),
    ensures
        parse_log_spec(log_bytes(rs) + record_bytes(ts, op).take(k)) == rs,
{
    lemma_auto_spec_u32_to_from_le_bytes();
    lemma_auto_spec_u64_to_from_le_bytes();
    let t = record_bytes(ts, op).take(k);
    lemma_parse_log_append(rs, t);
    if k >= 12 {
        assert(t.subrange(8, 12) =~= spec_u32_to_le_bytes(cap32(op.len())));
        assert(u32_at(t, 8) == op.len());
    }
    assert(parse_log_spec(t) =~= Seq::<(u64, Seq<u8>)>::empty());
    assert(rs + parse_log_spec(t) =~= rs);
}

} // verus!
