//! The replicated state machine: a `key → bytes` store with Redis semantics
//! (`Set` idempotent, `Incr` non-idempotent, `Del`, `Get`, and an atomic
//! multi-key `Txn`), the client request type `Op` with its wire/log encoding,
//! and the `StateMachine` interface the replication engine drives.

use vstd::prelude::*;
use vstd::bytes::*;
use vstd::utf8::*;
use vstd::slice::*;
use crate::wire::{i64_le, i64_at, u16_at, u32_at, u64_at, push_u16, push_u32, push_u64, push_i64, push_slice, Reader};
use crate::text::{decimal, decimal_bytes, string_from_utf8, str_from_utf8, int_text_value, parse_int_text, lemma_decimal_parses};
use crate::sorted::{
    bytes_order, bytes_lt, bytes_less, sorted_by, to_map, has_key, sorted_entries, strict_total,
    lemma_bytes_order_total, lemma_insert_at, lemma_update_at, lemma_remove_at, lemma_to_map_at,
    lemma_sorted_distinct, lemma_sorted_entries_of, lemma_map_len,
};
use vstd::pervasive::VecAdditionalExecFns;

verus! {

broadcast use vstd::utf8::group_utf8_lib;

/// A client request. `(client, seq)` is the dedup key; `seq` is per-client and
/// strictly increasing, starting at 1.
#[derive(Clone, Debug, PartialEq, Eq)]
pub struct Op {
    pub client: u32,
    pub seq: u64,
    pub kind: OpKind,
}

#[derive(Clone, Debug, PartialEq, Eq)]
pub enum OpKind {
    /// Idempotent write of an opaque value.
    Put(String, Vec<u8>),
    /// Non-idempotent: a duplicate replay double-counts unless suppressed.
    Incr(String, i64),
    /// Delete a key (idempotent).
    Del(String),
    /// Read-only.
    Get(String),
    /// Atomic multi-key write: `(key, Some(value) = set | None = delete)`,
    /// applied all-or-nothing as one unit.
    Txn(Vec<(String, Option<Vec<u8>>)>),
}

/// The result handed back to the caller.
#[derive(Clone, Debug, PartialEq, Eq)]
pub enum Output {
    Done,
    /// Integer result (INCR's new value, DEL's count).
    Value(Option<i64>),
    /// Bytes result (GET).
    Bytes(Option<Vec<u8>>),
    /// A duplicate that was recognized and neither re-applied nor re-emitted.
    Suppressed,
}

/// One write of a transaction, as values.
pub type WriteSpec = (Seq<char>, Option<Seq<u8>>);

/// An operation kind, as values.
pub enum KindSpec {
    Put(Seq<char>, Seq<u8>),
    Incr(Seq<char>, i64),
    Del(Seq<char>),
    Get(Seq<char>),
    Txn(Seq<WriteSpec>),
}

/// A request, as values.
pub struct OpSpec {
    pub client: u32,
    pub seq: u64,
    pub kind: KindSpec,
}

/// An output, as values.
pub enum OutputSpec {
    Done,
    Value(Option<i64>),
    Bytes(Option<Seq<u8>>),
    Suppressed,
}

pub open spec fn opt_bytes_view(v: Option<Vec<u8>>) -> Option<Seq<u8>> {
    match v {
        Some(b) => Some(b@),
        None => None,
    }
}

pub open spec fn write_view(w: (String, Option<Vec<u8>>)) -> WriteSpec {
    (w.0@, opt_bytes_view(w.1))
}

pub open spec fn writes_view(ws: Seq<(String, Option<Vec<u8>>)>) -> Seq<WriteSpec> {
    Seq::new(ws.len(), |i: int| write_view(ws[i]))
}

impl View for OpKind {
    type V = KindSpec;

    open spec fn view(&self) -> KindSpec {
        match self {
            OpKind::Put(k, v) => KindSpec::Put(k@, v@),
            OpKind::Incr(k, d) => KindSpec::Incr(k@, *d),
            OpKind::Del(k) => KindSpec::Del(k@),
            OpKind::Get(k) => KindSpec::Get(k@),
            OpKind::Txn(ws) => KindSpec::Txn(writes_view(ws@)),
        }
    }
}

impl View for Op {
    type V = OpSpec;

    open spec fn view(&self) -> OpSpec {
        OpSpec { client: self.client, seq: self.seq, kind: self.kind@ }
    }
}

impl View for Output {
    type V = OutputSpec;

    open spec fn view(&self) -> OutputSpec {
        match self {
            Output::Done => OutputSpec::Done,
            Output::Value(v) => OutputSpec::Value(*v),
            Output::Bytes(b) => OutputSpec::Bytes(opt_bytes_view(*b)),
            Output::Suppressed => OutputSpec::Suppressed,
        }
    }
}

/// The UTF-8 bytes of a key.
pub open spec fn key_bytes(k: Seq<char>) -> Seq<u8> {
    encode_utf8(k)
}

/// A length as stored in a 16-bit field (saturating at `u16::MAX`).
pub open spec fn cap16(n: nat) -> u16 {
    if n <= 0xffff { n as u16 } else { 0xffff }
}

/// A length as stored in a 32-bit field (saturating at `u32::MAX`).
pub open spec fn cap32(n: nat) -> u32 {
    if n <= 0xffff_ffff { n as u32 } else { 0xffff_ffff }
}

/// A 16-bit length prefix followed by the bytes.
pub open spec fn field16(b: Seq<u8>) -> Seq<u8> {
    spec_u16_to_le_bytes(cap16(b.len())) + b
}

/// A 32-bit length prefix followed by the bytes.
pub open spec fn field32(b: Seq<u8>) -> Seq<u8> {
    spec_u32_to_le_bytes(cap32(b.len())) + b
}

/// Encoding of one transaction write: `keylen(2) key flag(1) [vallen(4) val]`.
pub open spec fn write_bytes(w: WriteSpec) -> Seq<u8> {
    field16(key_bytes(w.0)) + match w.1 {
        Some(v) => seq![1u8] + field32(v),
        None => seq![0u8],
    }
}

/// Encoding of a list of transaction writes, in order.
pub open spec fn writes_bytes(ws: Seq<WriteSpec>) -> Seq<u8>
    decreases ws.len(),
{
    if ws.len() == 0 {
        Seq::empty()
    } else {
        writes_bytes(ws.drop_last()) + write_bytes(ws.last())
    }
}

pub open spec fn kind_tag(k: KindSpec) -> u8 {
    match k {
        KindSpec::Put(..) => 0,
        KindSpec::Incr(..) => 1,
        KindSpec::Get(..) => 2,
        KindSpec::Del(..) => 3,
        KindSpec::Txn(..) => 4,
    }
}

/// The key the header carries (empty for a transaction).
pub open spec fn kind_key(k: KindSpec) -> Seq<char> {
    match k {
        KindSpec::Put(key, _) => key,
        KindSpec::Incr(key, _) => key,
        KindSpec::Get(key) => key,
        KindSpec::Del(key) => key,
        KindSpec::Txn(_) => Seq::empty(),
    }
}

pub open spec fn kind_body(k: KindSpec) -> Seq<u8> {
    match k {
        KindSpec::Put(_, v) => field32(v),
        KindSpec::Incr(_, d) => i64_le(d),
        KindSpec::Get(_) => Seq::empty(),
        KindSpec::Del(_) => Seq::empty(),
        KindSpec::Txn(ws) => spec_u16_to_le_bytes(cap16(ws.len())) + writes_bytes(ws),
    }
}

/// Wire/log encoding of a request:
/// `tag(1) client(4) seq(8) keylen(2) key [vallen(4) val | delta(8) | count(2) writes]`.
pub open spec fn encode_op(op: OpSpec) -> Seq<u8> {
    seq![kind_tag(op.kind)] + spec_u32_to_le_bytes(op.client) + spec_u64_to_le_bytes(op.seq)
        + field16(key_bytes(kind_key(op.kind))) + kind_body(op.kind)
}

/// Decoding one transaction write at `q`: the write and the position after it.
pub open spec fn decode_write(b: Seq<u8>, q: int) -> Option<(WriteSpec, int)> {
    if q + 2 > b.len() {
        None
    } else {
        let kl = u16_at(b, q) as int;
        if q + 2 + kl > b.len() {
            None
        } else {
            let kb = b.subrange(q + 2, q + 2 + kl);
            if !valid_utf8(kb) {
                None
            } else {
                let r = q + 2 + kl;
                if r + 1 > b.len() {
                    None
                } else if b[r] == 1 {
                    if r + 5 > b.len() {
                        None
                    } else {
                        let vl = u32_at(b, r + 1) as int;
                        if r + 5 + vl > b.len() {
                            None
                        } else {
                            Some(((decode_utf8(kb), Some(b.subrange(r + 5, r + 5 + vl))), r + 5 + vl))
                        }
                    }
                } else {
                    Some(((decode_utf8(kb), None), r + 1))
                }
            }
        }
    }
}

/// Decoding `n` consecutive transaction writes from `p`.
pub open spec fn decode_writes(b: Seq<u8>, p: int, n: nat) -> Option<(Seq<WriteSpec>, int)>
    decreases n,
{
    if n == 0 {
        Some((Seq::empty(), p))
    } else {
        match decode_writes(b, p, (n - 1) as nat) {
            None => None,
            Some((ws, q)) => match decode_write(b, q) {
                None => None,
                Some((w, r)) => Some((ws.push(w), r)),
            },
        }
    }
}

/// Decoding the body that follows the header, given the tag and key.
pub open spec fn decode_body(b: Seq<u8>, tag: u8, key: Seq<char>, p: int) -> Option<KindSpec> {
    if tag == 0 {
        if p + 4 > b.len() {
            None
        } else {
            let vl = u32_at(b, p) as int;
            if p + 4 + vl > b.len() {
                None
            } else {
                Some(KindSpec::Put(key, b.subrange(p + 4, p + 4 + vl)))
            }
        }
    } else if tag == 1 {
        if p + 8 > b.len() {
            None
        } else {
            Some(KindSpec::Incr(key, i64_at(b, p)))
        }
    } else if tag == 2 {
        Some(KindSpec::Get(key))
    } else if tag == 3 {
        Some(KindSpec::Del(key))
    } else if tag == 4 {
        if p + 2 > b.len() {
            None
        } else {
            match decode_writes(b, p + 2, u16_at(b, p) as nat) {
                Some((ws, _)) => Some(KindSpec::Txn(ws)),
                None => None,
            }
        }
    } else {
        None
    }
}

/// Decoding a request from the front of `b` (trailing bytes are ignored).
pub open spec fn decode_op(b: Seq<u8>) -> Option<OpSpec> {
    if b.len() < 15 {
        None
    } else {
        let klen = u16_at(b, 13) as int;
        if 15 + klen > b.len() {
            None
        } else {
            let kb = b.subrange(15, 15 + klen);
            if !valid_utf8(kb) {
                None
            } else {
                match decode_body(b, b[0], decode_utf8(kb), 15 + klen) {
                    Some(kind) => Some(OpSpec { client: u32_at(b, 1), seq: u64_at(b, 5), kind }),
                    None => None,
                }
            }
        }
    }
}

/// Every length the encoding stores fits its field, so decoding gives it back.
pub open spec fn op_fits_wire(op: OpSpec) -> bool {
    &&& key_bytes(kind_key(op.kind)).len() <= 0xffff
    &&& match op.kind {
        KindSpec::Put(_, v) => v.len() <= 0xffff_ffff,
        KindSpec::Txn(ws) => {
            &&& ws.len() <= 0xffff
            &&& forall|i: int| 0 <= i < ws.len() ==> #[trigger] write_fits(ws[i])
        },
        _ => true,
    }
}

pub open spec fn write_fits(w: WriteSpec) -> bool {
    &&& key_bytes(w.0).len() <= 0xffff
    &&& match w.1 {
        Some(v) => v.len() <= 0xffff_ffff,
        None => true,
    }
}

fn len_u16(n: usize) -> (r: u16)
    ensures
        r == cap16(n as nat),
{
    if n <= 0xffff { n as u16 } else { 0xffff }
}

fn len_u32(n: usize) -> (r: u32)
    ensures
        r == cap32(n as nat),
{
    if n <= 0xffff_ffff { n as u32 } else { 0xffff_ffff }
}

/// Append a 16-bit length-prefixed byte string.
pub fn push_field16(out: &mut Vec<u8>, b: &[u8])
    ensures
        final(out)@ == old(out)@ + field16(b@),
{
    push_u16(out, len_u16(b.len()));
    push_slice(out, b);
    assert(final(out)@ =~= old(out)@ + field16(b@));
}

/// Append a 32-bit length-prefixed byte string.
pub fn push_field32(out: &mut Vec<u8>, b: &[u8])
    ensures
        final(out)@ == old(out)@ + field32(b@),
{
    push_u32(out, len_u32(b.len()));
    push_slice(out, b);
    assert(final(out)@ =~= old(out)@ + field32(b@));
}

/// The UTF-8 bytes of a string.
pub fn str_bytes(s: &str) -> (r: &[u8])
    ensures
        r@ == key_bytes(s@),
{
    s.as_bytes()
}

impl Op {
    /// Set an integer value (stored as decimal text, like Redis).
    pub fn set(client: u32, seq: u64, key: &str, val: i64) -> (r: Self)
        ensures
            r@ == (OpSpec { client, seq, kind: KindSpec::Put(key@, decimal(val as int)) }),
    {
        let d = decimal_bytes(val);
        Self::set_bytes(client, seq, key, d.as_slice())
    }

    pub fn set_bytes(client: u32, seq: u64, key: &str, val: &[u8]) -> (r: Self)
        ensures
            r@ == (OpSpec { client, seq, kind: KindSpec::Put(key@, val@) }),
    {
        Op { client, seq, kind: OpKind::Put(key.to_owned(), slice_to_vec(val)) }
    }

    pub fn incr(client: u32, seq: u64, key: &str, delta: i64) -> (r: Self)
        ensures
            r@ == (OpSpec { client, seq, kind: KindSpec::Incr(key@, delta) }),
    {
        Op { client, seq, kind: OpKind::Incr(key.to_owned(), delta) }
    }

    pub fn del(client: u32, seq: u64, key: &str) -> (r: Self)
        ensures
            r@ == (OpSpec { client, seq, kind: KindSpec::Del(key@) }),
    {
        Op { client, seq, kind: OpKind::Del(key.to_owned()) }
    }

    pub fn get(client: u32, seq: u64, key: &str) -> (r: Self)
        ensures
            r@ == (OpSpec { client, seq, kind: KindSpec::Get(key@) }),
    {
        Op { client, seq, kind: OpKind::Get(key.to_owned()) }
    }

    pub fn txn(client: u32, seq: u64, writes: Vec<(String, Option<Vec<u8>>)>) -> (r: Self)
        ensures
            r@ == (OpSpec { client, seq, kind: KindSpec::Txn(writes_view(writes@)) }),
    {
        Op { client, seq, kind: OpKind::Txn(writes) }
    }

    /// Wire/log encoding: `tag(1) client(4) seq(8) keylen(2) key [vallen(4) val | delta(8) | count(2) writes]`.
    pub fn encode(&self) -> (r: Vec<u8>)
        ensures
            r@ == encode_op(self@),
    {
        let mut o: Vec<u8> = Vec::new();
        let tag: u8 = match &self.kind {
            OpKind::Put(..) => 0,
            OpKind::Incr(..) => 1,
            OpKind::Get(..) => 2,
            OpKind::Del(..) => 3,
            OpKind::Txn(..) => 4,
        };
        let key: &str = match &self.kind {
            OpKind::Put(k, _) => k.as_str(),
            OpKind::Incr(k, _) => k.as_str(),
            OpKind::Get(k) => k.as_str(),
            OpKind::Del(k) => k.as_str(),
            OpKind::Txn(_) => "",
        };
        proof {
            reveal_strlit("");
        }
        o.push(tag);
        push_u32(&mut o, self.client);
        push_u64(&mut o, self.seq);
        push_field16(&mut o, str_bytes(key));
        let ghost head = o@;
        match &self.kind {
            OpKind::Put(_, v) => {
                push_field32(&mut o, v.as_slice());
            },
            OpKind::Incr(_, d) => {
                push_i64(&mut o, *d);
            },
            OpKind::Get(_) => {},
            OpKind::Del(_) => {},
            OpKind::Txn(writes) => {
                push_u16(&mut o, len_u16(writes.len()));
                let ghost mid = o@;
                let mut i: usize = 0;
                while i < writes.len()
                    invariant
                        i <= writes@.len(),
                        o@ == mid + writes_bytes(writes_view(writes@).take(i as int)),
                    decreases writes@.len() - i,
                {
                    let (k, v) = &writes[i];
                    let ghost before = o@;
                    push_field16(&mut o, str_bytes(k.as_str()));
                    match v {
                        Some(val) => {
                            o.push(1u8);
                            push_field32(&mut o, val.as_slice());
                        },
                        None => {
                            o.push(0u8);
                        },
                    }
                    proof {
                        let wv = writes_view(writes@);
                        assert(wv.take(i + 1).drop_last() =~= wv.take(i as int));
                        assert(wv.take(i + 1).last() == write_view(writes@[i as int]));
                        assert(o@ =~= before + write_bytes(write_view(writes@[i as int])));
                    }
                    i = i + 1;
                }
                proof {
                    assert(writes_view(writes@).take(i as int) =~= writes_view(writes@));
                }
            },
        }
        proof {
            assert(head =~= seq![kind_tag(self@.kind)] + spec_u32_to_le_bytes(self.client)
                + spec_u64_to_le_bytes(self.seq) + field16(key_bytes(kind_key(self@.kind))));
            assert(o@ =~= encode_op(self@));
        }
        o
    }
}


/// Once decoding a prefix of the writes fails, decoding more fails too.
pub proof fn lemma_decode_writes_none(b: Seq<u8>, p: int, i: nat, n: nat)
    requires
        i <= n,
        decode_writes(b, p, i) is None,
    ensures
        decode_writes(b, p, n) is None,
    decreases n - i,
{
    if i < n {
        assert(decode_writes(b, p, (i + 1) as nat) is None);
        lemma_decode_writes_none(b, p, (i + 1) as nat, n);
    }
}

impl Op {
    /// Decode a request from the front of `bytes`; `None` when the bytes are
    /// truncated, a key is not UTF-8, or the tag is unknown.
    pub fn decode(bytes: &[u8]) -> (r: Option<Self>)
        ensures
            match r {
                Some(op) => decode_op(bytes@) == Some(op@),
                None => decode_op(bytes@) is None,
            },
    {
        let ghost b = bytes@;
        let mut r = Reader::new(bytes);
        let tag = match r.u8() {
            Some(t) => t,
            None => return None,
        };
        let client = match r.u32() {
            Some(c) => c,
            None => return None,
        };
        let seq = match r.u64() {
            Some(x) => x,
            None => return None,
        };
        let klen = match r.u16() {
            Some(x) => x as usize,
            None => return None,
        };
        let kb = match r.bytes(klen) {
            Some(x) => x,
            None => return None,
        };
        let key = match string_from_utf8(slice_to_vec(kb)) {
            Some(k) => k,
            None => return None,
        };
        assert(r.pos == 15 + klen);
        let ghost p: int = 15 + klen;
        let kind = if tag == 0 {
            let vlen = match r.u32() {
                Some(x) => x as usize,
                None => return None,
            };
            let v = match r.bytes(vlen) {
                Some(x) => x,
                None => return None,
            };
            OpKind::Put(key, slice_to_vec(v))
        } else if tag == 1 {
            let d = match r.i64() {
                Some(x) => x,
                None => return None,
            };
            OpKind::Incr(key, d)
        } else if tag == 2 {
            OpKind::Get(key)
        } else if tag == 3 {
            OpKind::Del(key)
        } else if tag == 4 {
            let n = match r.u16() {
                Some(x) => x as usize,
                None => return None,
            };
            let mut writes: Vec<(String, Option<Vec<u8>>)> = Vec::new();
            let mut i: usize = 0;
            assert(writes_view(writes@) =~= Seq::<WriteSpec>::empty());
            while i < n
                invariant
                    r.wf(),
                    r.b@ == b,
                    b == bytes@,
                    writes@.len() == i,
                    i <= n,
                    n == u16_at(b, p) as nat,
                    decode_op(b) is None <==> decode_writes(b, p + 2, n as nat) is None,
                    decode_writes(b, p + 2, i as nat) == Some((writes_view(writes@), r.pos as int)),
                decreases n - i,
            {
                let ghost q = r.pos as int;
                let ghost prev = writes@;
                let kl = match r.u16() {
                    Some(x) => x as usize,
                    None => {
                        proof {
                            assert(decode_write(b, q) is None);
                            lemma_decode_writes_none(b, p + 2, (i + 1) as nat, n as nat);
                        }
                        return None;
                    },
                };
                let kbytes = match r.bytes(kl) {
                    Some(x) => x,
                    None => {
                        proof {
                            assert(decode_write(b, q) is None);
                            lemma_decode_writes_none(b, p + 2, (i + 1) as nat, n as nat);
                        }
                        return None;
                    },
                };
                let k = match string_from_utf8(slice_to_vec(kbytes)) {
                    Some(x) => x,
                    None => {
                        proof {
                            assert(decode_write(b, q) is None);
                            lemma_decode_writes_none(b, p + 2, (i + 1) as nat, n as nat);
                        }
                        return None;
                    },
                };
                let flag = match r.u8() {
                    Some(x) => x,
                    None => {
                        proof {
                            assert(decode_write(b, q) is None);
                            lemma_decode_writes_none(b, p + 2, (i + 1) as nat, n as nat);
                        }
                        return None;
                    },
                };
                let v = if flag == 1 {
                    let vl = match r.u32() {
                        Some(x) => x as usize,
                        None => {
                            proof {
                                assert(decode_write(b, q) is None);
                                lemma_decode_writes_none(b, p + 2, (i + 1) as nat, n as nat);
                            }
                            return None;
                        },
                    };
                    let vb = match r.bytes(vl) {
                        Some(x) => x,
                        None => {
                            proof {
                                assert(decode_write(b, q) is None);
                                lemma_decode_writes_none(b, p + 2, (i + 1) as nat, n as nat);
                            }
                            return None;
                        },
                    };
                    Some(slice_to_vec(vb))
                } else {
                    None
                };
                writes.push((k, v));
                proof {
                    assert(writes_view(writes@) =~= writes_view(prev).push(write_view(writes@[i as int])));
                }
                i = i + 1;
            }
            OpKind::Txn(writes)
        } else {
            return None;
        };
        Some(Op { client, seq, kind })
    }
}

/// `writes_bytes` of a prefix of the writes is a prefix of `writes_bytes`.
proof fn lemma_writes_bytes_prefix(ws: Seq<WriteSpec>, i: int)
    requires
        0 <= i <= ws.len(),
    ensures
        writes_bytes(ws.take(i)).len() <= writes_bytes(ws).len(),
        writes_bytes(ws) == writes_bytes(ws.take(i)) + writes_bytes(ws).subrange(
            writes_bytes(ws.take(i)).len() as int,
            writes_bytes(ws).len() as int,
        ),
    decreases ws.len(),
{
    if i == ws.len() {
        assert(ws.take(i) =~= ws);
    } else {
        let d = ws.drop_last();
        assert(d.take(i) =~= ws.take(i));
        lemma_writes_bytes_prefix(d, i);
        assert(writes_bytes(ws) =~= writes_bytes(d) + write_bytes(ws.last()));
    }
}

proof fn lemma_decode_write_enc(b: Seq<u8>, q: int, w: WriteSpec)
    requires
        write_fits(w),
        0 <= q,
        q + write_bytes(w).len() <= b.len(),
        b.subrange(q, q + write_bytes(w).len()) == write_bytes(w),
    ensures
        decode_write(b, q) == Some((w, q + write_bytes(w).len())),
{
    vstd::bytes::lemma_auto_spec_u16_to_from_le_bytes();
    vstd::bytes::lemma_auto_spec_u32_to_from_le_bytes();
    let kb = key_bytes(w.0);
    let wb = write_bytes(w);
    let kl = kb.len() as int;
    assert(cap16(kb.len()) == kl);
    assert(b.subrange(q, q + 2) =~= wb.subrange(0, 2));
    assert(wb.subrange(0, 2) =~= spec_u16_to_le_bytes(cap16(kb.len())));
    assert(u16_at(b, q) == kl);
    assert(b.subrange(q + 2, q + 2 + kl) =~= kb) by {
        assert forall|j: int| 0 <= j < kl implies b.subrange(q + 2, q + 2 + kl)[j] == kb[j] by {
            assert(b[q + 2 + j] == wb[2 + j]);
        }
    }
    let r = q + 2 + kl;
    match w.1 {
        Some(v) => {
            assert(b[r] == wb[2 + kl]);
            assert(b.subrange(r + 1, r + 5) =~= wb.subrange(3 + kl, 7 + kl));
            assert(wb.subrange(3 + kl, 7 + kl) =~= spec_u32_to_le_bytes(cap32(v.len())));
            assert(cap32(v.len()) == v.len());
            assert(b.subrange(r + 5, r + 5 + v.len()) =~= v) by {
                assert forall|j: int| 0 <= j < v.len() implies b.subrange(r + 5, r + 5 + v.len())[j] == v[j] by {
                    assert(b[r + 5 + j] == wb[7 + kl + j]);
                }
            }
        },
        None => {
            assert(b[r] == wb[2 + kl]);
        },
    }
}

proof fn lemma_decode_writes_enc(b: Seq<u8>, start: int, ws: Seq<WriteSpec>, i: int)
    requires
        0 <= start,
        0 <= i <= ws.len(),
        forall|k: int| 0 <= k < ws.len() ==> #[trigger] write_fits(ws[k]),
        start + writes_bytes(ws).len() <= b.len(),
        b.subrange(start, start + writes_bytes(ws).len()) == writes_bytes(ws),
    ensures
        decode_writes(b, start, i as nat) == Some((ws.take(i), start + writes_bytes(ws.take(i)).len())),
    decreases i,
{
    if i == 0 {
        assert(ws.take(0) =~= Seq::<WriteSpec>::empty());
    } else {
        lemma_decode_writes_enc(b, start, ws, i - 1);
        let pre = ws.take(i - 1);
        let cur = ws.take(i);
        assert(cur.drop_last() =~= pre);
        assert(cur.last() == ws[i - 1]);
        assert(writes_bytes(cur) == writes_bytes(pre) + write_bytes(ws[i - 1]));
        lemma_writes_bytes_prefix(ws, i);
        let q = start + writes_bytes(pre).len();
        let w = ws[i - 1];
        let wl = write_bytes(w).len() as int;
        assert(b.subrange(q, q + wl) =~= write_bytes(w)) by {
            assert forall|j: int| 0 <= j < wl implies b.subrange(q, q + wl)[j] == write_bytes(w)[j] by {
                assert(b[q + j] == writes_bytes(ws)[writes_bytes(pre).len() + j]);
                assert(writes_bytes(ws)[writes_bytes(pre).len() + j] == writes_bytes(cur)[writes_bytes(pre).len() + j]);
            }
        }
        assert(write_fits(w));
        lemma_decode_write_enc(b, q, w);
        assert(pre.push(w) =~= cur);
    }
}

/// Decoding reads back exactly what encoding wrote, for every request whose
/// lengths fit the encoding's fields.
pub proof fn lemma_op_roundtrip(op: OpSpec)
    requires
        op_fits_wire(op),
    ensures
        decode_op(encode_op(op)) == Some(op),
{
    lemma_op_roundtrip_then(op, Seq::empty());
    assert(encode_op(op) + Seq::<u8>::empty() =~= encode_op(op));
}

/// Decoding reads exactly one request from the front: an encoding followed by
/// any bytes decodes as the encoded request.
pub proof fn lemma_op_roundtrip_then(op: OpSpec, extra: Seq<u8>)
    requires
        op_fits_wire(op),
    ensures
        decode_op(encode_op(op) + extra) == Some(op),
{
    vstd::bytes::lemma_auto_spec_u16_to_from_le_bytes();
    vstd::bytes::lemma_auto_spec_u32_to_from_le_bytes();
    vstd::bytes::lemma_auto_spec_u64_to_from_le_bytes();
    crate::wire::lemma_le_roundtrip();
    let e = encode_op(op);
    let b = e + extra;
    let key = kind_key(op.kind);
    let kb = key_bytes(key);
    let kl = kb.len() as int;
    let body = kind_body(op.kind);
    assert(e.len() == 15 + kl + body.len());
    assert(b.len() == e.len() + extra.len());
    assert(b[0] == kind_tag(op.kind));
    assert(b.subrange(1, 5) =~= spec_u32_to_le_bytes(op.client));
    assert(b.subrange(5, 13) =~= spec_u64_to_le_bytes(op.seq));
    assert(b.subrange(13, 15) =~= spec_u16_to_le_bytes(cap16(kb.len())));
    assert(u16_at(b, 13) == kl);
    assert(b.subrange(15, 15 + kl) =~= kb);
    let p = 15 + kl;
    assert(b.subrange(p, e.len() as int) =~= body);
    match op.kind {
        KindSpec::Put(k, v) => {
            assert(b.subrange(p, p + 4) =~= spec_u32_to_le_bytes(cap32(v.len())));
            assert(b.subrange(p + 4, p + 4 + v.len()) =~= v);
        },
        KindSpec::Incr(k, d) => {
            assert(b.subrange(p, p + 8) =~= i64_le(d));
        },
        KindSpec::Get(k) => {},
        KindSpec::Del(k) => {},
        KindSpec::Txn(ws) => {
            assert(b.subrange(p, p + 2) =~= spec_u16_to_le_bytes(cap16(ws.len())));
            let wb = writes_bytes(ws);
            assert(b.subrange(p + 2, p + 2 + wb.len()) =~= wb);
            lemma_decode_writes_enc(b, p + 2, ws, ws.len() as int);
            assert(ws.take(ws.len() as int) =~= ws);
        },
    }
}

/// A write cut short is refused: bytes that agree with a write's encoding
/// from `q` but end before it does decode as nothing.
proof fn lemma_decode_write_short(b: Seq<u8>, q: int, w: WriteSpec)
    requires
        write_fits(w),
        0 <= q <= b.len(),
        b.len() < q + write_bytes(w).len(),
        forall|j: int| q <= j < b.len() ==> b[j] == write_bytes(w)[j - q],
    ensures
        decode_write(b, q) is None,
{
    vstd::bytes::lemma_auto_spec_u16_to_from_le_bytes();
    vstd::bytes::lemma_auto_spec_u32_to_from_le_bytes();
    let kb = key_bytes(w.0);
    let wb = write_bytes(w);
    let kl = kb.len() as int;
    if q + 2 <= b.len() {
        assert(b.subrange(q, q + 2) =~= wb.subrange(0, 2));
        assert(wb.subrange(0, 2) =~= spec_u16_to_le_bytes(cap16(kb.len())));
        assert(u16_at(b, q) == kl);
        if q + 2 + kl <= b.len() {
            assert(b.subrange(q + 2, q + 2 + kl) =~= kb) by {
                assert forall|j: int| 0 <= j < kl implies b.subrange(q + 2, q + 2 + kl)[j] == kb[j] by {
                    assert(b[q + 2 + j] == wb[2 + j]);
                }
            }
            let r = q + 2 + kl;
            if r + 1 <= b.len() {
                assert(b[r] == wb[2 + kl]);
                match w.1 {
                    Some(v) => {
                        if r + 5 <= b.len() {
                            assert(b.subrange(r + 1, r + 5) =~= wb.subrange(3 + kl, 7 + kl));
                            assert(wb.subrange(3 + kl, 7 + kl) =~= spec_u32_to_le_bytes(cap32(v.len())));
                        }
                    },
                    None => {},
                }
            }
        }
    }
}

/// Decoding `i` writes from bytes that agree with the encoding of `ws` from
/// `start` on: all `i` come back when their bytes are all there, and nothing
/// comes back otherwise.
#[verifier::rlimit(50)]
#[verifier::spinoff_prover]
proof fn lemma_decode_writes_short(b: Seq<u8>, start: int, ws: Seq<WriteSpec>, i: int)
    requires
        0 <= start <= b.len(),
        0 <= i <= ws.len(),
        forall|k: int| 0 <= k < ws.len() ==> #[trigger] write_fits(ws[k]),
        b.len() <= start + writes_bytes(ws).len(),
        forall|j: int| start <= j < b.len() ==> b[j] == writes_bytes(ws)[j - start],
    ensures
        start + writes_bytes(ws.take(i)).len() <= b.len() ==> decode_writes(b, start, i as nat) == Some(
            (ws.take(i), start + writes_bytes(ws.take(i)).len()),
        ),
        start + writes_bytes(ws.take(i)).len() > b.len() ==> decode_writes(b, start, i as nat) is None,
    decreases i,
{
    if i == 0 {
        assert(ws.take(0) =~= Seq::<WriteSpec>::empty());
    } else {
        lemma_decode_writes_short(b, start, ws, i - 1);
        let pre = ws.take(i - 1);
        let cur = ws.take(i);
        assert(cur.drop_last() =~= pre);
        assert(cur.last() == ws[i - 1]);
        assert(writes_bytes(cur) == writes_bytes(pre) + write_bytes(ws[i - 1]));
        lemma_writes_bytes_prefix(ws, i);
        let q = start + writes_bytes(pre).len();
        let w = ws[i - 1];
        let wl = write_bytes(w).len() as int;
        assert(write_fits(w));
        if q <= b.len() {
            assert forall|j: int| q <= j < b.len() && j < q + wl implies b[j] == write_bytes(w)[j - q] by {
                assert(b[j] == writes_bytes(ws)[j - start]);
                assert(writes_bytes(ws)[j - start] == writes_bytes(cur)[j - start]);
            }
            if q + wl <= b.len() {
                assert(b.subrange(q, q + wl) =~= write_bytes(w));
                lemma_decode_write_enc(b, q, w);
                assert(pre.push(w) =~= cur);
            } else {
                lemma_decode_write_short(b, q, w);
            }
        }
    }
}

/// Decoding refuses what no encoding starts with: a tag above 4, or a key
/// whose bytes are not UTF-8.
pub proof fn lemma_decode_refuses(b: Seq<u8>)
    ensures
        b.len() >= 1 && b[0] > 4 ==> decode_op(b) is None,
        b.len() >= 15 && 15 + u16_at(b, 13) <= b.len() && !valid_utf8(b.subrange(15, 15 + u16_at(b, 13)))
            ==> decode_op(b) is None,
{
}

/// Decoding never reads a request out of part of one: every strict prefix of
/// an encoding (whose lengths fit their fields) decodes as nothing.
pub proof fn lemma_decode_strict_prefix(op: OpSpec, n: int)
    requires
        op_fits_wire(op),
        0 <= n < encode_op(op).len(),
    ensures
        decode_op(encode_op(op).take(n)) is None,
{
    vstd::bytes::lemma_auto_spec_u16_to_from_le_bytes();
    vstd::bytes::lemma_auto_spec_u32_to_from_le_bytes();
    vstd::bytes::lemma_auto_spec_u64_to_from_le_bytes();
    let e = encode_op(op);
    let b = e.take(n);
    let kb = key_bytes(kind_key(op.kind));
    let kl = kb.len() as int;
    let body = kind_body(op.kind);
    assert(e.len() == 15 + kl + body.len());
    if n >= 15 {
        assert(b.subrange(13, 15) =~= spec_u16_to_le_bytes(cap16(kb.len())));
        assert(u16_at(b, 13) == kl);
        let p = 15 + kl;
        if p <= n {
            assert(b.subrange(15, p) =~= kb);
            assert(b[0] == kind_tag(op.kind));
            match op.kind {
                KindSpec::Put(k, v) => {
                    if p + 4 <= n {
                        assert(b.subrange(p, p + 4) =~= spec_u32_to_le_bytes(cap32(v.len())));
                    }
                },
                KindSpec::Txn(ws) => {
                    if p + 2 <= n {
                        assert(b.subrange(p, p + 2) =~= spec_u16_to_le_bytes(cap16(ws.len())));
                        let wb = writes_bytes(ws);
                        assert(e.len() == p + 2 + wb.len());
                        assert forall|j: int| p + 2 <= j < b.len() implies b[j] == wb[j - (p + 2)] by {
                            assert(b[j] == e[j]);
                        }
                        lemma_decode_writes_short(b, p + 2, ws, ws.len() as int);
                        assert(ws.take(ws.len() as int) =~= ws);
                    }
                },
                _ => {},
            }
        }
    }
}

/// The value bound to `k`, if any.
pub open spec fn kv_get(m: Map<Seq<u8>, Seq<u8>>, k: Seq<u8>) -> Option<Seq<u8>> {
    if m.dom().contains(k) {
        Some(m[k])
    } else {
        None
    }
}

/// The integer a key's value denotes as text, if any.
pub open spec fn kv_int(m: Map<Seq<u8>, Seq<u8>>, k: Seq<u8>) -> Option<i64> {
    match kv_get(m, k) {
        Some(v) => int_text_value(v),
        None => None,
    }
}

pub open spec fn pair_view(e: (Vec<u8>, Vec<u8>)) -> (Seq<u8>, Seq<u8>) {
    (e.0@, e.1@)
}

/// Every key is valid UTF-8.
pub open spec fn keys_utf8(s: Seq<(Seq<u8>, Seq<u8>)>) -> bool {
    forall|i: int| 0 <= i < s.len() ==> valid_utf8(#[trigger] s[i].0)
}

/// The `key → bytes` store with Redis semantics. Keys are kept as their UTF-8
/// bytes in a list sorted by byte order (the order a `BTreeMap<String, _>`
/// iterates in).
#[derive(Debug, PartialEq, Eq)]
pub struct KvStore {
    map: Vec<(Vec<u8>, Vec<u8>)>,
}

impl KvStore {
    /// The entries, in key order.
    pub closed spec fn listing(&self) -> Seq<(Seq<u8>, Seq<u8>)> {
        self.map@.map_values(|e: (Vec<u8>, Vec<u8>)| pair_view(e))
    }

    #[verifier::type_invariant]
    closed spec fn inv(&self) -> bool {
        &&& sorted_by(self.listing(), bytes_order())
        &&& keys_utf8(self.listing())
    }
}

impl View for KvStore {
    type V = Map<Seq<u8>, Seq<u8>>;

    open spec fn view(&self) -> Map<Seq<u8>, Seq<u8>> {
        to_map(self.listing())
    }
}

impl KvStore {
    /// An empty store.
    pub fn new() -> (r: Self)
        ensures
            r@ == Map::<Seq<u8>, Seq<u8>>::empty(),
    {
        let r = KvStore { map: Vec::new() };
        assert(r@ =~= Map::<Seq<u8>, Seq<u8>>::empty());
        r
    }

    /// Position of the first entry whose key is not below `k`.
    fn find(&self, k: &[u8]) -> (i: usize)
        ensures
            i <= self.listing().len(),
            forall|j: int| 0 <= j < i ==> bytes_lt(#[trigger] self.listing()[j].0, k@),
            forall|j: int| i <= j < self.listing().len() ==> !bytes_lt(#[trigger] self.listing()[j].0, k@),
    {
        proof {
            use_type_invariant(self);
            lemma_bytes_order_total();
        }
        let ghost e = self.listing();
        let mut lo: usize = 0;
        let mut hi: usize = self.map.len();
        while lo < hi
            invariant
                e == self.listing(),
                e.len() == self.map@.len(),
                sorted_by(e, bytes_order()),
                strict_total(bytes_order()),
                lo <= hi <= e.len(),
                forall|j: int| 0 <= j < lo ==> bytes_lt(#[trigger] e[j].0, k@),
                forall|j: int| hi <= j < e.len() ==> !bytes_lt(#[trigger] e[j].0, k@),
            decreases hi - lo,
        {
            let mid = lo + (hi - lo) / 2;
            assert(e[mid as int].0 == self.map@[mid as int].0@);
            if bytes_less(self.map[mid].0.as_slice(), k) {
                assert forall|j: int| 0 <= j < mid + 1 implies bytes_lt(#[trigger] e[j].0, k@) by {
                    if j < mid {
                        assert(bytes_order()(e[j].0, e[mid as int].0));
                        assert(bytes_order()(e[mid as int].0, k@));
                    }
                }
                lo = mid + 1;
            } else {
                assert forall|j: int| mid <= j < e.len() implies !bytes_lt(#[trigger] e[j].0, k@) by {
                    if j > mid && bytes_lt(e[j].0, k@) {
                        assert(bytes_order()(e[mid as int].0, e[j].0));
                        assert(bytes_order()(e[j].0, k@));
                    }
                }
                hi = mid;
            }
        }
        lo
    }

    /// Index of the entry with key `k`, if present.
    fn index_of(&self, k: &[u8]) -> (r: Option<usize>)
        ensures
            match r {
                Some(i) => i < self.listing().len() && self.listing()[i as int].0 == k@,
                None => !has_key(self.listing(), k@),
            },
            r is Some <==> self@.dom().contains(k@),
            r is Some ==> self@[k@] == self.listing()[r.unwrap() as int].1,
    {
        proof {
            use_type_invariant(self);
            lemma_bytes_order_total();
        }
        let i = self.find(k);
        let ghost e = self.listing();
        if i < self.map.len() && crate::text::bytes_eq(self.map[i].0.as_slice(), k) {
            proof {
                lemma_to_map_at(e, bytes_order(), i as int);
            }
            Some(i)
        } else {
            proof {
                if has_key(e, k@) {
                    let j = choose|j: int| 0 <= j < e.len() && #[trigger] e[j].0 == k@;
                    if j < i {
                        assert(bytes_order()(k@, k@));
                    } else if j > i {
                        assert(bytes_order()(e[i as int].0, e[j].0));
                        assert(e[i as int].0 != k@);
                        assert(bytes_order()(k@, e[i as int].0) || bytes_order()(e[i as int].0, k@));
                        assert(bytes_order()(k@, k@));
                    } else {
                        assert(e[i as int].0 == self.map@[i as int].0@);
                    }
                }
            }
            None
        }
    }

    /// The value bound to `k`, if any.
    fn lookup(&self, k: &[u8]) -> (r: Option<&Vec<u8>>)
        ensures
            match r {
                Some(v) => kv_get(self@, k@) == Some(v@),
                None => kv_get(self@, k@) is None,
            },
    {
        match self.index_of(k) {
            Some(i) => Some(&self.map[i].1),
            None => None,
        }
    }

    /// Bind `k` to `v`.
    pub(crate) fn put(&mut self, k: Vec<u8>, v: Vec<u8>)
        requires
            valid_utf8(k@),
        ensures
            final(self)@ == old(self)@.insert(k@, v@),
    {
        proof {
            use_type_invariant(&*self);
            lemma_bytes_order_total();
        }
        let i = self.find(k.as_slice());
        let ghost e = self.listing();
        let mut m: Vec<(Vec<u8>, Vec<u8>)> = Vec::new();
        std::mem::swap(&mut m, &mut self.map);
        assert(m@.map_values(|x: (Vec<u8>, Vec<u8>)| pair_view(x)) == e);
        if i < m.len() && crate::text::bytes_eq(m[i].0.as_slice(), k.as_slice()) {
            proof {
                lemma_update_at(e, bytes_order(), i as int, v@);
            }
            let ghost kk = k@;
            m.set(i, (k, v));
            proof {
                assert(m@.map_values(|x: (Vec<u8>, Vec<u8>)| pair_view(x)) =~= e.update(i as int, (e[i as int].0, v@)));
            }
        } else {
            proof {
                if i < e.len() {
                    assert(e[i as int].0 != k@);
                    assert(!bytes_lt(e[i as int].0, k@));
                    assert(bytes_order()(k@, e[i as int].0) || bytes_order()(e[i as int].0, k@));
                }
                lemma_insert_at(e, bytes_order(), i as int, k@, v@);
            }
            let ghost kv = (k@, v@);
            m.insert(i, (k, v));
            proof {
                assert(m@.map_values(|x: (Vec<u8>, Vec<u8>)| pair_view(x)) =~= e.insert(i as int, kv));
            }
        }
        self.map = m;
    }

    /// Remove `k`; whether it was bound.
    fn remove_key(&mut self, k: &[u8]) -> (r: bool)
        ensures
            final(self)@ == old(self)@.remove(k@),
            r == old(self)@.dom().contains(k@),
    {
        proof {
            use_type_invariant(&*self);
            lemma_bytes_order_total();
        }
        match self.index_of(k) {
            Some(i) => {
                let ghost e = self.listing();
                let mut m: Vec<(Vec<u8>, Vec<u8>)> = Vec::new();
                std::mem::swap(&mut m, &mut self.map);
                assert(m@.map_values(|x: (Vec<u8>, Vec<u8>)| pair_view(x)) == e);
                proof {
                    lemma_remove_at(e, bytes_order(), i as int);
                }
                let _ = m.remove(i);
                proof {
                    assert(m@.map_values(|x: (Vec<u8>, Vec<u8>)| pair_view(x)) =~= e.remove(i as int));
                }
                self.map = m;
                true
            },
            None => {
                assert(self@.remove(k@) =~= self@);
                false
            },
        }
    }

    /// The value stored under `key`.
    pub fn get_bytes(&self, key: &str) -> (r: Option<&[u8]>)
        ensures
            match r {
                Some(v) => kv_get(self@, key_bytes(key@)) == Some(v@),
                None => kv_get(self@, key_bytes(key@)) is None,
            },
    {
        match self.lookup(str_bytes(key)) {
            Some(v) => Some(v.as_slice()),
            None => None,
        }
    }

    /// A key's value parsed as an integer (trimmed decimal text).
    pub fn get_int(&self, key: &str) -> (r: Option<i64>)
        ensures
            r == kv_int(self@, key_bytes(key@)),
    {
        match self.lookup(str_bytes(key)) {
            Some(v) => parse_int_text(v.as_slice()),
            None => None,
        }
    }

    /// Number of keys.
    pub fn len(&self) -> (r: usize)
        ensures
            self@.dom().finite(),
            kv_wf(self@),
            r == self@.dom().len(),
    {
        proof {
            use_type_invariant(self);
            lemma_bytes_order_total();
            lemma_map_len(self.listing(), bytes_order());
            assert forall|k: Seq<u8>| #[trigger] self@.dom().contains(k) implies valid_utf8(k) by {
                let i = choose|i: int| 0 <= i < self.listing().len() && #[trigger] self.listing()[i].0 == k;
            }
        }
        self.map.len()
    }

    pub fn is_empty(&self) -> (r: bool)
        ensures
            r <==> self@.dom().len() == 0,
    {
        proof {
            use_type_invariant(self);
            lemma_bytes_order_total();
            lemma_map_len(self.listing(), bytes_order());
        }
        self.map.len() == 0
    }
}

impl Clone for KvStore {
    fn clone(&self) -> (r: Self)
        ensures
            r@ == self@,
    {
        proof {
            use_type_invariant(self);
        }
        let mut m: Vec<(Vec<u8>, Vec<u8>)> = Vec::new();
        let mut i: usize = 0;
        while i < self.map.len()
            invariant
                i <= self.map@.len(),
                m@.len() == i,
                m@.map_values(|x: (Vec<u8>, Vec<u8>)| pair_view(x)) =~= self.listing().take(i as int),
            decreases self.map@.len() - i,
        {
            let k = slice_to_vec(self.map[i].0.as_slice());
            let v = slice_to_vec(self.map[i].1.as_slice());
            let ghost prev = m@;
            assert(self.listing()[i as int] == pair_view(self.map@[i as int]));
            m.push((k, v));
            assert(pair_view(m@[i as int]) == self.listing()[i as int]);
            assert(self.listing().take(i + 1) =~= self.listing().take(i as int).push(self.listing()[i as int]));
            i = i + 1;
            assert(m@.map_values(|x: (Vec<u8>, Vec<u8>)| pair_view(x)) =~= self.listing().take(i as int));
        }
        assert(self.listing().take(i as int) =~= self.listing());
        KvStore { map: m }
    }
}

impl Default for KvStore {
    fn default() -> (r: Self)
        ensures
            r@ == Map::<Seq<u8>, Seq<u8>>::empty(),
    {
        KvStore::new()
    }
}


/// Apply one transaction write to a store map.
pub open spec fn kv_apply_write(m: Map<Seq<u8>, Seq<u8>>, w: WriteSpec) -> Map<Seq<u8>, Seq<u8>> {
    match w.1 {
        Some(v) => m.insert(key_bytes(w.0), v),
        None => m.remove(key_bytes(w.0)),
    }
}

/// Apply transaction writes in order.
pub open spec fn kv_apply_writes(m: Map<Seq<u8>, Seq<u8>>, ws: Seq<WriteSpec>) -> Map<Seq<u8>, Seq<u8>>
    decreases ws.len(),
{
    if ws.len() == 0 {
        m
    } else {
        kv_apply_write(kv_apply_writes(m, ws.drop_last()), ws.last())
    }
}

/// The base an `Incr` adds to: the key's integer value, or 0 when the key is
/// absent or does not hold an integer.
pub open spec fn incr_base(m: Map<Seq<u8>, Seq<u8>>, k: Seq<u8>) -> int {
    match kv_int(m, k) {
        Some(x) => x as int,
        None => 0,
    }
}

/// The store can apply `op` without integer overflow.
pub open spec fn kv_accepts(m: Map<Seq<u8>, Seq<u8>>, op: OpSpec) -> bool {
    match op.kind {
        KindSpec::Incr(k, d) => i64::MIN <= incr_base(m, key_bytes(k)) + d <= i64::MAX,
        _ => true,
    }
}

/// Redis semantics of one request on the store map: the new map and the output.
pub open spec fn kv_apply(m: Map<Seq<u8>, Seq<u8>>, op: OpSpec) -> (Map<Seq<u8>, Seq<u8>>, OutputSpec) {
    match op.kind {
        KindSpec::Put(k, v) => (m.insert(key_bytes(k), v), OutputSpec::Done),
        KindSpec::Incr(k, d) => {
            let next = incr_base(m, key_bytes(k)) + d;
            (m.insert(key_bytes(k), decimal(next)), OutputSpec::Value(Some(next as i64)))
        },
        KindSpec::Del(k) => (
            m.remove(key_bytes(k)),
            OutputSpec::Value(Some(if m.dom().contains(key_bytes(k)) { 1i64 } else { 0i64 })),
        ),
        KindSpec::Get(k) => (m, OutputSpec::Bytes(kv_get(m, key_bytes(k)))),
        KindSpec::Txn(ws) => (kv_apply_writes(m, ws), OutputSpec::Value(Some(ws.len() as i64))),
    }
}

/// `op` names the key `k`: its key, or one of its transaction's writes.
pub open spec fn op_touches(kind: KindSpec, k: Seq<u8>) -> bool {
    match kind {
        KindSpec::Txn(ws) => exists|i: int| 0 <= i < ws.len() && key_bytes(#[trigger] ws[i].0) == k,
        _ => key_bytes(kind_key(kind)) == k,
    }
}

/// The store map after applying `ops` in order.
pub open spec fn kv_run(m: Map<Seq<u8>, Seq<u8>>, ops: Seq<OpSpec>) -> Map<Seq<u8>, Seq<u8>>
    decreases ops.len(),
{
    if ops.len() == 0 {
        m
    } else {
        kv_apply(kv_run(m, ops.drop_last()), ops.last()).0
    }
}

proof fn lemma_writes_untouched(m: Map<Seq<u8>, Seq<u8>>, ws: Seq<WriteSpec>, k: Seq<u8>)
    requires
        forall|i: int| 0 <= i < ws.len() ==> key_bytes(#[trigger] ws[i].0) != k,
    ensures
        kv_get(kv_apply_writes(m, ws), k) == kv_get(m, k),
    decreases ws.len(),
{
    if ws.len() > 0 {
        let d = ws.drop_last();
        assert forall|i: int| 0 <= i < d.len() implies key_bytes(#[trigger] d[i].0) != k by {
            assert(d[i] == ws[i]);
        }
        lemma_writes_untouched(m, d, k);
        assert(key_bytes(ws[ws.len() - 1].0) != k);
    }
}

/// Ops on other keys leave a key's binding as it was.
pub proof fn lemma_kv_untouched(m: Map<Seq<u8>, Seq<u8>>, ops: Seq<OpSpec>, k: Seq<u8>)
    requires
        forall|i: int| 0 <= i < ops.len() ==> !op_touches((#[trigger] ops[i]).kind, k),
    ensures
        kv_get(kv_run(m, ops), k) == kv_get(m, k),
    decreases ops.len(),
{
    if ops.len() > 0 {
        let d = ops.drop_last();
        assert forall|i: int| 0 <= i < d.len() implies !op_touches((#[trigger] d[i]).kind, k) by {
            assert(d[i] == ops[i]);
        }
        lemma_kv_untouched(m, d, k);
        let op = ops[ops.len() - 1];
        assert(!op_touches(op.kind, k));
        let m1 = kv_run(m, d);
        match op.kind {
            KindSpec::Txn(ws) => {
                assert forall|i: int| 0 <= i < ws.len() implies key_bytes(#[trigger] ws[i].0) != k by {}
                lemma_writes_untouched(m1, ws, k);
            },
            _ => {},
        }
    }
}

/// An integer set reads back as that integer, whatever ops on other keys
/// come after it.
pub proof fn lemma_set_then_get_int(
    m: Map<Seq<u8>, Seq<u8>>,
    client: u32,
    seq: u64,
    key: Seq<char>,
    v: i64,
    ops: Seq<OpSpec>,
)
    requires
        forall|i: int| 0 <= i < ops.len() ==> !op_touches((#[trigger] ops[i]).kind, key_bytes(key)),
    ensures
        kv_int(kv_run(m, seq![OpSpec { client, seq, kind: KindSpec::Put(key, decimal(v as int)) }] + ops), key_bytes(key))
            == Some(v),
{
    let set = OpSpec { client, seq, kind: KindSpec::Put(key, decimal(v as int)) };
    let m1 = m.insert(key_bytes(key), decimal(v as int));
    assert(seq![set].drop_last() =~= Seq::<OpSpec>::empty());
    assert(kv_run(m, Seq::<OpSpec>::empty()) == m);
    assert(seq![set].last() == set);
    assert(kv_run(m, seq![set]) == m1);
    lemma_kv_run_split(m, seq![set], ops);
    lemma_kv_untouched(m1, ops, key_bytes(key));
    lemma_decimal_parses(v);
}

/// Running `a` then `b` is running them joined.
pub proof fn lemma_kv_run_split(m: Map<Seq<u8>, Seq<u8>>, a: Seq<OpSpec>, b: Seq<OpSpec>)
    ensures
        kv_run(m, a + b) == kv_run(kv_run(m, a), b),
    decreases b.len(),
{
    if b.len() == 0 {
        assert(a + b =~= a);
    } else {
        lemma_kv_run_split(m, a, b.drop_last());
        assert((a + b).drop_last() =~= a + b.drop_last());
        assert((a + b).last() == b.last());
    }
}

/// Encoding of one snapshot entry: `keylen(2) key vallen(4) val`.
pub open spec fn entry_bytes(e: (Seq<u8>, Seq<u8>)) -> Seq<u8> {
    field16(e.0) + field32(e.1)
}

pub open spec fn entries_bytes(s: Seq<(Seq<u8>, Seq<u8>)>) -> Seq<u8>
    decreases s.len(),
{
    if s.len() == 0 {
        Seq::empty()
    } else {
        entries_bytes(s.drop_last()) + entry_bytes(s.last())
    }
}

/// Snapshot encoding of entries: `count(4)` then each entry in order.
pub open spec fn snapshot_bytes(s: Seq<(Seq<u8>, Seq<u8>)>) -> Seq<u8> {
    spec_u32_to_le_bytes(cap32(s.len())) + entries_bytes(s)
}

/// Snapshot of a store map: its entries in key order.
pub open spec fn kv_snapshot(m: Map<Seq<u8>, Seq<u8>>) -> Seq<u8> {
    snapshot_bytes(sorted_entries(m, bytes_order()))
}

/// One snapshot record at `q`: the entry and the position after it.
pub open spec fn restore_record(b: Seq<u8>, q: int) -> Option<((Seq<u8>, Seq<u8>), int)> {
    if q + 2 > b.len() {
        None
    } else {
        let kl = u16_at(b, q) as int;
        let r = q + 2 + kl;
        if r + 4 > b.len() {
            None
        } else {
            let vl = u32_at(b, r) as int;
            if r + 4 + vl > b.len() {
                None
            } else {
                Some(((b.subrange(q + 2, r), b.subrange(r + 4, r + 4 + vl)), r + 4 + vl))
            }
        }
    }
}

/// Reading up to `n` records: the map built, the position reached, and
/// whether reading stopped at a truncated record.
pub open spec fn restore_loop(b: Seq<u8>, n: nat) -> (Map<Seq<u8>, Seq<u8>>, int, bool)
    decreases n,
{
    if n == 0 {
        (Map::empty(), 4, false)
    } else {
        let prev = restore_loop(b, (n - 1) as nat);
        if prev.2 {
            prev
        } else {
            match restore_record(b, prev.1) {
                None => (prev.0, prev.1, true),
                Some((e, r)) => (
                    if valid_utf8(e.0) { prev.0.insert(e.0, e.1) } else { prev.0 },
                    r,
                    false,
                ),
            }
        }
    }
}

/// The store map a snapshot restores: records are read in order until the
/// count is reached or a record is truncated; records whose key is not UTF-8
/// are skipped; a later record for a key replaces an earlier one.
pub open spec fn kv_restore(b: Seq<u8>) -> Map<Seq<u8>, Seq<u8>> {
    if b.len() < 4 {
        Map::empty()
    } else {
        restore_loop(b, u32_at(b, 0) as nat).0
    }
}

/// Everything the snapshot encoding stores fits its fields.
pub open spec fn kv_fits(m: Map<Seq<u8>, Seq<u8>>) -> bool {
    let s = sorted_entries(m, bytes_order());
    &&& sorted_by(s, bytes_order())
    &&& to_map(s) == m
    &&& s.len() <= 0xffff_ffff
    &&& keys_utf8(s)
    &&& forall|i: int| 0 <= i < s.len() ==> (#[trigger] s[i]).0.len() <= 0xffff && s[i].1.len() <= 0xffff_ffff
}

pub proof fn lemma_restore_loop_stopped(b: Seq<u8>, i: nat, n: nat)
    requires
        i <= n,
        restore_loop(b, i).2,
    ensures
        restore_loop(b, n) == restore_loop(b, i),
    decreases n - i,
{
    if i < n {
        lemma_restore_loop_stopped(b, i, (n - 1) as nat);
    }
}

proof fn lemma_entries_bytes_prefix(s: Seq<(Seq<u8>, Seq<u8>)>, i: int)
    requires
        0 <= i <= s.len(),
    ensures
        entries_bytes(s.take(i)).len() <= entries_bytes(s).len(),
        entries_bytes(s) == entries_bytes(s.take(i)) + entries_bytes(s).subrange(
            entries_bytes(s.take(i)).len() as int,
            entries_bytes(s).len() as int,
        ),
    decreases s.len(),
{
    if i == s.len() {
        assert(s.take(i) =~= s);
    } else {
        let d = s.drop_last();
        assert(d.take(i) =~= s.take(i));
        lemma_entries_bytes_prefix(d, i);
        assert(entries_bytes(s) =~= entries_bytes(d) + entry_bytes(s.last()));
    }
}

proof fn lemma_restore_prefix(b: Seq<u8>, s: Seq<(Seq<u8>, Seq<u8>)>, i: int)
    requires
        strict_total(bytes_order()),
        sorted_by(s, bytes_order()),
        keys_utf8(s),
        forall|j: int| 0 <= j < s.len() ==> (#[trigger] s[j]).0.len() <= 0xffff && s[j].1.len() <= 0xffff_ffff,
        0 <= i <= s.len(),
        4 + entries_bytes(s).len() <= b.len(),
        b.subrange(4, 4 + entries_bytes(s).len() as int) == entries_bytes(s),
    ensures
        restore_loop(b, i as nat) == (to_map(s.take(i)), 4 + entries_bytes(s.take(i)).len() as int, false),
    decreases i,
{
    vstd::bytes::lemma_auto_spec_u16_to_from_le_bytes();
    vstd::bytes::lemma_auto_spec_u32_to_from_le_bytes();
    if i == 0 {
        assert(s.take(0) =~= Seq::<(Seq<u8>, Seq<u8>)>::empty());
        assert(to_map(s.take(0)) =~= Map::<Seq<u8>, Seq<u8>>::empty());
    } else {
        lemma_restore_prefix(b, s, i - 1);
        let pre = s.take(i - 1);
        let cur = s.take(i);
        assert(cur.drop_last() =~= pre);
        assert(cur.last() == s[i - 1]);
        lemma_entries_bytes_prefix(s, i);
        let q: int = 4 + entries_bytes(pre).len() as int;
        let e = s[i - 1];
        let eb = entry_bytes(e);
        assert(entries_bytes(cur) == entries_bytes(pre) + eb);
        assert(b.subrange(q, q + eb.len() as int) =~= eb) by {
            assert forall|j: int| 0 <= j < eb.len() implies b.subrange(q, q + eb.len() as int)[j] == eb[j] by {
                assert(b[q + j] == entries_bytes(s)[entries_bytes(pre).len() + j]);
                assert(entries_bytes(s)[entries_bytes(pre).len() + j] == entries_bytes(cur)[entries_bytes(pre).len() + j]);
            }
        }
        let kl = e.0.len() as int;
        assert(s[i - 1].0.len() <= 0xffff && s[i - 1].1.len() <= 0xffff_ffff);
        assert(b.subrange(q, q + 2) =~= eb.subrange(0, 2));
        assert(eb.subrange(0, 2) =~= spec_u16_to_le_bytes(cap16(e.0.len())));
        assert(u16_at(b, q) == kl);
        let r = q + 2 + kl;
        assert(b.subrange(r, r + 4) =~= eb.subrange(2 + kl, 6 + kl));
        assert(eb.subrange(2 + kl, 6 + kl) =~= spec_u32_to_le_bytes(cap32(e.1.len())));
        assert(b.subrange(q + 2, r) =~= e.0) by {
            assert forall|j: int| 0 <= j < kl implies b.subrange(q + 2, r)[j] == e.0[j] by {
                assert(b[q + 2 + j] == eb[2 + j]);
            }
        }
        assert(b.subrange(r + 4, r + 4 + e.1.len()) =~= e.1) by {
            assert forall|j: int| 0 <= j < e.1.len() implies b.subrange(r + 4, r + 4 + e.1.len())[j] == e.1[j] by {
                assert(b[r + 4 + j] == eb[6 + kl + j]);
            }
        }
        assert(restore_record(b, q) == Some((e, q + eb.len() as int)));
        assert(valid_utf8(e.0));
        assert(sorted_by(pre, bytes_order())) by {
            assert forall|x: int, y: int| 0 <= x < y < pre.len() implies bytes_order()(#[trigger] pre[x].0, #[trigger] pre[y].0) by {
                assert(pre[x] == s[x] && pre[y] == s[y]);
            }
        }
        assert forall|j: int| 0 <= j < pre.len() implies bytes_order()(#[trigger] pre[j].0, e.0) by {
            assert(pre[j] == s[j]);
        }
        lemma_insert_at(pre, bytes_order(), pre.len() as int, e.0, e.1);
        assert(pre.insert(pre.len() as int, (e.0, e.1)) =~= cur);
    }
}

/// Restoring a snapshot gives back the store map it was taken of, whenever
/// the map's lengths fit the snapshot's fields.
pub proof fn lemma_kv_restore_snapshot(m: Map<Seq<u8>, Seq<u8>>)
    requires
        kv_fits(m),
    ensures
        kv_restore(kv_snapshot(m)) == m,
{
    vstd::bytes::lemma_auto_spec_u32_to_from_le_bytes();
    lemma_bytes_order_total();
    let s = sorted_entries(m, bytes_order());
    let b = kv_snapshot(m);
    assert(b.subrange(0, 4) =~= spec_u32_to_le_bytes(cap32(s.len())));
    assert(u32_at(b, 0) == s.len());
    assert(b.subrange(4, 4 + entries_bytes(s).len() as int) =~= entries_bytes(s));
    lemma_restore_prefix(b, s, s.len() as int);
    assert(s.take(s.len() as int) =~= s);
}

/// What every store's map is: finite, with UTF-8 keys.
pub open spec fn kv_wf(m: Map<Seq<u8>, Seq<u8>>) -> bool {
    &&& m.dom().finite()
    &&& forall|k: Seq<u8>| #[trigger] m.dom().contains(k) ==> valid_utf8(k)
}

/// The map's sizes fit the snapshot's fields: at most `u32::MAX` entries,
/// keys of at most `u16::MAX` bytes, values of at most `u32::MAX` bytes.
pub open spec fn kv_sizes_fit(m: Map<Seq<u8>, Seq<u8>>) -> bool {
    &&& m.dom().len() <= 0xffff_ffff
    &&& forall|k: Seq<u8>| #[trigger] m.dom().contains(k) ==> k.len() <= 0xffff && m[k].len() <= 0xffff_ffff
}

/// A store map whose sizes fit the snapshot's fields fits the snapshot.
pub proof fn lemma_kv_fits(m: Map<Seq<u8>, Seq<u8>>)
    requires
        kv_wf(m),
        kv_sizes_fit(m),
    ensures
        kv_fits(m),
{
    lemma_bytes_order_total();
    crate::sorted::lemma_sorted_entries_exist(m, bytes_order());
    let s = sorted_entries(m, bytes_order());
    crate::sorted::lemma_map_len(s, bytes_order());
    assert forall|i: int| 0 <= i < s.len() implies valid_utf8(#[trigger] s[i].0) && s[i].0.len() <= 0xffff
        && s[i].1.len() <= 0xffff_ffff by {
        crate::sorted::lemma_to_map_at(s, bytes_order(), i);
    }
}

/// A store's snapshot restores to the same store whenever its sizes fit the
/// snapshot's fields; equal stores give equal snapshots.
pub proof fn lemma_kv_store_restore(m: Map<Seq<u8>, Seq<u8>>, m2: Map<Seq<u8>, Seq<u8>>)
    requires
        kv_wf(m),
        kv_sizes_fit(m),
    ensures
        kv_restore(kv_snapshot(m)) == m,
        m == m2 ==> kv_snapshot(m) == kv_snapshot(m2),
{
    lemma_kv_fits(m);
    lemma_kv_restore_snapshot(m);
}

/// The integer view of a store's entries, in key order: entries whose value
/// is an integer, with the key as text.
pub open spec fn int_entries(s: Seq<(Seq<u8>, Seq<u8>)>) -> Seq<(Seq<char>, i64)>
    decreases s.len(),
{
    if s.len() == 0 {
        Seq::empty()
    } else {
        let rest = int_entries(s.drop_last());
        match int_text_value(s.last().1) {
            Some(x) => rest.push((decode_utf8(s.last().0), x)),
            None => rest,
        }
    }
}

pub open spec fn named_ints_view(v: Seq<(String, i64)>) -> Seq<(Seq<char>, i64)> {
    v.map_values(|e: (String, i64)| (e.0@, e.1))
}

/// The replicated state machine interface: a deterministic function of the
/// op and the prior state, plus a snapshot encoding that restores it.
pub trait StateMachine: Sized {
    /// The mathematical value of a state.
    type Model;

    spec fn model(&self) -> Self::Model;

    /// The state a fresh machine starts in.
    spec fn init_model() -> Self::Model;

    /// The machine can apply `op` in state `m` (no arithmetic overflow).
    spec fn accepts(m: Self::Model, op: OpSpec) -> bool;

    /// The next state and the output of applying `op` in state `m`.
    spec fn apply_model(m: Self::Model, op: OpSpec) -> (Self::Model, OutputSpec);

    spec fn snapshot_model(m: Self::Model) -> Seq<u8>;

    spec fn restore_model(b: Seq<u8>) -> Self::Model;

    /// Every length the snapshot of `m` stores fits its field.
    spec fn fits(m: Self::Model) -> bool;

    fn initial() -> (s: Self)
        ensures
            s.model() == Self::init_model(),
    ;

    fn would_accept(&self, op: &Op) -> (b: bool)
        ensures
            b == Self::accepts(self.model(), op@),
    ;

    fn apply(&mut self, op: &Op) -> (out: Output)
        requires
            Self::accepts(old(self).model(), op@),
        ensures
            Self::apply_model(old(self).model(), op@) == (final(self).model(), out@),
    ;

    fn snapshot(&self) -> (b: Vec<u8>)
        ensures
            b@ == Self::snapshot_model(self.model()),
    ;

    fn restore(bytes: &[u8]) -> (s: Self)
        ensures
            s.model() == Self::restore_model(bytes@),
    ;

    /// Restoring a snapshot gives back the state it was taken of.
    proof fn lemma_restore_snapshot(m: Self::Model)
        requires
            Self::fits(m),
        ensures
            Self::restore_model(Self::snapshot_model(m)) == m,
    ;
}

impl KvStore {
    /// Integer view of the store in key order, for convergence checks over
    /// integer workloads: entries whose value parses as an integer.
    pub fn entries(&self) -> (r: Vec<(String, i64)>)
        ensures
            named_ints_view(r@) == int_entries(sorted_entries(self@, bytes_order())),
    {
        proof {
            use_type_invariant(self);
            lemma_bytes_order_total();
            crate::sorted::lemma_sorted_entries_of(self.listing(), bytes_order());
        }
        let mut out: Vec<(String, i64)> = Vec::new();
        let mut i: usize = 0;
        while i < self.map.len()
            invariant
                i <= self.map@.len(),
                keys_utf8(self.listing()),
                named_ints_view(out@) =~= int_entries(self.listing().take(i as int)),
            decreases self.map@.len() - i,
        {
            let ghost pre = self.listing().take(i as int);
            assert(self.listing().take(i + 1).drop_last() =~= pre);
            assert(self.listing()[i as int] == pair_view(self.map@[i as int]));
            match parse_int_text(self.map[i].1.as_slice()) {
                Some(x) => {
                    let kb = slice_to_vec(self.map[i].0.as_slice());
                    assert(valid_utf8(self.listing()[i as int].0));
                    match string_from_utf8(kb) {
                        Some(k) => {
                            out.push((k, x));
                            assert(named_ints_view(out@) =~= int_entries(self.listing().take(i + 1)));
                        },
                        None => {
                            assert(false);
                        },
                    }
                },
                None => {
                    assert(named_ints_view(out@) =~= int_entries(self.listing().take(i + 1)));
                },
            }
            i = i + 1;
        }
        assert(self.listing().take(i as int) =~= self.listing());
        out
    }
}

impl StateMachine for KvStore {
    type Model = Map<Seq<u8>, Seq<u8>>;

    open spec fn model(&self) -> Map<Seq<u8>, Seq<u8>> {
        self@
    }

    open spec fn init_model() -> Map<Seq<u8>, Seq<u8>> {
        Map::empty()
    }

    open spec fn accepts(m: Map<Seq<u8>, Seq<u8>>, op: OpSpec) -> bool {
        kv_accepts(m, op)
    }

    open spec fn apply_model(m: Map<Seq<u8>, Seq<u8>>, op: OpSpec) -> (Map<Seq<u8>, Seq<u8>>, OutputSpec) {
        kv_apply(m, op)
    }

    open spec fn snapshot_model(m: Map<Seq<u8>, Seq<u8>>) -> Seq<u8> {
        kv_snapshot(m)
    }

    open spec fn restore_model(b: Seq<u8>) -> Map<Seq<u8>, Seq<u8>> {
        kv_restore(b)
    }

    open spec fn fits(m: Map<Seq<u8>, Seq<u8>>) -> bool {
        kv_fits(m)
    }

    fn initial() -> (s: Self) {
        KvStore::new()
    }

    fn would_accept(&self, op: &Op) -> (b: bool) {
        match &op.kind {
            OpKind::Incr(k, d) => {
                let cur: i64 = match self.get_int(k.as_str()) {
                    Some(x) => x,
                    None => 0,
                };
                if *d >= 0 {
                    cur <= i64::MAX - *d
                } else {
                    cur >= i64::MIN - *d
                }
            },
            _ => true,
        }
    }

    fn apply(&mut self, op: &Op) -> (out: Output) {
        match &op.kind {
            OpKind::Put(k, v) => {
                self.put(slice_to_vec(str_bytes(k.as_str())), slice_to_vec(v.as_slice()));
                Output::Done
            },
            OpKind::Incr(k, d) => {
                let kb = str_bytes(k.as_str());
                let cur: i64 = match self.get_int(k.as_str()) {
                    Some(x) => x,
                    None => 0,
                };
                let next = cur + *d;
                self.put(slice_to_vec(kb), decimal_bytes(next));
                Output::Value(Some(next))
            },
            OpKind::Del(k) => {
                let existed = self.remove_key(str_bytes(k.as_str()));
                Output::Value(Some(if existed { 1 } else { 0 }))
            },
            OpKind::Get(k) => {
                match self.lookup(str_bytes(k.as_str())) {
                    Some(v) => Output::Bytes(Some(slice_to_vec(v.as_slice()))),
                    None => Output::Bytes(None),
                }
            },
            OpKind::Txn(writes) => {
                let ghost m0 = self@;
                let ghost wv = writes_view(writes@);
                let mut i: usize = 0;
                while i < writes.len()
                    invariant
                        i <= writes@.len(),
                        wv == writes_view(writes@),
                        self@ == kv_apply_writes(m0, wv.take(i as int)),
                    decreases writes@.len() - i,
                {
                    let (k, v) = &writes[i];
                    assert(wv.take(i + 1).drop_last() =~= wv.take(i as int));
                    assert(wv.take(i + 1).last() == write_view(writes@[i as int]));
                    match v {
                        Some(val) => {
                            self.put(slice_to_vec(str_bytes(k.as_str())), slice_to_vec(val.as_slice()));
                        },
                        None => {
                            self.remove_key(str_bytes(k.as_str()));
                        },
                    }
                    i = i + 1;
                }
                assert(wv.take(i as int) =~= wv);
                Output::Value(Some(writes.len() as i64))
            },
        }
    }

    fn snapshot(&self) -> (b: Vec<u8>)
        ensures
            kv_wf(self@),
    {
        proof {
            use_type_invariant(self);
            lemma_bytes_order_total();
            lemma_map_len(self.listing(), bytes_order());
            assert forall|k: Seq<u8>| #[trigger] self@.dom().contains(k) implies valid_utf8(k) by {
                let i = choose|i: int| 0 <= i < self.listing().len() && #[trigger] self.listing()[i].0 == k;
            }
            crate::sorted::lemma_sorted_entries_of(self.listing(), bytes_order());
        }
        let mut o: Vec<u8> = Vec::new();
        push_u32(&mut o, len_u32(self.map.len()));
        let ghost head = o@;
        let mut i: usize = 0;
        while i < self.map.len()
            invariant
                i <= self.map@.len(),
                o@ == head + entries_bytes(self.listing().take(i as int)),
            decreases self.map@.len() - i,
        {
            let ghost before = o@;
            assert(self.listing()[i as int] == pair_view(self.map@[i as int]));
            push_field16(&mut o, self.map[i].0.as_slice());
            push_field32(&mut o, self.map[i].1.as_slice());
            assert(self.listing().take(i + 1).drop_last() =~= self.listing().take(i as int));
            assert(o@ =~= before + entry_bytes(self.listing()[i as int]));
            i = i + 1;
        }
        assert(self.listing().take(i as int) =~= self.listing());
        assert(o@ =~= snapshot_bytes(self.listing()));
        o
    }

    fn restore(bytes: &[u8]) -> (s: Self) {
        let ghost b = bytes@;
        let mut kv = KvStore::new();
        let mut r = Reader::new(bytes);
        let n = match r.u32() {
            Some(x) => x,
            None => {
                return kv;
            },
        };
        let mut i: u32 = 0;
        while i < n
            invariant
                r.wf(),
                r.b@ == b,
                b == bytes@,
                b.len() >= 4,
                n == u32_at(b, 0),
                i <= n,
                restore_loop(b, i as nat) == (kv@, r.pos as int, false),
            decreases n - i,
        {
            let ghost q = r.pos as int;
            let klen = match r.u16() {
                Some(x) => x,
                None => {
                    proof {
                        lemma_restore_loop_stopped(b, (i + 1) as nat, n as nat);
                    }
                    return kv;
                },
            };
            let kb = match r.bytes(klen as usize) {
                Some(x) => x,
                None => {
                    proof {
                        lemma_restore_loop_stopped(b, (i + 1) as nat, n as nat);
                    }
                    return kv;
                },
            };
            let vlen = match r.u32() {
                Some(x) => x,
                None => {
                    proof {
                        lemma_restore_loop_stopped(b, (i + 1) as nat, n as nat);
                    }
                    return kv;
                },
            };
            let vb = match r.bytes(vlen as usize) {
                Some(x) => x,
                None => {
                    proof {
                        lemma_restore_loop_stopped(b, (i + 1) as nat, n as nat);
                    }
                    return kv;
                },
            };
            if str_from_utf8(kb).is_some() {
                kv.put(slice_to_vec(kb), slice_to_vec(vb));
            }
            i = i + 1;
        }
        kv
    }

    proof fn lemma_restore_snapshot(m: Map<Seq<u8>, Seq<u8>>) {
        lemma_kv_restore_snapshot(m);
    }
}

} // verus!
