//! Replies and their RESP2 encoding.
use vstd::prelude::*;
use crate::octets::extend_bytes;

verus! {

/// A reply to a request.
#[derive(Debug, PartialEq, Eq)]
pub enum RespReply {
    SimpleString(&'static str),
    BulkString(Vec<u8>),
    NullBulkString,
    Integer(i64),
    Array(Vec<RespReply>),
    Error(String),
}

/// The decimal digits of a natural number.
pub open spec fn decimal_nat(n: nat) -> Seq<u8>
    decreases n,
{
    if n < 10 { seq![(48 + n) as u8] } else { decimal_nat(n / 10).push((48 + n % 10) as u8) }
}

/// The decimal form of an integer, with a minus sign when negative.
pub open spec fn decimal_int(i: int) -> Seq<u8> {
    if i < 0 { seq![45u8] + decimal_nat((-i) as nat) } else { decimal_nat(i as nat) }
}

/// Appends the decimal digits of `n`.
pub fn push_decimal(out: &mut Vec<u8>, n: u64)
    ensures
        final(out)@ == old(out)@ + decimal_nat(n as nat),
    decreases n,
{
    if n >= 10 {
        push_decimal(out, n / 10);
    }
    out.push((48 + n % 10) as u8);
    assert(final(out)@ =~= old(out)@ + decimal_nat(n as nat));
}

/// Appends the decimal form of `i`.
pub fn push_decimal_int(out: &mut Vec<u8>, i: i64)
    ensures
        final(out)@ == old(out)@ + decimal_int(i as int),
{
    if i < 0 {
        out.push(45);
        let m: u64 = (0i128 - (i as i128)) as u64;
        let ghost mid = out@;
        push_decimal(out, m);
        assert(final(out)@ =~= old(out)@ + decimal_int(i as int));
    } else {
        push_decimal(out, i as u64);
    }
}

/// CR LF.
pub open spec fn crlf() -> Seq<u8> {
    seq![13u8, 10u8]
}

/// The RESP2 bytes of a reply.
pub open spec fn reply_bytes(r: RespReply) -> Seq<u8>
    decreases r, 0nat,
{
    match r {
        RespReply::SimpleString(s) => seq![43u8] + vstd::utf8::encode_utf8(s@) + crlf(),
        RespReply::BulkString(v) => seq![36u8] + decimal_nat(v@.len()) + crlf() + v@ + crlf(),
        RespReply::NullBulkString => seq![36u8, 45u8, 49u8, 13u8, 10u8],
        RespReply::Integer(i) => seq![58u8] + decimal_int(i as int) + crlf(),
        RespReply::Array(vs) => seq![42u8] + decimal_nat(vs@.len()) + crlf() + replies_bytes(vs@, vs@.len() as nat),
        RespReply::Error(m) => seq![45u8] + vstd::utf8::encode_utf8(m@) + crlf(),
    }
}

/// The bytes of the first `n` replies, one after another.
pub open spec fn replies_bytes(vs: Seq<RespReply>, n: nat) -> Seq<u8>
    decreases vs, n,
{
    if n == 0 || n > vs.len() {
        Seq::empty()
    } else {
        replies_bytes(vs, (n - 1) as nat) + reply_bytes(vs[n - 1])
    }
}

impl RespReply {
    /// The RESP2 encoding of the reply.
    pub fn encode(&self) -> (r: Vec<u8>)
        ensures
            r@ == reply_bytes(*self),
        decreases self,
    {
        let mut out: Vec<u8> = Vec::new();
        match self {
            RespReply::SimpleString(s) => {
                out.push(43);
                extend_bytes(&mut out, s.as_bytes());
                out.push(13);
                out.push(10);
            },
            RespReply::BulkString(v) => {
                out.push(36);
                push_decimal(&mut out, v.len() as u64);
                out.push(13);
                out.push(10);
                extend_bytes(&mut out, v.as_slice());
                out.push(13);
                out.push(10);
            },
            RespReply::NullBulkString => {
                out.push(36);
                out.push(45);
                out.push(49);
                out.push(13);
                out.push(10);
            },
            RespReply::Integer(i) => {
                out.push(58);
                push_decimal_int(&mut out, *i);
                out.push(13);
                out.push(10);
            },
            RespReply::Array(vs) => {
                out.push(42);
                push_decimal(&mut out, vs.len() as u64);
                out.push(13);
                out.push(10);
                let ghost head = out@;
                let mut i: usize = 0;
                while i < vs.len()
                    invariant
                        *self == RespReply::Array(*vs),
                        i <= vs@.len(),
                        out@ == head + replies_bytes(vs@, i as nat),
                    decreases vs@.len() - i,
                {
                    proof {
                        assert(decreases_to!(*self => (*self)->Array_0));
                        assert((*self)->Array_0 == *vs);
                        assert(decreases_to!(*vs => vs@));
                        assert(decreases_to!(vs@ => vs@[i as int]));
                    }
                    let part = vs[i].encode();
                    extend_bytes(&mut out, part.as_slice());
                    i = i + 1;
                    assert(out@ =~= head + replies_bytes(vs@, i as nat));
                }
            },
            RespReply::Error(m) => {
                out.push(45);
                extend_bytes(&mut out, m.as_str().as_bytes());
                out.push(13);
                out.push(10);
            },
        }
        assert(out@ =~= reply_bytes(*self));
        out
    }
}

} // verus!
