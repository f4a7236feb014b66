//! A client session: bytes in, encoded replies out.
use vstd::prelude::*;
use super::resp::{RespCommandParser, RespError, ParseOutcome, frame_at_front, arg_views, outcome_view, lemma_frame_progress};
use super::reply::{RespReply, reply_bytes, replies_bytes, decimal_nat, decimal_int, crlf};
use super::db::{RedisMiniDb, ReplyModel, ValueModel, execute_spec, reply_is, bulk_is};

verus! {

/// The RESP2 bytes of a reply model.
pub open spec fn model_bytes(m: ReplyModel) -> Seq<u8> {
    match m {
        ReplyModel::Simple(s) => seq![43u8] + vstd::utf8::encode_utf8(s) + crlf(),
        ReplyModel::Bulk(b) => bulk_bytes(b),
        ReplyModel::Null => seq![36u8, 45u8, 49u8, 13u8, 10u8],
        ReplyModel::Int(i) => seq![58u8] + decimal_int(i) + crlf(),
        ReplyModel::BulkArray(bs) => seq![42u8] + decimal_nat(bs.len()) + crlf() + bulks_bytes(bs, bs.len() as int),
        ReplyModel::Error(s) => seq![45u8] + vstd::utf8::encode_utf8(s) + crlf(),
    }
}

/// The bytes of a bulk string.
pub open spec fn bulk_bytes(b: Seq<u8>) -> Seq<u8> {
    seq![36u8] + decimal_nat(b.len()) + crlf() + b + crlf()
}

/// The bytes of the first `n` bulk strings.
pub open spec fn bulks_bytes(bs: Seq<Seq<u8>>, n: int) -> Seq<u8>
    decreases n,
{
    if n <= 0 || n > bs.len() { Seq::empty() } else { bulks_bytes(bs, n - 1) + bulk_bytes(bs[n - 1]) }
}

proof fn lemma_bulks(vs: Seq<RespReply>, bs: Seq<Seq<u8>>, n: int)
    requires
        vs.len() == bs.len(),
        0 <= n <= vs.len(),
        forall|i: int| 0 <= i < bs.len() ==> bulk_is(#[trigger] vs[i], bs[i]),
    ensures
        replies_bytes(vs, n as nat) == bulks_bytes(bs, n),
    decreases n,
{
    if n > 0 {
        lemma_bulks(vs, bs, n - 1);
        assert(bulk_is(vs[n - 1], bs[n - 1]));
        assert(reply_bytes(vs[n - 1]) == bulk_bytes(bs[n - 1]));
        assert(replies_bytes(vs, n as nat) == replies_bytes(vs, (n - 1) as nat) + reply_bytes(vs[n - 1]));
    }
}

/// A reply's encoding follows from its model.
pub proof fn lemma_model_bytes(r: RespReply, m: ReplyModel)
    requires
        reply_is(r, m),
    ensures
        reply_bytes(r) == model_bytes(m),
{
    match m {
        ReplyModel::BulkArray(bs) => {
            let vs = r->Array_0@;
            lemma_bulks(vs, bs, bs.len() as int);
        },
        _ => {},
    }
}

/// Serving the requests in `buf`: the output so far, the bytes left, and
/// the key space afterwards. A malformed request stops the run with its
/// error; the replies written before it are not returned.
pub open spec fn drain_requests(buf: Seq<u8>, max: int, m: Map<Seq<u8>, ValueModel>, out: Seq<u8>) -> (Result<Seq<u8>, RespError>, Seq<u8>, Map<Seq<u8>, ValueModel>)
    decreases buf.len(),
{
    match frame_at_front(buf, max) {
        Err(e) => (Err(e), buf, m),
        Ok(None) => (Ok(out), buf, m),
        Ok(Some((args, c))) => if c <= 0 || c > buf.len() {
            (Ok(out), buf, m)
        } else {
            let (m2, reply) = execute_spec(m, args);
            drain_requests(buf.subrange(c, buf.len() as int), max, m2, out + model_bytes(reply))
        },
    }
}

/// A client connection's parser and key space.
#[derive(Debug)]
pub struct RedisMiniClientSession {
    parser: RespCommandParser,
    db: RedisMiniDb,
}

/// A session's state, as values.
pub struct SessionModel {
    pub buffer: Seq<u8>,
    pub max_line_length: int,
    pub db: Map<Seq<u8>, ValueModel>,
}

impl View for RedisMiniClientSession {
    type V = SessionModel;

    closed spec fn view(&self) -> SessionModel {
        SessionModel { buffer: self.parser@.buffer, max_line_length: self.parser@.max_line_length, db: self.db@ }
    }
}

/// The value of a byte-vector result.
pub open spec fn output_view(r: Result<Vec<u8>, RespError>) -> Result<Seq<u8>, RespError> {
    match r {
        Ok(v) => Ok(v@),
        Err(e) => Err(e),
    }
}

impl RedisMiniClientSession {
    /// A session with an empty buffer and key space.
    pub fn new() -> (r: Self)
        ensures
            r@.buffer == Seq::<u8>::empty(),
            r@.max_line_length == 1024 * 1024,
            r@.db == Map::<Seq<u8>, ValueModel>::empty(),
    {
        RedisMiniClientSession { parser: RespCommandParser::new(), db: RedisMiniDb::new() }
    }

    /// Buffers `bytes`, runs every complete request in order and returns
    /// their encoded replies; an incomplete request stays buffered.
    pub fn process_input(&mut self, bytes: &[u8]) -> (r: Result<Vec<u8>, RespError>)
        ensures
            ({
                let (res, rest, db) = drain_requests(old(self)@.buffer + bytes@, old(self)@.max_line_length, old(self)@.db, Seq::empty());
                &&& output_view(r) == res
                &&& final(self)@.buffer == rest
                &&& final(self)@.db == db
                &&& final(self)@.max_line_length == old(self)@.max_line_length
            }),
    {
        self.parser.append(bytes);
        let ghost start = self@;
        assert(start.buffer == old(self)@.buffer + bytes@);
        assert(start.db == old(self)@.db);
        let mut output: Vec<u8> = Vec::new();
        loop
            invariant
                start.buffer == old(self)@.buffer + bytes@,
                start.db == old(self)@.db,
                start.max_line_length == old(self)@.max_line_length,
                self@.max_line_length == start.max_line_length,
                drain_requests(start.buffer, start.max_line_length, start.db, Seq::empty())
                    == drain_requests(self@.buffer, self@.max_line_length, self@.db, output@),
            decreases self@.buffer.len(),
        {
            let ghost before = self@;
            proof {
                lemma_frame_progress(before.buffer, before.max_line_length);
            }
            match self.parser.parse_available() {
                Err(e) => {
                    assert(drain_requests(before.buffer, before.max_line_length, before.db, output@) == (Err::<Seq<u8>, RespError>(e), before.buffer, before.db));
                    assert(self@.buffer == before.buffer && self@.db == before.db);
                    return Err(e);
                },
                Ok(ParseOutcome::Incomplete) => {
                    assert(self@.buffer == before.buffer && self@.db == before.db);
                    return Ok(output);
                },
                Ok(ParseOutcome::Complete(command)) => {
                    let ghost args = arg_views(command.args@);
                    let reply = self.db.execute(command);
                    let encoded = reply.encode();
                    proof {
                        lemma_model_bytes(reply, execute_spec(before.db, args).1);
                    }
                    crate::octets::extend_bytes(&mut output, encoded.as_slice());
                },
            }
        }
    }
}

} // verus!
