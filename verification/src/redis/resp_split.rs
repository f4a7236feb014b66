//! Parsing multibulk requests does not depend on how their bytes arrive.
use vstd::prelude::*;
use super::reply::decimal_nat;
use super::resp::{RespError, all_digits, bulk_args, crlf_from, digits_value, frame_at_front, line_end, usize_value};

verus! {

/// The decimal form of `n` is digits that read back as `n`.
proof fn lemma_decimal_digits(n: nat)
    ensures
        decimal_nat(n).len() >= 1,
        all_digits(decimal_nat(n)),
        digits_value(decimal_nat(n)) == n,
    decreases n,
{
    if n >= 10 {
        lemma_decimal_digits(n / 10);
        let d = decimal_nat(n);
        assert(d.drop_last() =~= decimal_nat(n / 10));
        assert forall|i: int| 0 <= i < d.len() implies 48 <= #[trigger] d[i] <= 57 by {
            if i < d.len() - 1 {
                assert(d[i] == decimal_nat(n / 10)[i]);
            }
        }
        assert(d.last() == 48 + n % 10);
        assert(digits_value(d) == digits_value(d.drop_last()) * 10 + (d.last() - 48));
        assert(digits_value(d) == (n / 10) * 10 + n % 10);
        assert((n / 10) * 10 + n % 10 == n) by (nonlinear_arith);
    } else {
        let d = decimal_nat(n);
        assert(d.drop_last() =~= Seq::<u8>::empty());
        assert(d.last() == 48 + n);
        assert(digits_value(d) == digits_value(d.drop_last()) * 10 + (d.last() - 48));
    }
}

/// A header line: a tag byte, the decimal digits of `n`, CR LF.
pub open spec fn header_line(tag: u8, n: nat) -> Seq<u8> {
    seq![tag] + decimal_nat(n) + seq![13u8, 10u8]
}

/// One bulk string of a request, with its length line.
pub open spec fn bulk_bytes(a: Seq<u8>) -> Seq<u8> {
    header_line(36u8, a.len()) + a + seq![13u8, 10u8]
}

/// The bulk strings of a request one after the other.
pub open spec fn bulks_bytes(args: Seq<Seq<u8>>) -> Seq<u8>
    decreases args.len(),
{
    if args.len() == 0 {
        Seq::empty()
    } else {
        bulk_bytes(args[0]) + bulks_bytes(args.drop_first())
    }
}

/// The multibulk frame of a request: the count line, then the bulk strings.
pub open spec fn frame_bytes(args: Seq<Seq<u8>>) -> Seq<u8> {
    header_line(42u8, args.len()) + bulks_bytes(args)
}

/// A request whose frame is read whole and never early: it has arguments,
/// and each of its header lines, with its CR, is at most `max` bytes.
pub open spec fn fits(args: Seq<Seq<u8>>, max: int) -> bool {
    &&& args.len() >= 1
    &&& decimal_nat(args.len()).len() + 2 <= max
    &&& forall|i: int| 0 <= i < args.len() ==> decimal_nat((#[trigger] args[i]).len()).len() + 2 <= max
}

/// The first CR LF from `i` is the one at `j`, when none of the bytes from
/// `i` up to `j` is a CR.
proof fn lemma_crlf_at(buf: Seq<u8>, i: int, j: int)
    requires
        0 <= i <= j,
        j + 1 < buf.len(),
        buf[j] == 13,
        buf[j + 1] == 10,
        forall|k: int| i <= k < j ==> buf[k] != 13,
    ensures
        crlf_from(buf, i) == Some(j),
    decreases j - i,
{
    if i < j {
        lemma_crlf_at(buf, i + 1, j);
    }
}

/// There is no CR LF from `i` on when no byte from `i` but the last is a
/// CR.
proof fn lemma_crlf_none(buf: Seq<u8>, i: int)
    requires
        0 <= i,
        forall|k: int| i <= k < buf.len() - 1 ==> buf[k] != 13,
    ensures
        crlf_from(buf, i) is None,
    decreases buf.len() - i,
{
    if i + 1 < buf.len() {
        lemma_crlf_none(buf, i + 1);
    }
}

/// Where the parts of a bulk string stand: its tag, its length digits, the
/// CR LF that ends that line, its data and the CR LF after it.
proof fn lemma_bulk_layout(a: Seq<u8>)
    ensures
        ({
            let b = bulk_bytes(a);
            let d = decimal_nat(a.len());
            let le = 1 + d.len() as int;
            &&& b.len() == le + 2 + a.len() + 2
            &&& b[0] == 36
            &&& b.subrange(1, le) == d
            &&& forall|k: int| 0 <= k < le ==> b[k] != 13
            &&& b[le] == 13 && b[le + 1] == 10
            &&& b.subrange(le + 2, le + 2 + a.len()) == a
            &&& b[le + 2 + a.len()] == 13 && b[le + 3 + a.len()] == 10
        }),
{
    let b = bulk_bytes(a);
    let d = decimal_nat(a.len());
    let le = 1 + d.len() as int;
    lemma_decimal_digits(a.len());
    assert(b.subrange(1, le) =~= d);
    assert forall|k: int| 0 <= k < le implies b[k] != 13 by {
        if k >= 1 {
            assert(b[k] == d[k - 1]);
        }
    }
    assert(b.subrange(le + 2, le + 2 + a.len()) =~= a);
}

/// The bulk strings of a request, one before the rest.
proof fn lemma_bulks_front(args: Seq<Seq<u8>>)
    requires
        args.len() > 0,
    ensures
        bulks_bytes(args) == bulk_bytes(args[0]) + bulks_bytes(args.drop_first()),
        bulks_bytes(args).len() >= bulk_bytes(args[0]).len(),
{
    lemma_bulk_layout(args[0]);
}

/// Reading the bulk strings where they stand, whole, in `buf` gives them
/// all and goes on after them.
proof fn lemma_bulks_read(buf: Seq<u8>, c: int, args: Seq<Seq<u8>>, max: int, acc: Seq<Seq<u8>>)
    requires
        0 <= c,
        c + bulks_bytes(args).len() <= buf.len() <= usize::MAX,
        buf.subrange(c, c + bulks_bytes(args).len()) == bulks_bytes(args),
        forall|i: int| 0 <= i < args.len() ==> decimal_nat((#[trigger] args[i]).len()).len() + 2 <= max,
    ensures
        bulk_args(buf, c, args.len() as int, max, acc) == Ok::<Option<(Seq<Seq<u8>>, int)>, RespError>(
            Some((acc + args, c + bulks_bytes(args).len())),
        ),
    decreases args.len(),
{
    if args.len() == 0 {
        assert(acc + args =~= acc);
    } else {
        let a = args[0];
        let rest = args.drop_first();
        let b0 = bulk_bytes(a);
        let d = decimal_nat(a.len());
        let le = c + 1 + d.len() as int;
        lemma_bulks_front(args);
        lemma_bulk_layout(a);
        lemma_decimal_digits(a.len());
        let all = bulks_bytes(args);
        assert forall|k: int| 0 <= k < b0.len() implies buf[c + k] == #[trigger] b0[k] by {
            assert(buf[c + k] == buf.subrange(c, c + all.len())[k]);
            assert(all[k] == b0[k]);
        }
        assert(buf[c] == 36);
        assert forall|k: int| c <= k < le implies buf[k] != 13 by {
            assert(buf[k] == b0[k - c]);
        }
        assert(buf[le] == b0[le - c]);
        assert(buf[le + 1] == b0[le + 1 - c]);
        lemma_crlf_at(buf, c, le);
        assert(line_end(buf, c, max) == Ok::<Option<int>, RespError>(Some(le)));
        assert(buf.subrange(c + 1, le) =~= d) by {
            assert forall|k: int| 0 <= k < d.len() implies buf.subrange(c + 1, le)[k] == d[k] by {
                assert(buf[c + 1 + k] == b0[1 + k]);
                assert(b0.subrange(1, 1 + d.len() as int)[k] == b0[1 + k]);
            }
        }
        assert(a.len() <= usize::MAX);
        assert(usize_value(buf.subrange(c + 1, le)) == Some(a.len() as int));
        let data_start = le + 2;
        let data_end = data_start + a.len();
        assert(buf.subrange(data_start, data_end) =~= a) by {
            assert forall|k: int| 0 <= k < a.len() implies buf.subrange(data_start, data_end)[k] == a[k] by {
                assert(buf[data_start + k] == b0[data_start + k - c]);
                assert(b0.subrange(le - c + 2, le - c + 2 + a.len())[k] == b0[le - c + 2 + k]);
            }
        }
        assert(buf[data_end] == b0[data_end - c]);
        assert(buf[data_end + 1] == b0[data_end + 1 - c]);
        let c2 = c + b0.len();
        assert(data_end + 2 == c2);
        assert(buf.subrange(c2, c2 + bulks_bytes(rest).len()) =~= bulks_bytes(rest)) by {
            assert forall|k: int| 0 <= k < bulks_bytes(rest).len() implies buf.subrange(c2, c2 + bulks_bytes(rest).len())[k]
                == bulks_bytes(rest)[k] by {
                assert(buf[c2 + k] == buf.subrange(c, c + all.len())[b0.len() + k]);
                assert(all[b0.len() + k] == bulks_bytes(rest)[k]);
            }
        }
        assert forall|i: int| 0 <= i < rest.len() implies decimal_nat((#[trigger] rest[i]).len()).len() + 2 <= max by {
            assert(rest[i] == args[i + 1]);
        }
        lemma_bulks_read(buf, c2, rest, max, acc.push(a));
        assert(acc.push(a) + rest =~= acc + args);
        assert(rest.len() == args.len() - 1);
    }
}

/// Reading bulk strings of which only a part has arrived, cut anywhere
/// before the end of the last, waits for more.
proof fn lemma_bulks_prefix(q: Seq<u8>, c: int, args: Seq<Seq<u8>>, max: int, acc: Seq<Seq<u8>>)
    requires
        0 <= c <= q.len() < c + bulks_bytes(args).len(),
        c + bulks_bytes(args).len() <= usize::MAX,
        forall|k: int| c <= k < q.len() ==> #[trigger] q[k] == bulks_bytes(args)[k - c],
        forall|i: int| 0 <= i < args.len() ==> decimal_nat((#[trigger] args[i]).len()).len() + 2 <= max,
    ensures
        bulk_args(q, c, args.len() as int, max, acc) == Ok::<Option<(Seq<Seq<u8>>, int)>, RespError>(None),
    decreases args.len(),
{
    if args.len() == 0 {
        assert(bulks_bytes(args).len() == 0);
    } else if q.len() == c {
    } else {
        let a = args[0];
        let rest = args.drop_first();
        let b0 = bulk_bytes(a);
        let d = decimal_nat(a.len());
        let le = c + 1 + d.len() as int;
        lemma_bulks_front(args);
        lemma_bulk_layout(a);
        lemma_decimal_digits(a.len());
        let all = bulks_bytes(args);
        assert forall|k: int| c <= k < q.len() && k < c + b0.len() implies #[trigger] q[k] == b0[k - c] by {
            assert(q[k] == all[k - c]);
        }
        assert(q[c] == b0[0]);
        assert(decimal_nat(a.len()).len() + 2 <= max);
        if q.len() < le + 2 {
            assert forall|k: int| c <= k < q.len() - 1 implies q[k] != 13 by {
                assert(q[k] == b0[k - c]);
            }
            lemma_crlf_none(q, c);
            assert(line_end(q, c, max) == Ok::<Option<int>, RespError>(None));
        } else {
            assert forall|k: int| c <= k < le implies q[k] != 13 by {
                assert(q[k] == b0[k - c]);
            }
            assert(q[le] == b0[le - c]);
            assert(q[le + 1] == b0[le + 1 - c]);
            lemma_crlf_at(q, c, le);
            assert(line_end(q, c, max) == Ok::<Option<int>, RespError>(Some(le)));
            assert(q.subrange(c + 1, le) =~= d) by {
                assert forall|k: int| 0 <= k < d.len() implies q.subrange(c + 1, le)[k] == d[k] by {
                    assert(q[c + 1 + k] == b0[1 + k]);
                    assert(b0.subrange(1, 1 + d.len() as int)[k] == b0[1 + k]);
                }
            }
            assert(a.len() <= usize::MAX);
            assert(usize_value(q.subrange(c + 1, le)) == Some(a.len() as int));
            let c2 = c + b0.len();
            if q.len() < c2 {
            } else {
                let data_start = le + 2;
                let data_end = data_start + a.len();
                assert(q.subrange(data_start, data_end) =~= a) by {
                    assert forall|k: int| 0 <= k < a.len() implies q.subrange(data_start, data_end)[k] == a[k] by {
                        assert(q[data_start + k] == b0[data_start + k - c]);
                        assert(b0.subrange(le - c + 2, le - c + 2 + a.len())[k] == b0[le - c + 2 + k]);
                    }
                }
                assert(q[data_end] == b0[data_end - c]);
                assert(q[data_end + 1] == b0[data_end + 1 - c]);
                assert forall|k: int| c2 <= k < q.len() implies #[trigger] q[k] == bulks_bytes(rest)[k - c2] by {
                    assert(q[k] == all[k - c]);
                    assert(all[k - c] == bulks_bytes(rest)[k - c - b0.len()]);
                }
                assert forall|i: int| 0 <= i < rest.len() implies decimal_nat((#[trigger] rest[i]).len()).len() + 2 <= max by {
                    assert(rest[i] == args[i + 1]);
                }
                lemma_bulks_prefix(q, c2, rest, max, acc.push(a));
            }
        }
    }
}

/// Each bulk string takes at least one byte.
proof fn lemma_bulks_len(args: Seq<Seq<u8>>)
    ensures
        bulks_bytes(args).len() >= args.len(),
    decreases args.len(),
{
    if args.len() > 0 {
        lemma_bulks_front(args);
        lemma_bulks_len(args.drop_first());
    }
}

/// Where the parts of a header line stand.
proof fn lemma_header_layout(tag: u8, n: nat)
    requires
        tag != 13,
    ensures
        ({
            let h = header_line(tag, n);
            let d = decimal_nat(n);
            let he = 1 + d.len() as int;
            &&& h.len() == he + 2
            &&& h[0] == tag
            &&& h.subrange(1, he) == d
            &&& forall|k: int| 0 <= k < he ==> h[k] != 13
            &&& h[he] == 13 && h[he + 1] == 10
        }),
{
    let h = header_line(tag, n);
    let d = decimal_nat(n);
    let he = 1 + d.len() as int;
    lemma_decimal_digits(n);
    assert(h.subrange(1, he) =~= d);
    assert forall|k: int| 0 <= k < he implies h[k] != 13 by {
        if k >= 1 {
            assert(h[k] == d[k - 1]);
        }
    }
}

/// A request frame at the front of the buffer, whole, is read as that
/// request and takes exactly its bytes, whatever follows it.
pub proof fn lemma_frame_read(args: Seq<Seq<u8>>, more: Seq<u8>, max: int)
    requires
        fits(args, max),
        frame_bytes(args).len() + more.len() <= usize::MAX,
    ensures
        frame_at_front(frame_bytes(args) + more, max) == Ok::<Option<(Seq<Seq<u8>>, int)>, RespError>(
            Some((args, frame_bytes(args).len() as int)),
        ),
{
    let n = args.len();
    let h = header_line(42u8, n);
    let f = frame_bytes(args);
    let buf = f + more;
    let d = decimal_nat(n);
    let he = 1 + d.len() as int;
    let bs = bulks_bytes(args);
    lemma_header_layout(42u8, n);
    lemma_decimal_digits(n);
    assert forall|k: int| 0 <= k < h.len() implies #[trigger] buf[k] == h[k] by {}
    assert forall|k: int| 0 <= k < he implies buf[k] != 13 by {
        assert(buf[k] == h[k]);
    }
    assert(buf[he] == h[he] && buf[he + 1] == h[he + 1]);
    lemma_crlf_at(buf, 0, he);
    assert(line_end(buf, 0, max) == Ok::<Option<int>, RespError>(Some(he)));
    assert(buf[0] == 42);
    assert(buf.subrange(1, he) =~= d) by {
        assert forall|k: int| 0 <= k < d.len() implies buf.subrange(1, he)[k] == d[k] by {
            assert(buf[1 + k] == h[1 + k]);
            assert(h.subrange(1, he)[k] == h[1 + k]);
        }
    }
    lemma_bulks_len(args);
    assert(usize_value(buf.subrange(1, he)) == Some(n as int));
    let c = he + 2;
    assert(buf.subrange(c, c + bs.len()) =~= bs) by {
        assert forall|k: int| 0 <= k < bs.len() implies buf.subrange(c, c + bs.len())[k] == bs[k] by {
            assert(buf[c + k] == f[c + k]);
            assert(f[c + k] == bs[k]);
        }
    }
    lemma_bulks_read(buf, c, args, max, Seq::empty());
    assert(Seq::<Seq<u8>>::empty() + args =~= args);
}

/// A request frame of which only a part has arrived, cut anywhere before
/// its end, makes the parser wait for more.
pub proof fn lemma_frame_prefix(args: Seq<Seq<u8>>, p: int, max: int)
    requires
        fits(args, max),
        frame_bytes(args).len() <= usize::MAX,
        0 <= p < frame_bytes(args).len(),
    ensures
        frame_at_front(frame_bytes(args).subrange(0, p), max) == Ok::<Option<(Seq<Seq<u8>>, int)>, RespError>(None),
{
    let n = args.len();
    let h = header_line(42u8, n);
    let f = frame_bytes(args);
    let q = f.subrange(0, p);
    let d = decimal_nat(n);
    let he = 1 + d.len() as int;
    let bs = bulks_bytes(args);
    lemma_header_layout(42u8, n);
    lemma_decimal_digits(n);
    if p == 0 {
        assert(q.len() == 0);
    } else if p < he + 2 {
        assert forall|k: int| 0 <= k < q.len() - 1 implies q[k] != 13 by {
            assert(q[k] == h[k]);
        }
        lemma_crlf_none(q, 0);
        assert(line_end(q, 0, max) == Ok::<Option<int>, RespError>(None));
    } else {
        assert forall|k: int| 0 <= k < he implies q[k] != 13 by {
            assert(q[k] == h[k]);
        }
        assert(q[he] == h[he] && q[he + 1] == h[he + 1]);
        lemma_crlf_at(q, 0, he);
        assert(line_end(q, 0, max) == Ok::<Option<int>, RespError>(Some(he)));
        assert(q[0] == h[0]);
        assert(q.subrange(1, he) =~= d) by {
            assert forall|k: int| 0 <= k < d.len() implies q.subrange(1, he)[k] == d[k] by {
                assert(q[1 + k] == h[1 + k]);
                assert(h.subrange(1, he)[k] == h[1 + k]);
            }
        }
        lemma_bulks_len(args);
        assert(usize_value(q.subrange(1, he)) == Some(n as int));
        let c = he + 2;
        assert forall|k: int| c <= k < q.len() implies #[trigger] q[k] == bs[k - c] by {
            assert(q[k] == f[k]);
        }
        lemma_bulks_prefix(q, c, args, max, Seq::empty());
    }
}

/// The frames of requests one after the other.
pub open spec fn stream_bytes(fs: Seq<Seq<Seq<u8>>>) -> Seq<u8>
    decreases fs.len(),
{
    if fs.len() == 0 {
        Seq::empty()
    } else {
        frame_bytes(fs[0]) + stream_bytes(fs.drop_first())
    }
}

/// Pieces of input one after the other.
pub open spec fn joined(pieces: Seq<Seq<u8>>) -> Seq<u8>
    decreases pieces.len(),
{
    if pieces.len() == 0 {
        Seq::empty()
    } else {
        joined(pieces.drop_last()) + pieces.last()
    }
}

/// How many of the frames lie whole within the first `p` bytes of their
/// stream.
pub open spec fn count_within(fs: Seq<Seq<Seq<u8>>>, p: int) -> nat
    decreases fs.len(),
{
    if fs.len() == 0 || p < frame_bytes(fs[0]).len() {
        0
    } else {
        1 + count_within(fs.drop_first(), p - frame_bytes(fs[0]).len())
    }
}

/// What calling `parse_available` until it finds no more complete request
/// gives on the buffer `buf`: the requests found, and what stays buffered.
/// It stops at an error too, leaving the buffer as it is.
pub open spec fn drain(buf: Seq<u8>, max: int) -> (Seq<Seq<Seq<u8>>>, Seq<u8>)
    decreases buf.len(),
{
    match frame_at_front(buf, max) {
        Ok(Some((args, c))) => if 0 < c <= buf.len() {
            let (cs, rest) = drain(buf.skip(c), max);
            (seq![args] + cs, rest)
        } else {
            (Seq::empty(), buf)
        },
        _ => (Seq::empty(), buf),
    }
}

/// What a fresh parser with line limit `max` returns and still buffers
/// when each piece in turn is appended and then drained with `drain`.
pub open spec fn session(pieces: Seq<Seq<u8>>, max: int) -> (Seq<Seq<Seq<u8>>>, Seq<u8>)
    decreases pieces.len(),
{
    if pieces.len() == 0 {
        (Seq::empty(), Seq::empty())
    } else {
        let (c0, b0) = session(pieces.drop_last(), max);
        let (c1, b1) = drain(b0 + pieces.last(), max);
        (c0 + c1, b1)
    }
}

/// The stream of one request is its frame.
proof fn lemma_stream_one(x: Seq<Seq<u8>>)
    ensures
        stream_bytes(seq![x]) == frame_bytes(x),
{
    assert(seq![x].drop_first() =~= Seq::<Seq<Seq<u8>>>::empty());
    assert(stream_bytes(Seq::<Seq<Seq<u8>>>::empty()) == Seq::<u8>::empty());
    assert(frame_bytes(x) + Seq::<u8>::empty() =~= frame_bytes(x));
}

/// The frames of two lists of requests one after the other.
proof fn lemma_stream_concat(a: Seq<Seq<Seq<u8>>>, b: Seq<Seq<Seq<u8>>>)
    ensures
        stream_bytes(a + b) == stream_bytes(a) + stream_bytes(b),
    decreases a.len(),
{
    if a.len() == 0 {
        assert(a + b =~= b);
    } else {
        lemma_stream_concat(a.drop_first(), b);
        assert((a + b).drop_first() =~= a.drop_first() + b);
        assert((a + b)[0] == a[0]);
        assert(frame_bytes(a[0]) + (stream_bytes(a.drop_first()) + stream_bytes(b))
            =~= frame_bytes(a[0]) + stream_bytes(a.drop_first()) + stream_bytes(b));
    }
}

/// The stream is the frames before `r` and then the rest.
proof fn lemma_stream_split(fs: Seq<Seq<Seq<u8>>>, r: int)
    requires
        0 <= r <= fs.len(),
    ensures
        stream_bytes(fs) == stream_bytes(fs.take(r)) + stream_bytes(fs.skip(r)),
{
    lemma_stream_concat(fs.take(r), fs.skip(r));
    assert(fs.take(r) + fs.skip(r) =~= fs);
}

/// The frames counted lie within `p`, and the next one, if any, does not.
proof fn lemma_count_within(fs: Seq<Seq<Seq<u8>>>, p: int)
    requires
        0 <= p,
    ensures
        count_within(fs, p) <= fs.len(),
        stream_bytes(fs.take(count_within(fs, p) as int)).len() <= p,
        count_within(fs, p) < fs.len() ==> p < stream_bytes(fs.take(count_within(fs, p) as int)).len() + frame_bytes(
            fs[count_within(fs, p) as int],
        ).len(),
    decreases fs.len(),
{
    let r = count_within(fs, p) as int;
    if fs.len() == 0 || p < frame_bytes(fs[0]).len() {
        assert(fs.take(0) =~= Seq::<Seq<Seq<u8>>>::empty());
        assert(stream_bytes(Seq::<Seq<Seq<u8>>>::empty()).len() == 0);
    } else {
        let rest = fs.drop_first();
        let f0 = frame_bytes(fs[0]);
        lemma_count_within(rest, p - f0.len());
        let r2 = count_within(rest, p - f0.len()) as int;
        assert(fs.take(r) =~= seq![fs[0]] + rest.take(r2));
        lemma_stream_concat(seq![fs[0]], rest.take(r2));
        lemma_stream_one(fs[0]);
        if r < fs.len() {
            assert(fs[r] == rest[r2]);
        }
    }
}

/// Counting from a frame boundary `r` within `p` counts the frames before
/// `r` and then those of the rest within what is left of `p`.
proof fn lemma_count_shift(fs: Seq<Seq<Seq<u8>>>, r: int, p: int)
    requires
        0 <= r <= fs.len(),
        stream_bytes(fs.take(r)).len() <= p,
    ensures
        count_within(fs, p) == r + count_within(fs.skip(r), p - stream_bytes(fs.take(r)).len()),
    decreases r,
{
    if r > 0 {
        let rest = fs.drop_first();
        let f0 = frame_bytes(fs[0]);
        assert(fs.take(r) =~= seq![fs[0]] + rest.take(r - 1));
        lemma_stream_concat(seq![fs[0]], rest.take(r - 1));
        lemma_stream_one(fs[0]);
        assert(fs.skip(r) =~= rest.skip(r - 1));
        lemma_count_shift(rest, r - 1, p - f0.len());
    } else {
        assert(fs.skip(0) =~= fs);
        assert(fs.take(0) =~= Seq::<Seq<Seq<u8>>>::empty());
    }
}

/// Every request of the list fits the line limit.
pub open spec fn all_fit(fs: Seq<Seq<Seq<u8>>>, max: int) -> bool {
    forall|i: int| 0 <= i < fs.len() ==> fits(#[trigger] fs[i], max)
}

/// Draining the first `p` bytes of a stream of request frames finds the
/// requests whose frames lie whole within them, and leaves the rest of
/// those bytes buffered.
proof fn lemma_drain_prefix(fs: Seq<Seq<Seq<u8>>>, p: int, max: int)
    requires
        all_fit(fs, max),
        stream_bytes(fs).len() <= usize::MAX,
        0 <= p <= stream_bytes(fs).len(),
    ensures
        drain(stream_bytes(fs).subrange(0, p), max) == (
            fs.take(count_within(fs, p) as int),
            stream_bytes(fs).subrange(stream_bytes(fs.take(count_within(fs, p) as int)).len() as int, p),
        ),
    decreases fs.len(),
{
    let w = stream_bytes(fs);
    let buf = w.subrange(0, p);
    if fs.len() == 0 {
        assert(buf.len() == 0);
        assert(fs.take(0) =~= Seq::<Seq<Seq<u8>>>::empty());
        assert(w.subrange(0, p) =~= buf);
    } else {
        let rest = fs.drop_first();
        let f0 = frame_bytes(fs[0]);
        assert(fits(fs[0], max));
        assert(all_fit(rest, max)) by {
            assert forall|i: int| 0 <= i < rest.len() implies fits(#[trigger] rest[i], max) by {
                assert(rest[i] == fs[i + 1]);
            }
        }
        assert(w == f0 + stream_bytes(rest));
        if p < f0.len() {
            assert(buf =~= f0.subrange(0, p));
            lemma_frame_prefix(fs[0], p, max);
            assert(fs.take(0) =~= Seq::<Seq<Seq<u8>>>::empty());
            assert(stream_bytes(Seq::<Seq<Seq<u8>>>::empty()).len() == 0);
        } else {
            let sr = stream_bytes(rest);
            let more = sr.subrange(0, p - f0.len());
            assert(buf =~= f0 + more);
            lemma_frame_read(fs[0], more, max);
            assert(buf.skip(f0.len() as int) =~= more);
            lemma_drain_prefix(rest, p - f0.len(), max);
            let r2 = count_within(rest, p - f0.len()) as int;
            lemma_count_within(rest, p - f0.len());
            assert(count_within(fs, p) == 1 + r2);
            assert(fs.take(1 + r2) =~= seq![fs[0]] + rest.take(r2));
            lemma_stream_concat(seq![fs[0]], rest.take(r2));
            lemma_stream_one(fs[0]);
            let e2 = stream_bytes(rest.take(r2)).len() as int;
            assert(w.subrange(f0.len() + e2, p) =~= sr.subrange(e2, p - f0.len()));
        }
    }
}

/// After pieces that make up the first bytes of a stream of request
/// frames, the parser has returned the requests whose frames lie whole
/// within those bytes, and buffers the rest of them.
proof fn lemma_session_prefix(fs: Seq<Seq<Seq<u8>>>, pieces: Seq<Seq<u8>>, max: int)
    requires
        all_fit(fs, max),
        stream_bytes(fs).len() <= usize::MAX,
        joined(pieces).len() <= stream_bytes(fs).len(),
        joined(pieces) == stream_bytes(fs).subrange(0, joined(pieces).len() as int),
    ensures
        session(pieces, max) == (
            fs.take(count_within(fs, joined(pieces).len() as int) as int),
            stream_bytes(fs).subrange(
                stream_bytes(fs.take(count_within(fs, joined(pieces).len() as int) as int)).len() as int,
                joined(pieces).len() as int,
            ),
        ),
    decreases pieces.len(),
{
    let w = stream_bytes(fs);
    let p = joined(pieces).len() as int;
    if pieces.len() == 0 {
        lemma_count_within(fs, 0);
        let r = count_within(fs, 0) as int;
        assert(w.subrange(stream_bytes(fs.take(r)).len() as int, 0) =~= Seq::<u8>::empty());
        if r > 0 {
            assert(fs.take(r) =~= seq![fs[0]] + fs.take(r).drop_first());
            lemma_stream_concat(seq![fs[0]], fs.take(r).drop_first());
            lemma_stream_one(fs[0]);
            lemma_header_layout(42u8, fs[0].len());
        }
        assert(fs.take(r) =~= Seq::<Seq<Seq<u8>>>::empty());
    } else {
        let front = pieces.drop_last();
        let p0 = joined(front).len() as int;
        assert(joined(pieces) == joined(front) + pieces.last());
        assert(joined(front) =~= w.subrange(0, p0));
        lemma_session_prefix(fs, front, max);
        lemma_count_within(fs, p0);
        let r0 = count_within(fs, p0) as int;
        let e0 = stream_bytes(fs.take(r0)).len() as int;
        let fs2 = fs.skip(r0);
        lemma_stream_split(fs, r0);
        assert(all_fit(fs2, max)) by {
            assert forall|i: int| 0 <= i < fs2.len() implies fits(#[trigger] fs2[i], max) by {
                assert(fs2[i] == fs[r0 + i]);
            }
        }
        let buf = w.subrange(e0, p0) + pieces.last();
        assert(pieces.last() =~= w.subrange(p0, p)) by {
            assert forall|k: int| 0 <= k < pieces.last().len() implies pieces.last()[k] == w.subrange(p0, p)[k] by {
                assert(joined(pieces)[p0 + k] == pieces.last()[k]);
                assert(joined(pieces)[p0 + k] == w[p0 + k]);
            }
        }
        assert(buf =~= w.subrange(e0, p));
        assert(w.subrange(e0, p) =~= stream_bytes(fs2).subrange(0, p - e0)) by {
            assert forall|k: int| 0 <= k < p - e0 implies w.subrange(e0, p)[k] == stream_bytes(fs2).subrange(0, p - e0)[k] by {
                assert(w[e0 + k] == stream_bytes(fs2)[k]);
            }
        }
        lemma_drain_prefix(fs2, p - e0, max);
        lemma_count_shift(fs, r0, p);
        let r2 = count_within(fs2, p - e0) as int;
        lemma_count_within(fs2, p - e0);
        assert(fs.take(r0) + fs2.take(r2) =~= fs.take(r0 + r2));
        lemma_stream_concat(fs.take(r0), fs2.take(r2));
        let e2 = stream_bytes(fs2.take(r2)).len() as int;
        assert(w.subrange(e0 + e2, p) =~= stream_bytes(fs2).subrange(e2, p - e0)) by {
            assert forall|k: int| 0 <= k < p - e0 - e2 implies #[trigger] w.subrange(e0 + e2, p)[k] == stream_bytes(fs2).subrange(e2, p - e0)[k] by {
                assert(w[e0 + e2 + k] == stream_bytes(fs2)[e2 + k]);
            }
        }
    }
}

/// However the frames of well-formed multibulk requests arrive, split into
/// pieces each appended and then drained, the parser returns exactly those
/// requests, in order, and ends with nothing buffered. A request is
/// well-formed here when it has arguments and each of its header lines,
/// with its CR, is at most the line limit; a line exactly at the limit
/// would be refused if a piece ended just after its CR.
pub proof fn law_requests_independent_of_split(fs: Seq<Seq<Seq<u8>>>, pieces: Seq<Seq<u8>>, max: int)
    requires
        all_fit(fs, max),
        stream_bytes(fs).len() <= usize::MAX,
        joined(pieces) == stream_bytes(fs),
    ensures
        session(pieces, max) == (fs, Seq::<u8>::empty()),
{
    let w = stream_bytes(fs);
    assert(w.subrange(0, w.len() as int) =~= w);
    lemma_session_prefix(fs, pieces, max);
    lemma_count_within(fs, w.len() as int);
    let r = count_within(fs, w.len() as int) as int;
    if r < fs.len() {
        lemma_stream_split(fs, r);
        let rest = fs.skip(r);
        assert(rest[0] == fs[r]);
        assert(stream_bytes(rest) == frame_bytes(rest[0]) + stream_bytes(rest.drop_first()));
        assert(false);
    }
    assert(fs.take(r) =~= fs);
    assert(w.subrange(w.len() as int, w.len() as int) =~= Seq::<u8>::empty());
}

} // verus!
