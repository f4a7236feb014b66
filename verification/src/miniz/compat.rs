//! A C-style inflate stream over caller buffers, for zlib streams made of
//! stored blocks.
use vstd::prelude::*;

verus! {

/// Status codes of the stream calls.
#[derive(Debug, Copy, Clone, PartialEq, Eq, Structural)]
pub enum MzStatus {
    StreamOk,
    StreamEnd,
    BufError,
    StreamError,
    DataError,
}

/// Whether the caller has handed over all input.
#[derive(Debug, Copy, Clone, PartialEq, Eq, Structural)]
pub enum MzFlush {
    NoFlush,
    Finish,
}

/// A stream over a caller's input and output buffers.
#[derive(Debug)]
pub struct MzStream<'a> {
    pub next_in: Option<&'a [u8]>,
    pub avail_in: usize,
    pub next_out: Option<&'a mut [u8]>,
    pub avail_out: usize,
    pub total_in: usize,
    pub total_out: usize,
    pub allocators_set: bool,
    initialized: bool,
    ended: bool,
    decoded: bool,
    decoded_output: Vec<u8>,
}

/// The Adler-32 sums `(a, b)` of the first `n` bytes.
pub open spec fn adler_sums(s: Seq<u8>, n: int) -> (int, int)
    decreases n,
{
    if n <= 0 {
        (1, 0)
    } else {
        let (a, b) = adler_sums(s, n - 1);
        let a2 = (a + s[n - 1]) % 65521;
        (a2, (b + a2) % 65521)
    }
}

/// The Adler-32 checksum of a byte sequence.
pub open spec fn adler32_spec(s: Seq<u8>) -> u32 {
    let (a, b) = adler_sums(s, s.len() as int);
    (b * 65536 + a) as u32
}

proof fn lemma_adler_bounds(s: Seq<u8>, n: int)
    requires
        0 <= n <= s.len(),
    ensures
        0 <= adler_sums(s, n).0 < 65521,
        0 <= adler_sums(s, n).1 < 65521,
    decreases n,
{
    if n > 0 {
        lemma_adler_bounds(s, n - 1);
    }
}

/// Computes the Adler-32 checksum.
pub fn adler32(input: &[u8]) -> (r: u32)
    ensures
        r == adler32_spec(input@),
{
    let mut a: u32 = 1;
    let mut b: u32 = 0;
    let mut i: usize = 0;
    while i < input.len()
        invariant
            i <= input@.len(),
            (a as int, b as int) == adler_sums(input@, i as int),
            a < 65521,
            b < 65521,
        decreases input@.len() - i,
    {
        a = (a + input[i] as u32) % 65521;
        b = (b + a) % 65521;
        i = i + 1;
    }
    proof {
        lemma_adler_bounds(input@, input@.len() as int);
    }
    b * 65536 + a
}

/// The little-endian `u16` at `i`.
pub open spec fn le16(s: Seq<u8>, i: int) -> int {
    s[i] + s[i + 1] * 256
}

/// The stored blocks from `offset` on, after the bytes `acc` already
/// decoded: the decoded bytes and where the checksum starts.
pub open spec fn stored_blocks(input: Seq<u8>, offset: int, acc: Seq<u8>) -> Option<(Seq<u8>, int)>
    decreases input.len() - offset,
{
    let end = input.len() - 4;
    if offset < 0 || offset >= end {
        None
    } else {
        let header = input[offset];
        let o = offset + 1;
        if (header / 2) % 4 != 0 || o + 4 > end {
            None
        } else {
            let len = le16(input, o);
            let nlen = le16(input, o + 2);
            let data = o + 4;
            if len + nlen != 65535 || data + len > end {
                None
            } else {
                let out = acc + input.subrange(data, data + len);
                if header % 2 == 1 {
                    Some((out, data + len))
                } else {
                    stored_blocks(input, data + len, out)
                }
            }
        }
    }
}

/// What a zlib stream of stored blocks decodes to: a valid header, stored
/// blocks up to the final one, and the Adler-32 of the data right after.
pub open spec fn stored_decode(input: Seq<u8>) -> Option<Seq<u8>> {
    if input.len() < 6 || input[0] % 16 != 8 || (input[0] * 256 + input[1]) % 31 != 0 || (input[1] / 32) % 2 == 1 {
        None
    } else {
        stored_tail(input, stored_blocks(input, 2, Seq::empty()))
    }
}

/// The checksum check after the blocks.
pub open spec fn stored_tail(input: Seq<u8>, blocks: Option<(Seq<u8>, int)>) -> Option<Seq<u8>> {
    match blocks {
        None => None,
        Some((out, offset)) => if offset + 4 != input.len() {
            None
        } else if adler32_spec(out) != crate::octets::be_u32_at(input, offset) {
            None
        } else {
            Some(out)
        },
    }
}

/// Decodes a zlib stream made of stored blocks.
pub fn decode_zlib_stored_blocks(input: &[u8]) -> (r: Result<Vec<u8>, ()>)
    ensures
        match r {
            Ok(v) => stored_decode(input@) == Some(v@),
            Err(()) => stored_decode(input@) is None,
        },
{
    let n = input.len();
    if n < 6 {
        return Err(());
    }
    if input[0] % 16 != 8 {
        return Err(());
    }
    if ((input[0] as u32) * 256 + input[1] as u32) % 31 != 0 {
        return Err(());
    }
    if (input[1] / 32) % 2 == 1 {
        return Err(());
    }
    let end = n - 4;
    let mut offset: usize = 2;
    let mut output: Vec<u8> = Vec::new();
    let ghost full = stored_blocks(input@, 2, Seq::empty());
    assert(stored_decode(input@) == stored_tail(input@, full));
    loop
        invariant_except_break
            n == input@.len(),
            end == n - 4,
            n >= 6,
            offset <= end + 0,
            full == stored_blocks(input@, offset as int, output@),
            stored_decode(input@) == stored_tail(input@, full),
        ensures
            stored_decode(input@) == stored_tail(input@, full),
            n == input@.len(),
            end == n - 4,
            n >= 6,
            full == Some((output@, offset as int)),
            offset <= end,
        decreases end - offset,
    {
        if offset >= end {
            return Err(());
        }
        let header = input[offset];
        let o = offset + 1;
        if (header / 2) % 4 != 0 || o + 4 > end {
            return Err(());
        }
        let len = (input[o] as usize) + (input[o + 1] as usize) * 256;
        let nlen = (input[o + 2] as usize) + (input[o + 3] as usize) * 256;
        let data = o + 4;
        if len + nlen != 65535 || len > end - data {
            return Err(());
        }
        crate::octets::extend_bytes(&mut output, &input[data..data + len]);
        offset = data + len;
        if header % 2 == 1 {
            break;
        }
    }
    if offset + 4 != n {
        return Err(());
    }
    let expected = crate::octets::read_be_u32(input, offset);
    if adler32(output.as_slice()) != expected {
        return Err(());
    }
    Ok(output)
}

/// The stream's state, as values.
pub struct StreamModel {
    pub next_in: Option<Seq<u8>>,
    pub avail_in: usize,
    pub next_out: Option<Seq<u8>>,
    pub avail_out: usize,
    pub total_in: usize,
    pub total_out: usize,
    pub allocators_set: bool,
    pub initialized: bool,
    pub ended: bool,
    pub decoded: bool,
    pub decoded_output: Seq<u8>,
}

impl<'a> View for MzStream<'a> {
    type V = StreamModel;

    closed spec fn view(&self) -> StreamModel {
        StreamModel {
            next_in: match self.next_in {
                Some(i) => Some(i@),
                None => None,
            },
            avail_in: self.avail_in,
            next_out: match self.next_out {
                Some(o) => Some(o@),
                None => None,
            },
            avail_out: self.avail_out,
            total_in: self.total_in,
            total_out: self.total_out,
            allocators_set: self.allocators_set,
            initialized: self.initialized,
            ended: self.ended,
            decoded: self.decoded,
            decoded_output: self.decoded_output@,
        }
    }
}

impl<'a> MzStream<'a> {
    /// The output buffer the stream writes to.
    pub closed spec fn output_ref(self) -> &'a mut [u8] {
        self.next_out->Some_0
    }

    /// Once the caller is done with the stream, the output buffer it was
    /// made over holds what the stream's model says.
    pub proof fn lemma_output_resolved(self)
        requires
            has_resolved(self),
            self@.next_out is Some,
        ensures
            final(self.output_ref())@ == self@.next_out->Some_0,
    {
    }

    /// A stream over `input` and `output`, not yet initialized.
    pub fn new(input: &'a [u8], output: &'a mut [u8]) -> (r: Self)
        ensures
            r@ == (StreamModel {
                next_in: Some(input@),
                avail_in: input@.len() as usize,
                next_out: Some(old(output)@),
                avail_out: old(output)@.len() as usize,
                total_in: 0,
                total_out: 0,
                allocators_set: false,
                initialized: false,
                ended: false,
                decoded: false,
                decoded_output: Seq::empty(),
            }),
            final(output)@ == final(r.output_ref())@,
            from_own_input(r@),
    {
        let output_len = output.len();
        let avail_in = input.len();
        MzStream {
            next_in: Some(input),
            avail_in,
            next_out: Some(output),
            avail_out: output_len,
            total_in: 0,
            total_out: 0,
            allocators_set: false,
            initialized: false,
            ended: false,
            decoded: false,
            decoded_output: Vec::new(),
        }
    }

    /// Records that the caller supplied allocation functions; inflating
    /// never allocates through them.
    pub fn set_allocators(&mut self)
        ensures
            final(self)@ == (StreamModel { allocators_set: true, ..old(self)@ }),
            final(final(self).output_ref())@ == final(old(self).output_ref())@,
            from_own_input(old(self)@) ==> from_own_input(final(self)@),
    {
        self.allocators_set = true;
    }
}

/// Initializes the stream for inflating; an ended stream cannot restart.
pub fn mz_inflate_init(stream: &mut MzStream<'_>) -> (r: MzStatus)
    ensures
        if old(stream)@.ended {
            r == MzStatus::StreamError && final(stream)@ == old(stream)@
        } else {
            r == MzStatus::StreamOk && final(stream)@ == (StreamModel { initialized: true, ..old(stream)@ })
        },
        final(final(stream).output_ref())@ == final(old(stream).output_ref())@,
        from_own_input(old(stream)@) ==> from_own_input(final(stream)@),
{
    if stream.ended {
        return MzStatus::StreamError;
    }
    stream.initialized = true;
    MzStatus::StreamOk
}

/// `a - b`, or 0 when `b` is larger.
pub open spec fn sat_sub(a: int, b: int) -> int {
    if a >= b { a - b } else { 0 }
}

/// `r` and `after` are what one inflate call on `before` gives.
pub open spec fn inflate_step(before: StreamModel, flush: MzFlush, after: StreamModel, r: MzStatus) -> bool {
    if !before.initialized || before.ended || before.next_in is None || before.next_out is None {
        r == MzStatus::StreamError && after == before
    } else if !before.decoded && stored_decode(before.next_in->Some_0) is None {
        r == MzStatus::DataError && after == before
    } else {
        let input = before.next_in->Some_0;
        let out = before.next_out->Some_0;
        let mid = if before.decoded {
            before
        } else {
            StreamModel {
                decoded_output: stored_decode(input)->Some_0,
                decoded: true,
                total_in: input.len() as usize,
                avail_in: 0,
                ..before
            }
        };
        let d = mid.decoded_output;
        let in_rem = sat_sub(d.len() as int, mid.total_out as int);
        let out_room = sat_sub(out.len() as int, mid.total_out as int);
        let out_rem = if (mid.avail_out as int) < out_room { mid.avail_out as int } else { out_room };
        let count = if in_rem < out_rem { in_rem } else { out_rem };
        if count == 0 {
            after == mid && r == (if in_rem == 0 && flush == MzFlush::Finish { MzStatus::StreamEnd } else { MzStatus::BufError })
        } else {
            let start = mid.total_out as int;
            &&& after == (StreamModel {
                next_out: Some(out.subrange(0, start) + d.subrange(start, start + count) + out.subrange(start + count, out.len() as int)),
                total_out: (start + count) as usize,
                avail_out: (mid.avail_out - count) as usize,
                ..mid
            })
            &&& r == (if start + count == d.len() && flush == MzFlush::Finish { MzStatus::StreamEnd } else { MzStatus::StreamOk })
        }
    }
}

/// The stream's decoded data, once there is any, is what its own input
/// decodes to, the whole input was taken in, and no more was written out
/// than was decoded or than the output buffer holds; before that, nothing
/// was written out.
pub open spec fn from_own_input(s: StreamModel) -> bool {
    &&& s.next_in is Some ==> s.next_in->Some_0.len() <= usize::MAX
    &&& s.next_out is Some ==> s.total_out <= s.next_out->Some_0.len() <= usize::MAX
    &&& if s.decoded {
        &&& s.next_in is Some
        &&& stored_decode(s.next_in->Some_0) == Some(s.decoded_output)
        &&& s.total_in == s.next_in->Some_0.len()
        &&& s.total_out <= s.decoded_output.len()
    } else {
        s.total_out == 0
    }
}

/// One inflate step on a stream whose decoded data came from its own
/// input: an input that is not a stored-block zlib stream is refused with
/// nothing changed; otherwise the next bytes of the decoded data, as many
/// as both buffers allow, land in the output at the running total, and the
/// step ends the stream once all are out and the caller finishes.
pub proof fn law_inflate_copies_own_input(before: StreamModel, flush: MzFlush, after: StreamModel, r: MzStatus)
    requires
        from_own_input(before),
        inflate_step(before, flush, after, r),
        before.initialized,
        !before.ended,
        before.next_in is Some,
        before.next_out is Some,
    ensures
        from_own_input(after),
        ({
            let inp = before.next_in->Some_0;
            let out = before.next_out->Some_0;
            let t = before.total_out as int;
            match stored_decode(inp) {
                None => r == MzStatus::DataError && after == before,
                Some(d) => {
                    let room = sat_sub(out.len() as int, t);
                    let out_rem = if (before.avail_out as int) < room { before.avail_out as int } else { room };
                    let k = if d.len() - t < out_rem { d.len() - t } else { out_rem };
                    &&& after.next_out == Some(out.subrange(0, t) + d.subrange(t, t + k) + out.subrange(t + k, out.len() as int))
                    &&& after.total_out == t + k
                    &&& after.avail_out == before.avail_out - k
                    &&& after.total_in == inp.len()
                    &&& after.decoded_output == d
                    &&& r == (if t + k == d.len() && flush == MzFlush::Finish {
                        MzStatus::StreamEnd
                    } else if k == 0 {
                        MzStatus::BufError
                    } else {
                        MzStatus::StreamOk
                    })
                },
            }
        }),
{
    let inp = before.next_in->Some_0;
    let out = before.next_out->Some_0;
    if before.decoded {
        assert(stored_decode(inp) == Some(before.decoded_output));
    }
    if stored_decode(inp) is Some {
        let d = stored_decode(inp)->Some_0;
        let t = before.total_out as int;
        assert(t <= out.len());
        assert(t <= d.len());
        let room = sat_sub(out.len() as int, t);
        let out_rem = if (before.avail_out as int) < room { before.avail_out as int } else { room };
        let k = if d.len() - t < out_rem { d.len() - t } else { out_rem };
        let mid = if before.decoded {
            before
        } else {
            StreamModel { decoded_output: d, decoded: true, total_in: inp.len() as usize, avail_in: 0, ..before }
        };
        assert(mid.decoded_output == d && mid.total_out == before.total_out && mid.avail_out == before.avail_out);
        assert(sat_sub(d.len() as int, t) == d.len() - t);
        assert(0 <= k <= before.avail_out);
        assert(k <= out.len() - t);
        if k == 0 {
            assert(after == mid);
            assert(out.subrange(0, t) + d.subrange(t, t + k) + out.subrange(t + k, out.len() as int) =~= out);
        } else {
            assert(after.next_out == Some(out.subrange(0, t) + d.subrange(t, t + k) + out.subrange(t + k, out.len() as int)));
        }
    }
}

/// Inflates as much of the decoded data as the output buffer takes.
pub fn mz_inflate(stream: &mut MzStream<'_>, flush: MzFlush) -> (r: MzStatus)
    ensures
        inflate_step(old(stream)@, flush, final(stream)@, r),
        final(final(stream).output_ref())@ == final(old(stream).output_ref())@,
{
    if !stream.initialized || stream.ended {
        return MzStatus::StreamError;
    }
    let input = match stream.next_in {
        Some(i) => i,
        None => return MzStatus::StreamError,
    };
    if stream.next_out.is_none() {
        return MzStatus::StreamError;
    }
    if !stream.decoded {
        match decode_zlib_stored_blocks(input) {
            Ok(decoded_output) => {
                stream.decoded_output = decoded_output;
                stream.decoded = true;
                stream.total_in = input.len();
                stream.avail_in = 0;
            },
            Err(()) => return MzStatus::DataError,
        }
    }
    let ghost mid = stream@;
    let dlen = stream.decoded_output.len();
    let input_remaining = if dlen >= stream.total_out { dlen - stream.total_out } else { 0 };
    let total_out = stream.total_out;
    let avail_out = stream.avail_out;
    let r = match &mut stream.next_out {
        None => MzStatus::StreamError,
        Some(output) => {
            let olen = output.len();
            let room = if olen >= total_out { olen - total_out } else { 0 };
            let output_remaining = if avail_out < room { avail_out } else { room };
            let byte_count = if input_remaining < output_remaining { input_remaining } else { output_remaining };
            if byte_count == 0 {
                if input_remaining == 0 && flush == MzFlush::Finish {
                    MzStatus::StreamEnd
                } else {
                    MzStatus::BufError
                }
            } else {
                let ghost o0 = output@;
                let ghost d = stream.decoded_output@;
                let mut k: usize = 0;
                while k < byte_count
                    invariant
                        k <= byte_count,
                        total_out + byte_count <= olen,
                        total_out + byte_count <= d.len(),
                        olen == output@.len(),
                        d == stream.decoded_output@,
                        final(*output)@ == final(old(stream).output_ref())@,
                        forall|j: int| 0 <= j < olen ==> #[trigger] output@[j] == (if total_out <= j < total_out + k { d[j] } else { o0[j] }),
                    decreases byte_count - k,
                {
                    let ghost prev = output@;
                    let v = stream.decoded_output[total_out + k];
                    output[total_out + k] = v;
                    assert(output@ == prev.update(total_out + k, v));
                    k = k + 1;
                }
                assert(output@ =~= o0.subrange(0, total_out as int) + d.subrange(total_out as int, total_out + byte_count)
                    + o0.subrange(total_out + byte_count, olen as int));
                MzStatus::StreamOk
            }
        },
    };
    assert(r != MzStatus::StreamError);
    if r != MzStatus::StreamOk {
        return r;
    }
    let count = {
        let olen = match &stream.next_out {
            Some(o) => o.len(),
            None => 0,
        };
        let room = if olen >= total_out { olen - total_out } else { 0 };
        let output_remaining = if avail_out < room { avail_out } else { room };
        if input_remaining < output_remaining { input_remaining } else { output_remaining }
    };
    stream.total_out = total_out + count;
    stream.avail_out = avail_out - count;
    if stream.total_out == dlen && flush == MzFlush::Finish {
        MzStatus::StreamEnd
    } else {
        MzStatus::StreamOk
    }
}

/// Ends an initialized stream.
pub fn mz_inflate_end(stream: &mut MzStream<'_>) -> (r: MzStatus)
    ensures
        if !old(stream)@.initialized || old(stream)@.ended {
            r == MzStatus::StreamError && final(stream)@ == old(stream)@
        } else {
            r == MzStatus::StreamOk && final(stream)@ == (StreamModel { ended: true, initialized: false, ..old(stream)@ })
        },
        final(final(stream).output_ref())@ == final(old(stream).output_ref())@,
        from_own_input(old(stream)@) ==> from_own_input(final(stream)@),
{
    if !stream.initialized || stream.ended {
        return MzStatus::StreamError;
    }
    stream.ended = true;
    stream.initialized = false;
    MzStatus::StreamOk
}

} // verus!
