use parsekit::miniz::compat::{decode_zlib_stored_blocks, mz_inflate, mz_inflate_end, mz_inflate_init, MzFlush, MzStatus, MzStream};
use parsekit::miniz::native::{inflate_all, inflate_with_output_limit, InflateError, InflateOutcome, InflateProgress, Inflater};

fn checksum(input: &[u8]) -> u32 {
    let mut a = 1_u32;
    let mut b = 0_u32;
    for byte in input {
        a = (a + u32::from(*byte)) % 65_521;
        b = (b + a) % 65_521;
    }
    (b << 16) | a
}

fn stored_zlib(payload: &[u8]) -> Vec<u8> {
    stored_zlib_blocks(&[payload])
}

fn stored_zlib_blocks(blocks: &[&[u8]]) -> Vec<u8> {
    let mut input = vec![0x78, 0x01];
    let mut payload = Vec::new();

    for (index, block) in blocks.iter().enumerate() {
        let final_block = u8::from(index + 1 == blocks.len());
        let len = block.len() as u16;
        input.push(final_block);
        input.extend_from_slice(&len.to_le_bytes());
        input.extend_from_slice(&(!len).to_le_bytes());
        input.extend_from_slice(block);
        payload.extend_from_slice(block);
    }

    input.extend_from_slice(&checksum(&payload).to_be_bytes());
    input
}

#[test]
fn c_style_stream_decodes_stored_block_to_caller_output() {
    let input = stored_zlib(b"stream bytes");
    let mut output = [0_u8; 16];
    let mut stream = MzStream::new(&input, &mut output);
    stream.set_allocators();

    assert_eq!(mz_inflate_init(&mut stream), MzStatus::StreamOk);
    assert_eq!(
        mz_inflate(&mut stream, MzFlush::Finish),
        MzStatus::StreamEnd
    );
    assert_eq!(stream.total_in, input.len());
    assert_eq!(stream.total_out, b"stream bytes".len());
    assert_eq!(mz_inflate_end(&mut stream), MzStatus::StreamOk);

    drop(stream);
    assert_eq!(&output[..b"stream bytes".len()], b"stream bytes");
}

#[test]
fn c_style_stream_reports_output_buffer_pressure() {
    let input = stored_zlib(b"abcdef");
    let mut output = [0_u8; 3];
    let mut stream = MzStream::new(&input, &mut output);

    assert_eq!(mz_inflate_init(&mut stream), MzStatus::StreamOk);
    assert_eq!(mz_inflate(&mut stream, MzFlush::Finish), MzStatus::StreamOk);
    assert_eq!(mz_inflate(&mut stream, MzFlush::Finish), MzStatus::BufError);
    assert_eq!(stream.total_in, input.len());
    assert_eq!(stream.total_out, 3);
}

#[test]
fn c_style_stream_rejects_calls_outside_lifecycle() {
    let input = stored_zlib(b"abc");
    let mut output = [0_u8; 3];
    let mut stream = MzStream::new(&input, &mut output);

    assert_eq!(
        mz_inflate(&mut stream, MzFlush::NoFlush),
        MzStatus::StreamError
    );
    assert_eq!(mz_inflate_end(&mut stream), MzStatus::StreamError);
}

#[test]
fn c_style_stream_rejects_invalid_stored_block_checksum() {
    let mut input = stored_zlib(b"abc");
    let last = input.len() - 1;
    input[last] ^= 1;
    let mut output = [0_u8; 3];
    let mut stream = MzStream::new(&input, &mut output);

    assert_eq!(mz_inflate_init(&mut stream), MzStatus::StreamOk);
    assert_eq!(
        mz_inflate(&mut stream, MzFlush::Finish),
        MzStatus::DataError
    );
}

#[test]
fn c_style_stream_decodes_multiple_stored_blocks() {
    let input = stored_zlib_blocks(&[b"abc", b"def"]);
    let mut output = [0_u8; 6];
    let mut stream = MzStream::new(&input, &mut output);

    assert_eq!(mz_inflate_init(&mut stream), MzStatus::StreamOk);
    assert_eq!(
        mz_inflate(&mut stream, MzFlush::Finish),
        MzStatus::StreamEnd
    );

    drop(stream);
    assert_eq!(&output, b"abcdef");
}

#[test]
fn rust_native_inflate_all_returns_owned_output() {
    assert_eq!(inflate_all(b"stream bytes"), Ok(b"stream bytes".to_vec()));
}

#[test]
fn rust_native_inflater_uses_short_borrow_updates() {
    let mut inflater = Inflater::new();

    assert_eq!(
        inflater.update(b"abc"),
        Ok(InflateProgress {
            consumed: 3,
            total_out: 3,
        })
    );
    assert_eq!(
        inflater.update(b"def"),
        Ok(InflateProgress {
            consumed: 3,
            total_out: 6,
        })
    );
    assert_eq!(
        inflater.finish(),
        Ok(InflateOutcome {
            output: b"abcdef".to_vec(),
            consumed: 6,
            finished: true,
        })
    );
}

#[test]
fn rust_native_output_limit_is_an_error_value() {
    assert_eq!(
        inflate_with_output_limit(b"abcdef", 3),
        Err(InflateError::OutputLimitTooSmall {
            needed: 6,
            limit: 3,
        })
    );
}

#[test]
fn adler32_of_wikipedia_is_the_known_value() {
    assert_eq!(parsekit::miniz::compat::adler32(b"Wikipedia"), 0x11E6_0398);
    assert_eq!(parsekit::miniz::compat::adler32(b""), 1);
}

#[test]
fn stored_block_decoder_rejects_bad_header_and_length_check() {
    assert_eq!(decode_zlib_stored_blocks(&stored_zlib(b"xyz")), Ok(b"xyz".to_vec()));
    let mut bad_header = stored_zlib(b"xyz");
    bad_header[0] = 0x79;
    assert_eq!(decode_zlib_stored_blocks(&bad_header), Err(()));
    let mut bad_nlen = stored_zlib(b"xyz");
    bad_nlen[5] ^= 0xFF;
    assert_eq!(decode_zlib_stored_blocks(&bad_nlen), Err(()));
    assert_eq!(decode_zlib_stored_blocks(&[0x78]), Err(()));
}

#[test]
fn inflate_limit_accepts_exact_fit() {
    assert_eq!(inflate_with_output_limit(b"abc", 3), Ok(b"abc".to_vec()));
}
