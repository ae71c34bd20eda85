use yazi::{compress, decompress, CompressionLevel, Decoder, Encoder, Error, Format};

fn text() -> Vec<u8> {
    let mut v = Vec::new();
    for i in 0..300u32 {
        v.extend_from_slice(b"the quick brown fox ");
        v.push((i % 26) as u8 + b'a');
    }
    v
}

#[test]
fn encoder_into_buffer_fits() {
    let data = text();
    let mut buf = vec![0xAAu8; 8192];
    let mut encoder = Encoder::new();
    encoder.set_format(Format::Zlib);
    let mut stream = encoder.stream_into_buf(&mut buf);
    stream.write(&data[..1000]).unwrap();
    stream.write(&data[1000..]).unwrap();
    let n = stream.finish().unwrap() as usize;
    assert!(n > 0 && n < data.len());
    assert!(buf[n..].iter().all(|&b| b == 0xAA));
    let (out, sum) = decompress(&buf[..n], Format::Zlib).unwrap();
    assert_eq!(out, data);
    assert!(sum.is_some());
}

#[test]
fn encoder_into_buffer_overflow() {
    let data = text();
    let mut buf = [0x55u8; 4];
    let mut encoder = Encoder::new();
    let mut stream = encoder.stream_into_buf(&mut buf);
    stream.write(&data).unwrap();
    match stream.finish() {
        Err(Error::Overflow) => {}
        other => panic!("expected overflow, got {:?}", other),
    }
    assert_eq!(buf, [0x55u8; 4]);
}

#[test]
fn encoder_into_vec_appends() {
    let data = text();
    let mut out = vec![1u8, 2, 3];
    let mut encoder = Encoder::new();
    let mut stream = encoder.stream_into_vec(&mut out);
    stream.write(&data).unwrap();
    let n = stream.finish().unwrap() as usize;
    assert_eq!(out.len(), n + 3);
    assert_eq!(&out[..3], &[1u8, 2, 3]);
    let (back, _) = decompress(&out[3..], Format::Raw).unwrap();
    assert_eq!(back, data);
}

#[test]
fn decoder_into_buffer_fits() {
    let data = text();
    let packed = compress(&data, Format::Raw, CompressionLevel::Default).unwrap();
    let mut buf = vec![0xEEu8; data.len() + 10];
    let mut decoder = Decoder::new();
    let mut stream = decoder.stream_into_buf(&mut buf);
    stream.write(&packed).unwrap();
    let (n, sum) = stream.finish().unwrap();
    assert_eq!(n as usize, data.len());
    assert_eq!(sum, None);
    assert_eq!(&buf[..data.len()], &data[..]);
    assert_eq!(&buf[data.len()..], &[0xEEu8; 10]);
}

#[test]
fn decoder_into_buffer_exact_size() {
    let data = b"hello, hello, hello".to_vec();
    let packed = compress(&data, Format::Zlib, CompressionLevel::BestSize).unwrap();
    let mut buf = vec![0u8; data.len()];
    let mut decoder = Decoder::new();
    decoder.set_format(Format::Zlib);
    let mut stream = decoder.stream_into_buf(&mut buf);
    stream.write(&packed).unwrap();
    let (n, sum) = stream.finish().unwrap();
    assert_eq!(n as usize, data.len());
    assert_eq!(buf, data);
    assert!(sum.is_some());
}

#[test]
fn decoder_into_buffer_overflow() {
    let data = text();
    let packed = compress(&data, Format::Raw, CompressionLevel::Default).unwrap();
    let mut buf = vec![7u8; data.len() - 1];
    let mut decoder = Decoder::new();
    let mut stream = decoder.stream_into_buf(&mut buf);
    stream.write(&packed).unwrap();
    match stream.finish() {
        Err(Error::Overflow) => {}
        other => panic!("expected overflow, got {:?}", other),
    }
    assert!(buf.iter().all(|&b| b == 7));
}

#[test]
fn decoder_into_buffer_bad_stream_leaves_buffer() {
    let mut buf = [9u8; 16];
    let mut decoder = Decoder::new();
    let mut stream = decoder.stream_into_buf(&mut buf);
    assert!(matches!(stream.write(&[0xFF, 0xFF]), Err(Error::InvalidBitstream)));
    assert!(matches!(stream.finish(), Err(Error::InvalidBitstream)));
    assert_eq!(buf, [9u8; 16]);
}

#[test]
fn decoder_refuses_writes_after_the_end() {
    let data = b"complete stream".to_vec();
    let packed = compress(&data, Format::Zlib, CompressionLevel::Default).unwrap();
    let mut out = Vec::new();
    let mut decoder = Decoder::new();
    decoder.set_format(Format::Zlib);
    let mut stream = decoder.stream_into_vec(&mut out);
    stream.write(&packed[..packed.len() - 1]).unwrap();
    stream.write(&packed[packed.len() - 1..]).unwrap();
    assert!(matches!(stream.write(&[1, 2, 3]), Err(Error::Finished)));
    let (n, sum) = stream.finish().unwrap();
    assert_eq!(n as usize, data.len());
    assert!(sum.is_some());
    assert_eq!(out, data);
}

#[test]
fn decoder_reports_a_corrupt_stream_at_write() {
    let mut out = Vec::new();
    let mut decoder = Decoder::new();
    decoder.set_format(Format::Zlib);
    let mut stream = decoder.stream_into_vec(&mut out);
    // A header that names no DEFLATE method.
    assert!(matches!(stream.write(&[0x77, 0x01, 0x00]), Err(Error::InvalidBitstream)));
    assert!(matches!(stream.finish(), Err(Error::InvalidBitstream)));
    assert!(out.is_empty());
}

#[test]
fn decoder_waits_for_more_input_without_error() {
    let data = b"waiting for the rest".to_vec();
    let packed = compress(&data, Format::Raw, CompressionLevel::BestSize).unwrap();
    let mut out = Vec::new();
    let mut decoder = Decoder::new();
    let mut stream = decoder.stream_into_vec(&mut out);
    for chunk in packed.chunks(3) {
        stream.write(chunk).unwrap();
    }
    stream.finish().unwrap();
    assert_eq!(out, data);
}

#[test]
fn encoder_output_is_the_same_however_written() {
    let data = text();
    for level in [CompressionLevel::BestSpeed, CompressionLevel::Default, CompressionLevel::BestSize] {
        let whole = compress(&data, Format::Zlib, level).unwrap();
        let mut pieces = Vec::new();
        let mut encoder = Encoder::new();
        encoder.set_format(Format::Zlib);
        encoder.set_level(level);
        let mut stream = encoder.stream_into_vec(&mut pieces);
        for chunk in data.chunks(7) {
            stream.write(chunk).unwrap();
        }
        stream.finish().unwrap();
        assert_eq!(pieces, whole);
        assert_eq!(compress(&data, Format::Zlib, level).unwrap(), whole);
    }
}

#[test]
fn encoder_buffer_of_exactly_the_output_length() {
    let data = text();
    let expected = compress(&data, Format::Raw, CompressionLevel::Default).unwrap();
    let mut buf = vec![0u8; expected.len()];
    let mut encoder = Encoder::new();
    let mut stream = encoder.stream_into_buf(&mut buf);
    stream.write(&data).unwrap();
    assert_eq!(stream.finish().unwrap() as usize, expected.len());
    assert_eq!(buf, expected);

    let mut short = vec![0u8; expected.len() - 1];
    let mut stream = encoder.stream_into_buf(&mut short);
    stream.write(&data).unwrap();
    assert!(matches!(stream.finish(), Err(Error::Overflow)));
    assert!(short.iter().all(|&b| b == 0));
}
