use yazi::{Adler32, CompressionLevel, CompressionStrategy, Decoder, Encoder, Format};

fn generate_bytes() -> Vec<u8> {
    const BYTES: &[u8; 26] = b"abcdefghijklmnopqrstuvwxyz";
    let mut buf = Vec::new();
    for i in 0..4096 {
        if i % 3 == 0 {
            buf.extend_from_slice(&BYTES[13..]);
        } else if i & 1 != 0 {
            buf.extend_from_slice(BYTES);
        } else {
            buf.extend(BYTES.iter().rev());
        }
    }
    buf
}

#[test]
fn compress_decompress() {
    let buf = generate_bytes();
    let mut compressed = Vec::new();
    let mut encoder = Encoder::boxed();
    let mut stream = encoder.stream_into_vec(&mut compressed);
    stream.write(&buf).unwrap();
    stream.finish().unwrap();
    let mut decompressed = Vec::new();
    let mut decoder = Decoder::new();
    let mut stream = decoder.stream_into_vec(&mut decompressed);
    stream.write(&compressed).unwrap();
    stream.finish().unwrap();
    assert_eq!(buf, decompressed);
}

#[test]
fn compress_decompress_zlib() {
    let buf = generate_bytes();
    let mut compressed = Vec::new();
    let mut encoder = Encoder::boxed();
    encoder.set_format(Format::Zlib);
    let mut stream = encoder.stream_into_vec(&mut compressed);
    stream.write(&buf).unwrap();
    stream.finish().unwrap();
    let mut decompressed = Vec::new();
    let mut decoder = Decoder::new();
    decoder.set_format(Format::Zlib);
    let mut stream = decoder.stream_into_vec(&mut decompressed);
    stream.write(&compressed).unwrap();
    let (_, checksum) = stream.finish().unwrap();
    assert_eq!(buf, decompressed);
    let mut adler = Adler32::new();
    adler.update(&decompressed);
    assert_eq!(adler.finish(), checksum.unwrap());
}

#[test]
fn compress_decompress_static() {
    let buf = generate_bytes();
    let mut compressed = Vec::new();
    let mut encoder = Encoder::boxed();
    encoder.set_strategy(CompressionStrategy::Static);
    let mut stream = encoder.stream_into_vec(&mut compressed);
    stream.write(&buf).unwrap();
    stream.finish().unwrap();
    let mut decompressed = Vec::new();
    let mut decoder = Decoder::new();
    let mut stream = decoder.stream_into_vec(&mut decompressed);
    stream.write(&compressed).unwrap();
    stream.finish().unwrap();
    assert_eq!(buf, decompressed);
}

#[test]
fn compress_decompress_raw() {
    let buf = generate_bytes();
    let mut compressed = Vec::new();
    let mut encoder = Encoder::boxed();
    encoder.set_level(CompressionLevel::NoCompression);
    let mut stream = encoder.stream_into_vec(&mut compressed);
    stream.write(&buf).unwrap();
    stream.finish().unwrap();
    let mut decompressed = Vec::new();
    let mut decoder = Decoder::new();
    let mut stream = decoder.stream_into_vec(&mut decompressed);
    stream.write(&compressed).unwrap();
    stream.finish().unwrap();
    assert_eq!(buf, decompressed);
}

#[test]
fn compress_decompress_streaming_1byte() {
    let buf = generate_bytes();
    let mut compressed = Vec::new();
    let mut encoder = Encoder::boxed();
    let mut stream = encoder.stream_into_vec(&mut compressed);
    for &b in &buf {
        stream.write(&[b]).unwrap();
    }
    stream.finish().unwrap();
    let mut decompressed = Vec::new();
    let mut decoder = Decoder::new();
    let mut stream = decoder.stream_into_vec(&mut decompressed);
    for &b in &compressed {
        stream.write(&[b]).unwrap();
    }
    stream.finish().unwrap();
    assert_eq!(buf, decompressed);
}

#[test]
fn compress_decompress_streaming_64bytes() {
    let buf = generate_bytes();
    let mut compressed = Vec::new();
    let mut encoder = Encoder::boxed();
    let mut stream = encoder.stream_into_vec(&mut compressed);
    for chunk in buf.chunks(64) {
        stream.write(chunk).unwrap();
    }
    stream.finish().unwrap();
    let mut decompressed = Vec::new();
    let mut decoder = Decoder::new();
    let mut stream = decoder.stream_into_vec(&mut decompressed);
    for chunk in compressed.chunks(64) {
        stream.write(chunk).unwrap();
    }
    stream.finish().unwrap();
    assert_eq!(buf, decompressed);
}
