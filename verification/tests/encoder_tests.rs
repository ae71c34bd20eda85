use yazi::{
    compress, decompress, Adler32, CompressionLevel, CompressionStrategy, Decoder, Encoder, Error,
    Format,
};

fn sample() -> Vec<u8> {
    let mut v = Vec::new();
    for i in 0..20000u32 {
        v.push((i % 251) as u8 ^ (i / 97) as u8);
    }
    v.extend_from_slice(&[7u8; 3000]);
    v.extend_from_slice(b"repeat repeat repeat repeat repeat");
    v
}

fn noise(n: usize) -> Vec<u8> {
    let mut x: u32 = 0x1234_5678;
    let mut v = Vec::with_capacity(n);
    for _ in 0..n {
        x ^= x << 13;
        x ^= x >> 17;
        x ^= x << 5;
        v.push((x >> 24) as u8);
    }
    v
}

fn all_levels() -> Vec<CompressionLevel> {
    vec![
        CompressionLevel::NoCompression,
        CompressionLevel::BestSpeed,
        CompressionLevel::Default,
        CompressionLevel::BestSize,
        CompressionLevel::Specific(3),
        CompressionLevel::Specific(10),
        CompressionLevel::Specific(200),
    ]
}

#[test]
fn one_shot_round_trip_all_levels() {
    let data = sample();
    for level in all_levels() {
        for format in [Format::Raw, Format::Zlib] {
            let c = compress(&data, format, level).unwrap();
            let (d, checksum) = decompress(&c, format).unwrap();
            assert_eq!(d, data);
            match format {
                Format::Raw => assert_eq!(checksum, None),
                Format::Zlib => assert_eq!(checksum, Some(Adler32::from_buf(&data).finish())),
            }
        }
    }
}

#[test]
fn empty_input_round_trip() {
    for level in all_levels() {
        let c = compress(&[], Format::Zlib, level).unwrap();
        let (d, checksum) = decompress(&c, Format::Zlib).unwrap();
        assert!(d.is_empty());
        assert_eq!(checksum, Some(1));
    }
}

#[test]
fn stored_output_exact() {
    let c = compress(&[], Format::Raw, CompressionLevel::NoCompression).unwrap();
    assert_eq!(c, vec![0x01, 0x00, 0x00, 0xFF, 0xFF]);
    let c = compress(b"ab", Format::Zlib, CompressionLevel::NoCompression).unwrap();
    assert_eq!(
        c,
        vec![0x78, 0x01, 0x01, 0x02, 0x00, 0xFD, 0xFF, b'a', b'b', 0x01, 0x26, 0x00, 0xC4]
    );
}

#[test]
fn fixed_code_output_exact() {
    // The same bytes zlib writes for a single "a" at its default level.
    let c = compress(b"a", Format::Zlib, CompressionLevel::Default).unwrap();
    assert_eq!(c, vec![0x78, 0x9C, 0x4B, 0x04, 0x00, 0x00, 0x62, 0x00, 0x62]);
}

#[test]
fn zlib_header_tracks_level() {
    let header = |level| {
        let c = compress(b"xyz", Format::Zlib, level).unwrap();
        (c[0], c[1])
    };
    assert_eq!(header(CompressionLevel::NoCompression), (0x78, 0x01));
    assert_eq!(header(CompressionLevel::BestSpeed), (0x78, 0x01));
    assert_eq!(header(CompressionLevel::Specific(4)), (0x78, 0x5E));
    assert_eq!(header(CompressionLevel::Default), (0x78, 0x9C));
    assert_eq!(header(CompressionLevel::BestSize), (0x78, 0xDA));
    for level in all_levels() {
        let (a, b) = header(level);
        assert_eq!((a as u32 * 256 + b as u32) % 31, 0);
    }
}

#[test]
fn repetitive_data_gets_smaller() {
    let data = vec![b'z'; 100_000];
    let c = compress(&data, Format::Raw, CompressionLevel::Default).unwrap();
    assert!(c.len() < data.len() / 50);
    assert_eq!(decompress(&c, Format::Raw).unwrap().0, data);
}

#[test]
fn noise_falls_back_to_stored_blocks() {
    let data = noise(70_000);
    let c = compress(&data, Format::Raw, CompressionLevel::Default).unwrap();
    // Two stored blocks: 70000 bytes and 2 * 5 header bytes.
    assert_eq!(c.len(), data.len() + 10);
    assert_eq!(decompress(&c, Format::Raw).unwrap().0, data);
}

#[test]
fn noise_of_one_full_block_is_never_longer_than_stored() {
    for &n in &[65_535usize, 65_536, 131_070] {
        let data = noise(n);
        let blocks = if n == 0 { 1 } else { (n - 1) / 65_535 + 1 };
        for level in all_levels() {
            let c = compress(&data, Format::Raw, level).unwrap();
            assert!(c.len() <= n + 5 * blocks);
            assert_eq!(decompress(&c, Format::Raw).unwrap().0, data);
        }
    }
}

#[test]
fn static_strategy_keeps_the_fixed_code() {
    let data = noise(5_000);
    let mut out = Vec::new();
    let mut encoder = Encoder::new();
    encoder.set_strategy(CompressionStrategy::Static);
    let mut stream = encoder.stream_into_vec(&mut out);
    stream.write(&data).unwrap();
    let n = stream.finish().unwrap();
    assert_eq!(n as usize, out.len());
    // Block header: last block, fixed code.
    assert_eq!(out[0] & 0x07, 0x03);
    assert_eq!(decompress(&out, Format::Raw).unwrap().0, data);
}

#[test]
fn rle_strategy_round_trip() {
    let data = sample();
    let mut out = Vec::new();
    let mut encoder = Encoder::boxed();
    encoder.set_strategy(CompressionStrategy::RLE);
    encoder.set_format(Format::Zlib);
    let mut stream = encoder.stream_into_vec(&mut out);
    for chunk in data.chunks(777) {
        stream.write(chunk).unwrap();
    }
    stream.finish().unwrap();
    let (d, checksum) = decompress(&out, Format::Zlib).unwrap();
    assert_eq!(d, data);
    assert_eq!(checksum.unwrap(), Adler32::from_buf(&data).finish());
}

#[test]
fn long_stored_input_uses_several_blocks() {
    let data = noise(200_000);
    let c = compress(&data, Format::Zlib, CompressionLevel::NoCompression).unwrap();
    // 2 header bytes, 4 blocks of 5 header bytes each, 4 footer bytes.
    assert_eq!(c.len(), data.len() + 2 + 4 * 5 + 4);
    assert_eq!(decompress(&c, Format::Zlib).unwrap().0, data);
}

#[test]
fn streams_append_to_existing_output() {
    let mut out = vec![9u8, 9, 9];
    let mut encoder = Encoder::default();
    let mut stream = encoder.stream_into_vec(&mut out);
    stream.write(b"hello hello hello").unwrap();
    let n = stream.finish().unwrap();
    assert_eq!(out.len(), 3 + n as usize);
    assert_eq!(&out[..3], &[9, 9, 9]);
    let mut plain = vec![1u8];
    let mut decoder = Decoder::default();
    let mut stream = decoder.stream_into_vec(&mut plain);
    stream.write(&out[3..]).unwrap();
    let (m, checksum) = stream.finish().unwrap();
    assert_eq!(m, 17);
    assert_eq!(checksum, None);
    assert_eq!(plain, b"\x01hello hello hello");
}

#[test]
fn failed_decode_leaves_output_alone() {
    let mut plain = vec![5u8, 6];
    let mut decoder = Decoder::new();
    decoder.set_format(Format::Zlib);
    let mut stream = decoder.stream_into_vec(&mut plain);
    stream.write(&[0x78, 0x9C, 0x4B]).unwrap();
    assert!(matches!(stream.finish(), Err(Error::Underflow)));
    assert_eq!(plain, vec![5u8, 6]);
}

fn words() -> Vec<u8> {
    let words: [&[u8]; 8] = [
        b"alpha", b"beta", b"gamma", b"delta", b"epsilon", b"zeta", b"eta", b"theta",
    ];
    let mut t = Vec::new();
    for i in 0..3000usize {
        if i > 0 {
            t.push(b' ');
        }
        t.extend_from_slice(words[(i * i + 3 * i + i / 7) % 8]);
    }
    t
}

#[test]
fn skewed_data_gets_a_dynamic_block() {
    let data = words();
    let dynamic = compress(&data, Format::Raw, CompressionLevel::Default).unwrap();
    // Block header: last block, dynamic code.
    assert_eq!(dynamic[0] & 0x07, 0x05);
    let mut fixed = Vec::new();
    let mut encoder = Encoder::new();
    encoder.set_strategy(CompressionStrategy::Static);
    let mut stream = encoder.stream_into_vec(&mut fixed);
    stream.write(&data).unwrap();
    stream.finish().unwrap();
    assert_eq!(fixed[0] & 0x07, 0x03);
    assert!(dynamic.len() < fixed.len());
    assert_eq!(decompress(&dynamic, Format::Raw).unwrap().0, data);
    assert_eq!(decompress(&fixed, Format::Raw).unwrap().0, data);
}

#[test]
fn literal_only_data_round_trips_with_a_dynamic_block() {
    // Few distinct bytes, no repeats of three: only literals, skewed.
    let mut data = Vec::new();
    let mut x: u32 = 1;
    for _ in 0..5000 {
        x = x.wrapping_mul(1103515245).wrapping_add(12345);
        let r = (x >> 16) % 16;
        data.push(if r < 12 { b'a' + (r % 2) as u8 } else { b'c' + (r % 3) as u8 });
    }
    for level in all_levels() {
        let c = compress(&data, Format::Zlib, level).unwrap();
        let (d, checksum) = decompress(&c, Format::Zlib).unwrap();
        assert_eq!(d, data);
        assert_eq!(checksum, Some(Adler32::from_buf(&data).finish()));
    }
}

#[test]
fn higher_levels_are_not_larger() {
    let data = words();
    let size = |level| compress(&data, Format::Raw, level).unwrap().len();
    let fast = size(CompressionLevel::BestSpeed);
    let default = size(CompressionLevel::Default);
    let best = size(CompressionLevel::BestSize);
    assert!(default <= fast);
    assert!(best <= default);
    assert!(best < data.len() / 4);
}

#[test]
fn tiny_inputs_round_trip_at_every_level() {
    let inputs: Vec<Vec<u8>> = vec![
        vec![],
        vec![b'a'],
        vec![b'a', b'b'],
        vec![0u8; 3],
        vec![255u8, 0, 255, 0, 255, 0],
        (0..=255u8).collect(),
    ];
    for data in &inputs {
        for level in all_levels() {
            for format in [Format::Raw, Format::Zlib] {
                let c = compress(data, format, level).unwrap();
                let (d, sum) = decompress(&c, format).unwrap();
                assert_eq!(&d, data);
                assert_eq!(sum.is_some(), format == Format::Zlib);
            }
        }
    }
}

#[test]
fn static_strategy_compresses_repetitive_data() {
    let data = vec![b'q'; 10_000];
    let mut out = Vec::new();
    let mut encoder = Encoder::new();
    encoder.set_strategy(CompressionStrategy::Static);
    let mut stream = encoder.stream_into_vec(&mut out);
    stream.write(&data).unwrap();
    stream.finish().unwrap();
    assert!(out.len() < 200);
    assert_eq!(decompress(&out, Format::Raw).unwrap().0, data);
}
