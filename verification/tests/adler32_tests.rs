use yazi::adler32::{ADLER_MOD, CHUNK_LEN};
use yazi::{Adler32, Error, Format};

/// A plain two-sum computation with wide integers, reducing only at the end.
fn reference_checksum(data: &[u8]) -> u32 {
    let mut a: u64 = 1;
    let mut b: u64 = 0;
    for &byte in data {
        a += byte as u64;
        b += a;
    }
    (((b % 65521) << 16) | (a % 65521)) as u32
}

fn generate_bytes() -> Vec<u8> {
    const BYTES: &[u8; 26] = b"abcdefghijklmnopqrstuvwxyz";
    let mut buf = Vec::new();
    for i in 0..4096 {
        if i % 3 == 0 {
            buf.extend_from_slice(&BYTES[13..]);
        } else if i & 1 != 0 {
            buf.extend_from_slice(BYTES);
        } else {
            buf.extend(BYTES.iter().rev());
        }
    }
    buf
}

#[test]
fn new_checksum_is_one() {
    assert_eq!(Adler32::new().finish(), 1);
    assert_eq!(Adler32::default().finish(), 1);
    assert_eq!(Adler32::from_buf(&[]).finish(), 1);
}

#[test]
fn known_values() {
    assert_eq!(Adler32::from_buf(b"Wikipedia").finish(), 0x11E6_0398);
    assert_eq!(Adler32::from_buf(b"abc").finish(), 0x024D_0127);
    assert_eq!(Adler32::from_buf(b"a").finish(), 0x0062_0062);
}

#[test]
fn update_empty_keeps_state() {
    let mut adler = Adler32::from_buf(b"hello");
    let before = adler.finish();
    adler.update(&[]);
    assert_eq!(adler.finish(), before);
}

#[test]
fn from_buf_matches_new_then_update() {
    let buf = generate_bytes();
    let mut adler = Adler32::new();
    adler.update(&buf);
    assert_eq!(adler.finish(), Adler32::from_buf(&buf).finish());
}

#[test]
fn split_updates_match_one_update() {
    let buf = generate_bytes();
    let whole = Adler32::from_buf(&buf).finish();
    for split in [0usize, 1, 63, 5549, 5550, 5551, 20000, buf.len()] {
        let mut adler = Adler32::new();
        adler.update(&buf[..split]);
        adler.update(&buf[split..]);
        assert_eq!(adler.finish(), whole);
    }
    let mut bytewise = Adler32::new();
    for &b in &buf {
        bytewise.update(&[b]);
    }
    assert_eq!(bytewise.finish(), whole);
    let mut chunked = Adler32::new();
    for chunk in buf.chunks(64) {
        chunked.update(chunk);
    }
    assert_eq!(chunked.finish(), whole);
}

#[test]
fn matches_reference_on_generated_bytes() {
    let buf = generate_bytes();
    assert_eq!(Adler32::from_buf(&buf).finish(), reference_checksum(&buf));
}

#[test]
fn worst_case_bytes_across_chunks() {
    let buf = vec![0xFFu8; 3 * CHUNK_LEN + 17];
    let sum = Adler32::from_buf(&buf).finish();
    assert_eq!(sum, reference_checksum(&buf));
    assert!(sum & 0xFFFF < ADLER_MOD);
    assert!(sum >> 16 < ADLER_MOD);
}

#[test]
fn closed_form_matches() {
    // A = 1 + sum of bytes, B = n*D1 + (n-1)*D2 + ... + Dn + n, modulo 65521.
    let data: Vec<u8> = (0..1000u32).map(|i| (i * 7 % 256) as u8).collect();
    let n = data.len() as u64;
    let a = 1 + data.iter().map(|&d| d as u64).sum::<u64>();
    let b = n + data
        .iter()
        .enumerate()
        .map(|(i, &d)| (n - i as u64) * d as u64)
        .sum::<u64>();
    let expected = (((b % 65521) << 16) | (a % 65521)) as u32;
    assert_eq!(Adler32::from_buf(&data).finish(), expected);
}

#[test]
fn copies_are_independent() {
    let mut a = Adler32::from_buf(b"abc");
    let b = a;
    a.update(b"def");
    assert_eq!(b.finish(), 0x024D_0127);
    assert_eq!(a.finish(), Adler32::from_buf(b"abcdef").finish());
}

#[test]
fn io_error_converts_to_io_variant() {
    let err: Error = std::io::Error::new(std::io::ErrorKind::Other, "boom").into();
    assert!(matches!(err, Error::Io(_)));
    let err = Error::from(std::io::Error::new(std::io::ErrorKind::UnexpectedEof, "eof"));
    match err {
        Error::Io(inner) => assert_eq!(inner.kind(), std::io::ErrorKind::UnexpectedEof),
        _ => panic!("expected Error::Io"),
    }
}

#[test]
fn format_equality() {
    assert_eq!(Format::Raw, Format::Raw);
    assert_ne!(Format::Raw, Format::Zlib);
    let f = Format::Zlib;
    let g = f;
    assert_eq!(f, g);
}
