use yazi::{compress, decompress, Adler32, CompressionLevel, Decoder, Encoder, Error, Format};

#[test]
fn quick_start_zlib_round_trip() {
    let data = &(0..=255u8).cycle().take(8192).collect::<Vec<u8>>()[..];
    let compressed = compress(data, Format::Zlib, CompressionLevel::Default).unwrap();
    let (decompressed, checksum) = decompress(&compressed, Format::Zlib).unwrap();
    assert_eq!(Adler32::from_buf(&decompressed).finish(), checksum.unwrap());
    assert_eq!(&decompressed[..], data);
}

fn compress_bytes(buf: &[u8]) -> Result<Vec<u8>, Error> {
    let mut encoder = Encoder::boxed();
    let mut vec = Vec::new();
    let mut stream = encoder.stream_into_vec(&mut vec);
    stream.write(buf)?;
    stream.finish()?;
    Ok(vec)
}

fn decompress_zlib(buf: &[u8]) -> Result<Vec<u8>, Error> {
    let mut decoder = Decoder::new();
    decoder.set_format(Format::Zlib);
    let mut vec = Vec::new();
    let mut stream = decoder.stream_into_vec(&mut vec);
    stream.write(buf)?;
    let (_, checksum) = stream.finish()?;
    if Adler32::from_buf(&vec).finish() != checksum.unwrap() {
        return Err(Error::InvalidBitstream);
    }
    Ok(vec)
}

#[test]
fn documented_stream_helpers() {
    let data = b"documented helpers compress and decompress documented helpers".to_vec();
    let raw = compress_bytes(&data).unwrap();
    let (back, sum) = decompress(&raw, Format::Raw).unwrap();
    assert_eq!(back, data);
    assert_eq!(sum, None);
    let zlib = compress(&data, Format::Zlib, CompressionLevel::BestSpeed).unwrap();
    assert_eq!(decompress_zlib(&zlib).unwrap(), data);
}

#[test]
fn corrupted_footer_is_caught_by_the_checksum() {
    let data = b"checksum guarded payload".to_vec();
    let mut zlib = compress(&data, Format::Zlib, CompressionLevel::Default).unwrap();
    let last = zlib.len() - 1;
    zlib[last] ^= 1;
    assert!(matches!(decompress_zlib(&zlib), Err(Error::InvalidBitstream)));
}
