use yazi::{decompress, Adler32, Decoder, Error, Format};

fn from_hex(parts: &[&str]) -> Vec<u8> {
    let s: String = parts.concat();
    (0..s.len())
        .step_by(2)
        .map(|i| u8::from_str_radix(&s[i..i + 2], 16).unwrap())
        .collect()
}

fn fox_data() -> Vec<u8> {
    let mut d = Vec::new();
    for _ in 0..4 {
        d.extend(0u8..=255);
    }
    for _ in 0..50 {
        d.extend_from_slice(b"the quick brown fox jumps over the lazy dog ");
    }
    d
}

fn word_data() -> Vec<u8> {
    let words: [&[u8]; 8] = [
        b"alpha", b"beta", b"gamma", b"delta", b"epsilon", b"zeta", b"eta", b"theta",
    ];
    let mut t = Vec::new();
    for i in 0..600usize {
        if i > 0 {
            t.push(b' ');
        }
        t.extend_from_slice(words[(i * i + 3 * i) % 8]);
    }
    t
}

/// zlib stream of "hello" (one block with the fixed code).
const HELLO_ZLIB: &[&str] = &["789ccb48cdc9c90700062c0215"];

/// zlib stream of `fox_data()` at level 9 (one block with the fixed code).
const FOX_ZLIB: &[&str] = &[
    "78da6360646266616563e7e0e4e2e6e1e5e3171014121611151397909492969195935750545256515553d7d0d4d2d6d1",
    "d5d33730343236313533b7b0b4b2b6b1b5b37770747276717573f7f0f4f2f6f1f5f30f080c0a0e090d0b8f888c8a8e89",
    "8d8b4f484c4a4e494d4bcfc8cccacec9cdcb2f282c2a2e292d2bafa8acaaaea9adab6f686c6a6e696d6befe8eceaeee9",
    "edeb9f3071d2e42953a74d9f3173d6ec3973e7cd5fb070d1e2254b972d5fb172d5ea356bd7addfb071d3e62d5bb76ddf",
    "b173d7ee3d7bf7ed3f70f0d0e123478f1d3f71f2d4e93367cf9dbf70f1d2e52b57af5dbf71f3d6ed3b77efdd7ff0f0d1",
    "e3274f9f3d7ff1f2d5eb376fdfbdfff0f1d3e72f5fbf7dfff1f3d7ef3f7ffffd6718f5ffa8ff47b0ff4b3252150a4b33",
    "93b315928af2cbf314d2f22b14b24a730b8a15f2cb528b1440d2398955950a29f9e90aa36a47d58eaa1d553baa7654ed",
    "a8da51b5b4540b00f00d232e",
];

/// Raw DEFLATE stream of `fox_data()` at level 6.
const FOX_RAW: &[&str] = &[
    "6360646266616563e7e0e4e2e6e1e5e3171014121611151397909492969195935750545256515553d7d0d4d2d6d1d5d3",
    "3730343236313533b7b0b4b2b6b1b5b37770747276717573f7f0f4f2f6f1f5f30f080c0a0e090d0b8f888c8a8e898d8b",
    "4f484c4a4e494d4bcfc8cccacec9cdcb2f282c2a2e292d2bafa8acaaaea9adab6f686c6a6e696d6befe8eceaeee9edeb",
    "9f3071d2e42953a74d9f3173d6ec3973e7cd5fb070d1e2254b972d5fb172d5ea356bd7addfb071d3e62d5bb76ddfb173",
    "d7ee3d7bf7ed3f70f0d0e123478f1d3f71f2d4e93367cf9dbf70f1d2e52b57af5dbf71f3d6ed3b77efdd7ff0f0d1e327",
    "4f9f3d7ff1f2d5eb376fdfbdfff0f1d3e72f5fbf7dfff1f3d7ef3f7ffffd6718f5ffa8ff47b0ff4b3252150a4b3393b3",
    "15928af2cbf314d2f22b14b24a730b8a15f2cb528b1440d2398955950a29f9e90aa36a47d58eaa1d553baa7654eda8da",
    "51b5b4540b00",
];

/// zlib stream of `word_data()` at level 9 (a block with a dynamic code).
const WORDS_ZLIB: &[&str] = &[
    "78daedcab10900201004c1566ced0251e1d507ed1f83d7266483dbe0189957a5ecabd91ca9a877ddbe4f21764c783c1e",
    "8fc7e3f1783c1e8fffc11fe4991eea",
];

/// zlib stream of 1000 bytes, 40000 zeros and the same 1000 bytes, at level 9
/// (dynamic code); the data's checksum is 0x8efbd922.
const RUNS_ZLIB: &[&str] = &[
    "78daedd1f93b14081f00f0c13a269ac8d52033e41e4665902d723daecc0a49bb8e6290ab308f8647ee306b5ab7e45886",
    "f5b86ac79127cbc8b1918c61a7644c8eb43c83624ddbc8910ceffef4fe15dfcfbff069208e9dd03ddd7bf296a2f1c2f4",
    "a9bbf819cd8b640c1b1da7ea583aed7aa1da9f70a3ff0c5633e260b656f0a1a722cd3fd9b042d4b65ca27b61fa4a1b71",
    "8fa7a45fdbda79f0f194294da885a9e117bde890fde7e9d5f3fb9a3125f6a9ecd103439fe5897ca7f9fca93f9e538846",
    "3f11290952bb013985e26ed37df5b6ea1f47d9e32cf3ed094c9076e4a2f7b95635028268c63caa1339e89ed1c114da9c",
    "ff2ad8daa1e35c096dd42d2fd9889e4b47cbf1d9bd3e5de466322969223e6cbf0b852af89c456ae73f611ac612e2ff0d",
    "f93d7c07b1d58eb31e09fbe2b7f0c8786c6302e7e96b87220adc849d1e0e47a409ce0ba468547af483bb8d59d30e98a7",
    "6b3c7b22723140dcfd9a8bd01ad3b86371322d284ff9ec2a0abbd41896b7fa2535ebe6b213d76674a94ef7ee9c6e7495",
    "8d47af6b86d3a7d8d3ecafde64aff9bf18bc90ae7ad35e24636d1139dcf2106b75c71c47bdafe44fb37f9bc571173599",
    "e49f0c98d1cd9531c9368ad3a6da7c90647073ed5592ce79e5a0fd6fd27f8d28e5fbd13a90e9c7a591419b297c8b7722",
    "56f5ed3b6da1ce9c0e757b699dcc796f0ddc50617299ea7ae0e55cbe580eb3b92145a126a62b00f178c868333f2c4d1c",
    "4f35711d5766c9565425e03c5e368adc8bdc54e69c65eee08e293b769b0faea291297b54b1ff82b484197ad4c408cafa",
    "fe90fe56896aa8fea596cc2a47a96dcc6eeed998bdd2e20d81e042181d2794295dd35fc91d898ad2c3bbe4743b145831",
    "2907bb2c394fb16f2b9c4a176efb609d750ba291c1b60e912acde8d762bdd4ef9efbe5440141add83dede7f775410373",
    "a8f17043f4e48a53f12edacef7f3545b6179663627a9728765ede3a5177910bbfa6865d6393819ff631bbe3ee959d6cd",
    "236f86df440dd21898c3fc6edbdba6b4b4e171fe3bbaac9dfc8c700fa13bfa6939cd92ec41b45cc329216c1314abecd2",
    "df5b9dd5a9081ec92623242bd7f3eb923713535193d51ab2a4439ee1bdf899bef87d0506af672c54e2817684288c4ea2",
    "08e2a80f2d45d7c9bb5c0d3796fa2d39972935cd40d64aad95c195e6a0c04ff2f43f075a96ae5a8a19141876f22e463e",
    "efaa79678c1686f4f3831b98c26393a91ca541850d2ce61e09cbe8b9ff5825e7b7bc72312db9048b4dc18bf4f97d8783",
    "80efaa88894df5eb3d06a1a39ea9afb414b61bbd66cd75a8b8c833bc43feb50447ee7aa24d5959416e7f6676e8dfa9d7",
    "53127f28bcd1a435969e4231db384e10dfa42c0f28952558a383487afd7ecbd912169d318acf5a5d54c23315c3259b5e",
    "f707d2f5c3e5453bd85766631e786f36ed755135578dde35c54532434639e1120b97df7e8fe730d7bdeda5d55cd8267d",
    "be6e4f8abc7cb52d87bf8556daaaecd4a98f200000000000000000000000000000000000000000000000000000000000",
    "000000000000000000000000000000000000000000000000000000000000000000000000000000000000000000000000",
    "0000000000000000000000000000000000000000ffd7401c3ba17bbaf7e42d45e385e95377f1339a17c918363a4ed5b1",
    "74daf542b53fe146ff19ac66c4c16cade0434f459a7fb26185a86db944f7c2f49536e21e4f49bfb6b5f3e0e329539a50",
    "0b53c32f7ad121fbcfd3abe7f735634aec53d9a307863ecb13f94ef3f9537f3ca7108d7e225212a47603720ac5dda6fb",
    "ea6dd53f8eb2c759e6db139820edc845ef73ad6a0404d18c79542772d03da38329b439ff55b0b543c7b912daa85b5eb2",
    "113d978e96e3b37b7dbac8cd6452d2447cd87e170a55f0398bd4ce7fc2348c25c4ff1bf27bf80e62ab1d673d12f6c56f",
    "e191f1d8c604ced3d70e4514b8093b3d1c8e48139c1748d1a8f4e807771bb3a61d304fd778f644e46280b8fb3517a135",
    "a671c7e2645a509ef2d9551476a9312c6ff54b6ad6cd6527aecde8529deedd39dde82a1b8f5ed70ca74fb1a7d95fbdc9",
    "5ef37f3178215df5a6bd48c6da2272b8e521d6ea8e398e7a5fc99f66ff368be32e6a32c93f1930a39b2b63926d14a74d",
    "b5f920c9e0e6daab249df3ca41fbdfa4ff1a51caf7a37520d38f4b23833653f816ef44aceadb77da429d391deaf6d23a",
    "99f3de1ab8a1c2e432d5f5c0cbb97cb11c6673438a424d4c5700e2f190d1667e589a389e6ae23aaecc92ada84ac079bc",
    "6c14b917b9a9cc39cbdcc11d5376ec361f5c452353f6a862ff05690933f4a8891194f5fd21fdad12d550fd4b2d99558e",
    "52db98dddcb3317ba5c51b02c185303a4e2853baa6bf923b1215a58777c9e97628b062520e7659729e62df5638952edc",
    "f6c13aeb164423836d1d22559ad1afc57aa9df3df7cb8902825ab17bdacfefeb8206e650e3e186e8c915a7e25db49def",
    "e7a9b6c2f2cc6c4e52e50ecbdac74b2ff22076f5d1caac737032fec7367c7dd2b3ac9b47de0cbf891aa4313087f9ddb6",
    "b74d6969c3e3fc7774593bf919e11e4277f4d3729a25d98368b9865342d8262856d9a5bfb73aab53113c924d464856ae",
    "e7d7256f26a6a226ab356449873cc37bf1337df1fb0a0c5ecf58a8c403ed0851189d4411c4511f5a8aae9377b91a6e2c",
    "f55b722e536a9a81ac955a2b832bcd41819fe4e97f0eb42c5db514332830ece45d8c7cde55f3ce182d0ce9e707373085",
    "c72653394a830a1b58cc3d1296d173ffb14ace6f79e5625a7209169b8217e9f3fb0e0701df5511139bead77b0c42473d",
    "535f69296c377acd9aeb507191677887fc6b098edcf5449bb2b282dcfeccecd0bf53afa724fe5078a3496b2c3d8562b6",
    "719c20be49591e502a4bb0460791f4fafd96b3252c3a63149fb5baa884672a864b36bdee0fa4eb87cb8b76b0afccc63c",
    "f0de6cdaeba26aae1abd6b8a8b64868c72c225162ebffd1ecf61ae7bdb4babb9b04dfa7cdd9e1479f96a5b0e7f0badb4",
    "55d9a9531ff91f8efbd922",
];

fn decode_stream(input: &[u8], format: Format) -> Result<(Vec<u8>, Option<u32>), Error> {
    let mut out = Vec::new();
    let mut decoder = Decoder::new();
    decoder.set_format(format);
    let mut stream = decoder.stream_into_vec(&mut out);
    stream.write(input)?;
    let (n, checksum) = stream.finish()?;
    assert_eq!(n as usize, out.len());
    Ok((out, checksum))
}

#[test]
fn decodes_fixed_code_hello() {
    let (out, checksum) = decompress(&from_hex(HELLO_ZLIB), Format::Zlib).unwrap();
    assert_eq!(out, b"hello");
    assert_eq!(checksum, Some(0x062C_0215));
    assert_eq!(Adler32::from_buf(&out).finish(), 0x062C_0215);
}

#[test]
fn decodes_fixed_code_with_matches() {
    let (out, checksum) = decode_stream(&from_hex(FOX_ZLIB), Format::Zlib).unwrap();
    assert_eq!(out, fox_data());
    assert_eq!(checksum.unwrap(), Adler32::from_buf(&out).finish());
}

#[test]
fn decodes_raw_stream() {
    let (out, checksum) = decompress(&from_hex(FOX_RAW), Format::Raw).unwrap();
    assert_eq!(out, fox_data());
    assert_eq!(checksum, None);
}

#[test]
fn decodes_dynamic_code() {
    let (out, checksum) = decompress(&from_hex(WORDS_ZLIB), Format::Zlib).unwrap();
    assert_eq!(out, word_data());
    assert_eq!(checksum.unwrap(), Adler32::from_buf(&out).finish());
}

#[test]
fn decodes_long_runs() {
    let (out, checksum) = decode_stream(&from_hex(RUNS_ZLIB), Format::Zlib).unwrap();
    assert_eq!(out.len(), 42000);
    assert!(out[1000..41000].iter().all(|&b| b == 0));
    assert_eq!(out[..1000], out[41000..]);
    assert_eq!(checksum, Some(2398869794));
    assert_eq!(Adler32::from_buf(&out).finish(), 2398869794);
}

#[test]
fn truncated_stream_underflows() {
    let full = from_hex(WORDS_ZLIB);
    for cut in [0usize, 1, 2, 5, full.len() / 2, full.len() - 5, full.len() - 1] {
        let result = decompress(&full[..cut], Format::Zlib);
        assert!(matches!(result, Err(Error::Underflow)), "cut at {}", cut);
    }
    assert!(matches!(decompress(&[], Format::Raw), Err(Error::Underflow)));
}

#[test]
fn reserved_block_type_is_invalid() {
    // Final block of type 3.
    assert!(matches!(decompress(&[0x07], Format::Raw), Err(Error::InvalidBitstream)));
}

#[test]
fn bad_zlib_header_is_invalid() {
    let mut stream = from_hex(HELLO_ZLIB);
    stream[1] ^= 1;
    assert!(matches!(decompress(&stream, Format::Zlib), Err(Error::InvalidBitstream)));
    // Compression method 7 instead of 8.
    assert!(matches!(decompress(&[0x77, 0x01, 0x03, 0x00], Format::Zlib), Err(Error::InvalidBitstream)));
    // Preset dictionary requested.
    assert!(matches!(decompress(&[0x78, 0xBB, 0, 0, 0, 0], Format::Zlib), Err(Error::InvalidBitstream)));
}

#[test]
fn stored_length_mismatch_is_invalid() {
    // Stored final block whose length complement does not match.
    assert!(matches!(
        decompress(&[0x01, 0x02, 0x00, 0xFD, 0xFE, b'a', b'b'], Format::Raw),
        Err(Error::InvalidBitstream)
    ));
    // The same block with a matching complement decodes.
    let (out, _) = decompress(&[0x01, 0x02, 0x00, 0xFD, 0xFF, b'a', b'b'], Format::Raw).unwrap();
    assert_eq!(out, b"ab");
}

#[test]
fn distance_before_start_is_invalid() {
    // Fixed block: a match (length 3, distance 1) with nothing decoded yet.
    // Bits: BFINAL=1, BTYPE=01, then symbol 257 (0000001), distance code 0 (00000).
    assert!(matches!(decompress(&[0x03, 0x02, 0x00], Format::Raw), Err(Error::InvalidBitstream)));
}
