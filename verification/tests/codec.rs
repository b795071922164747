use base24::decode;
use base24::encode;
use base24::errors::Base24Error;

fn hex_bytes(str_data: &str) -> Vec<u8> {
    let char_vec: Vec<_> = str_data.chars().collect();

    char_vec
        .chunks(2)
        .map(|chunk| {
            let byte_str = format!("{}{}", chunk[0], chunk[1]);

            u8::from_str_radix(&byte_str, 16)
        })
        .filter_map(|res| res.ok())
        .collect()
}

#[test]
fn test_all() {
    // A few hard coded values
    let values: Vec<(Vec<u8>, _)> = vec![
        ("00000000", "ZZZZZZZ"),
        ("000000000000000000000000", "ZZZZZZZZZZZZZZZZZZZZZ"),
        ("00000001", "ZZZZZZA"),
        ("000000010000000100000001", "ZZZZZZAZZZZZZAZZZZZZA"),
        ("00000010", "ZZZZZZP"),
        ("00000030", "ZZZZZCZ"),
        ("88553311", "5YEATXA"),
        ("FFFFFFFF", "X5GGBH7"),
        ("FFFFFFFFFFFFFFFFFFFFFFFF", "X5GGBH7X5GGBH7X5GGBH7"),
        ("FFFFFFFFFFFFFFFFFFFFFFFF", "x5ggbh7x5ggbh7x5ggbh7"),
        ("1234567887654321", "A64KHWZ5WEPAGG"),
        ("1234567887654321", "a64khwz5wepagg"),
        ("FF0001FF001101FF01023399", "XGES63FZZ247C7ZC2ZA6G"),
        ("FF0001FF001101FF01023399", "xges63fzz247c7zc2za6g"),
        (
            "25896984125478546598563251452658",
            "2FC28KTA66WRST4XAHRRCF237S8Z",
        ),
        (
            "25896984125478546598563251452658",
            "2fc28kta66wrst4xahrrcf237s8z",
        ),
        ("00000001", "ZZZZZZA"),
        ("00000002", "ZZZZZZC"),
        ("00000004", "ZZZZZZB"),
        ("00000008", "ZZZZZZ4"),
        ("00000010", "ZZZZZZP"),
        ("00000020", "ZZZZZA4"),
        ("00000040", "ZZZZZCP"),
        ("00000080", "ZZZZZ34"),
        ("00000100", "ZZZZZHP"),
        ("00000200", "ZZZZZW4"),
        ("00000400", "ZZZZARP"),
        ("00000800", "ZZZZ2K4"),
        ("00001000", "ZZZZFCP"),
        ("00002000", "ZZZZ634"),
        ("00004000", "ZZZABHP"),
        ("00008000", "ZZZC4W4"),
        ("00010000", "ZZZB8RP"),
        ("00020000", "ZZZG5K4"),
        ("00040000", "ZZZRYCP"),
        ("00080000", "ZZAKX34"),
        ("00100000", "ZZ229HP"),
        ("00200000", "ZZEFPW4"),
        ("00400000", "ZZT7GRP"),
        ("00800000", "ZAAESK4"),
        ("01000000", "ZCCK7CP"),
        ("02000000", "ZB32E34"),
        ("04000000", "Z4HETHP"),
        ("08000000", "ZP9KZW4"),
        ("10000000", "AG8CARP"),
        ("20000000", "CSHB2K4"),
        ("40000000", "3694FCP"),
        ("80000000", "53PP634"),
    ]
    .iter()
    .map(|(str_data, b24_str)| (hex_bytes(str_data), b24_str.to_string()))
    .collect();

    for (data, b24_str) in values {
        let decoded = decode(&b24_str).expect("error during test decode");
        assert_eq!(decoded, data);
        assert_eq!(
            encode(&decoded).expect("error during test encode"),
            b24_str.to_uppercase()
        );
    }
}

#[test]
fn test_failures() {
    let test_data: [u8; 5] = [1, 2, 3, 4, 5];

    assert_eq!(
        encode(&test_data),
        Err(Base24Error::EncodeInputLengthInvalid)
    );

    let test_data: &str = "ZZZ";

    assert_eq!(decode(test_data), Err(Base24Error::DecodeInputLengthInvalid));

    let test_data: &str = "ZZZZZZO";

    assert_eq!(
        decode(test_data),
        Err(Base24Error::DecodeUnsupportedCharacter('O'))
    );

    // Length is counted in characters, not bytes: three symbols and an
    // emoji are four characters, so the length check rejects this one
    // before the character scan sees the emoji.
    let test_data: &str = "ZZZ\u{1F60B}";

    assert_eq!(decode(test_data), Err(Base24Error::DecodeInputLengthInvalid));
}

#[test]
fn unsupported_non_ascii_character() {
    // Seven characters, so the length check passes; the emoji itself is
    // reported, as a code point, not a byte-level error.
    let test_data: &str = "ZZZZZZ\u{1F60B}";

    assert_eq!(
        decode(test_data),
        Err(Base24Error::DecodeUnsupportedCharacter('\u{1F60B}'))
    );
}

#[test]
fn boundary_values() {
    assert_eq!(encode(&[0, 0, 0, 0]).unwrap(), "ZZZZZZZ");
    assert_eq!(encode(&[0xFF, 0xFF, 0xFF, 0xFF]).unwrap(), "X5GGBH7");
    assert_eq!(decode("ZZZZZZA").unwrap(), vec![0, 0, 0, 1]);
}

#[test]
fn multi_chunk_concatenation() {
    let data = [0u8, 0, 0, 1, 0, 0, 0, 1, 0, 0, 0, 1];
    assert_eq!(encode(&data).unwrap(), "ZZZZZZAZZZZZZAZZZZZZA");
}

#[test]
fn empty_input() {
    assert_eq!(encode(&[]).unwrap(), "");
    assert_eq!(decode("").unwrap(), Vec::<u8>::new());
}

#[test]
fn round_trip_binary() {
    let data = hex_bytes("DEADBEEF0102030400FF10AB");
    let text = encode(&data).expect("error during test encode");
    let back = decode(&text).expect("error during test decode");
    assert_eq!(back, data);
}

#[test]
fn round_trip_text() {
    let text = "A64KHWZ5WEPAGG";
    let bytes = decode(text).expect("error during test decode");
    assert_eq!(encode(&bytes).expect("error during test encode"), text);
}

#[test]
fn case_invariance() {
    let canonical = decode("X5GGBH7X5GGBH7").unwrap();
    let lowercase = decode("x5ggbh7x5ggbh7").unwrap();
    let mixed = decode("X5ggBh7x5GGbH7").unwrap();
    assert_eq!(canonical, lowercase);
    assert_eq!(canonical, mixed);
}

#[test]
fn length_contracts() {
    let data = [7u8; 16];
    let text = encode(&data).unwrap();
    assert_eq!(text.chars().count(), 16 / 4 * 7);
    let bytes = decode(&text).unwrap();
    assert_eq!(bytes.len(), text.chars().count() / 7 * 4);
}

#[test]
fn codec_instance_methods() {
    let codec = base24::Base24::new();
    let text = codec.encode(&[0x88, 0x55, 0x33, 0x11]).unwrap();
    assert_eq!(text, "5YEATXA");
    assert_eq!(codec.decode(&text).unwrap(), vec![0x88, 0x55, 0x33, 0x11]);
}

#[test]
fn first_offending_character_reported() {
    // Both the fourth and the sixth character are foreign; the scan
    // reports the leftmost one.
    assert_eq!(
        decode("ZZZ0ZZ1"),
        Err(Base24Error::DecodeUnsupportedCharacter('0'))
    );
}

#[test]
fn out_of_range_group_wraps() {
    // "YYYYYYY" denotes 24^7 - 1, above 2^32 - 1; decode keeps the low
    // 32 bits, and re-encoding spells those out instead of the input.
    let bytes = decode("YYYYYYY").unwrap();
    assert_eq!(bytes, 291504127u32.to_be_bytes().to_vec());
    assert_eq!(encode(&bytes).unwrap(), "AT66SKF");
}
