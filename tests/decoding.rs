use ferrumc_nbt::{NbtError, NbtParser, NbtTag};
use std::io::Write;

fn parse_bytes(bytes: &[u8]) -> Result<(String, NbtTag), NbtError> {
    let mut parser = NbtParser::new(bytes);
    parser.parse()
}

fn gzip(bytes: &[u8]) -> Vec<u8> {
    let mut encoder = libflate::gzip::Encoder::new(Vec::new()).unwrap();
    encoder.write_all(bytes).unwrap();
    encoder.finish().into_result().unwrap()
}

/// A root compound holding `x: Int 42`.
fn int_document() -> Vec<u8> {
    vec![0x0A, 0x00, 0x00, 0x03, 0x00, 0x01, b'x', 0x00, 0x00, 0x00, 0x2A, 0x00]
}

#[test]
fn empty_root_compound() {
    let (name, tag) = parse_bytes(&[0x0A, 0x00, 0x00, 0x00]).unwrap();
    assert_eq!(name, "");
    match tag {
        NbtTag::Compound(c) => assert!(c.get("x").is_none()),
        _ => panic!("root is not a compound"),
    }
}

#[test]
fn single_int_entry() {
    let (name, tag) = parse_bytes(&int_document()).unwrap();
    assert_eq!(name, "");
    match tag {
        NbtTag::Compound(c) => {
            assert!(matches!(c.get("x"), Some(NbtTag::Int(42))));
            assert!(c.get("y").is_none());
        }
        _ => panic!("root is not a compound"),
    }
}

#[test]
fn named_root() {
    let bytes = [0x0A, 0x00, 0x02, b'h', b'i', 0x00];
    let (name, _) = parse_bytes(&bytes).unwrap();
    assert_eq!(name, "hi");
}

#[test]
fn duplicate_names_keep_last() {
    let bytes = [
        0x0A, 0x00, 0x00, //
        0x01, 0x00, 0x01, b'a', 0x05, //
        0x02, 0x00, 0x01, b'a', 0xFF, 0xFE, //
        0x00,
    ];
    let (_, tag) = parse_bytes(&bytes).unwrap();
    match tag {
        NbtTag::Compound(c) => assert!(matches!(c.get("a"), Some(NbtTag::Short(-2)))),
        _ => panic!("root is not a compound"),
    }
}

#[test]
fn every_truncation_is_end_of_data() {
    let bytes = [
        0x0A, 0x00, 0x01, b'r', //
        0x09, 0x00, 0x01, b'l', 0x03, 0x00, 0x00, 0x00, 0x02, 0x00, 0x00, 0x00, 0x01, 0x00, 0x00, 0x00, 0x02, //
        0x08, 0x00, 0x01, b's', 0x00, 0x02, b'o', b'k', //
        0x0C, 0x00, 0x01, b'q', 0x00, 0x00, 0x00, 0x01, 0, 0, 0, 0, 0, 0, 0, 9, //
        0x00,
    ];
    assert!(parse_bytes(&bytes).is_ok());
    for k in 0..bytes.len() {
        assert_eq!(parse_bytes(&bytes[..k]).err(), Some(NbtError::UnexpectedEndOfData), "prefix {}", k);
    }
}

#[test]
fn negative_counts_are_malformed() {
    for tag in [0x07u8, 0x0B, 0x0C] {
        let bytes = [0x0A, 0x00, 0x00, tag, 0x00, 0x01, b'a', 0xFF, 0xFF, 0xFF, 0xFF, 0x00];
        assert_eq!(parse_bytes(&bytes).err(), Some(NbtError::MalformedData));
    }
    let list = [0x0A, 0x00, 0x00, 0x09, 0x00, 0x01, b'a', 0x01, 0x80, 0x00, 0x00, 0x00, 0x00];
    assert_eq!(parse_bytes(&list).err(), Some(NbtError::MalformedData));
}

#[test]
fn compressed_input_is_refused_until_inflated() {
    let packed = gzip(&int_document());
    assert_eq!(&packed[..2], &[0x1F, 0x8B]);
    assert_eq!(parse_bytes(&packed).err(), Some(NbtError::StillCompressed));
    let plain = NbtParser::decompress(&packed).unwrap();
    assert_eq!(plain, int_document());
    assert_eq!(plain[0], 0x0A);
    assert!(parse_bytes(&plain).is_ok());
}

#[test]
fn decompress_passes_plain_bytes_through() {
    assert_eq!(NbtParser::decompress(&int_document()).unwrap(), int_document());
    assert_eq!(NbtParser::decompress(&[]).unwrap(), Vec::<u8>::new());
}

#[test]
fn broken_gzip_fails() {
    let mut packed = gzip(&int_document());
    packed.truncate(12);
    assert_eq!(NbtParser::decompress(&packed).err(), Some(NbtError::DecompressionFailure));
}

fn nested_lists(depth: usize) -> Vec<u8> {
    let mut bytes = vec![0x0A, 0x00, 0x00, 0x09, 0x00, 0x01, b'n'];
    for _ in 0..depth - 1 {
        bytes.extend_from_slice(&[0x09, 0x00, 0x00, 0x00, 0x01]);
    }
    bytes.extend_from_slice(&[0x01, 0x00, 0x00, 0x00, 0x00]);
    bytes.push(0x00);
    bytes
}

#[test]
fn nesting_within_limit_succeeds() {
    assert!(parse_bytes(&nested_lists(100)).is_ok());
    let mut parser = NbtParser::with_max_depth(&[0x0A, 0x00, 0x00, 0x00], 1);
    assert!(parser.parse().is_ok());
}

#[test]
fn nesting_beyond_limit_is_refused() {
    assert_eq!(parse_bytes(&nested_lists(5000)).err(), Some(NbtError::DepthExceeded));
    let bytes = nested_lists(3);
    let mut parser = NbtParser::with_max_depth(&bytes, 3);
    assert_eq!(parser.parse().err(), Some(NbtError::DepthExceeded));
    let mut parser = NbtParser::with_max_depth(&bytes, 4);
    assert!(parser.parse().is_ok());
    let mut parser = NbtParser::with_max_depth(&[0x0A, 0x00, 0x00, 0x00], 0);
    assert_eq!(parser.parse().err(), Some(NbtError::DepthExceeded));
}

#[test]
fn invalid_text_is_malformed() {
    let value = [0x0A, 0x00, 0x00, 0x08, 0x00, 0x01, b's', 0x00, 0x02, 0xC3, 0x28, 0x00];
    assert_eq!(parse_bytes(&value).err(), Some(NbtError::MalformedData));
    let name = [0x0A, 0x00, 0x01, 0xFF, 0x00];
    assert_eq!(parse_bytes(&name).err(), Some(NbtError::MalformedData));
}

#[test]
fn multibyte_text_decodes() {
    let bytes = [0x0A, 0x00, 0x00, 0x08, 0x00, 0x01, b's', 0x00, 0x02, 0xC3, 0xA9, 0x00];
    let (_, tag) = parse_bytes(&bytes).unwrap();
    match tag {
        NbtTag::Compound(c) => match c.get("s") {
            Some(NbtTag::String(s)) => assert_eq!(s, "é"),
            _ => panic!("missing string"),
        },
        _ => panic!("root is not a compound"),
    }
}

#[test]
fn unknown_tag_type_is_malformed() {
    let bytes = [0x0A, 0x00, 0x00, 0x0D, 0x00, 0x01, b'z', 0x00];
    assert_eq!(parse_bytes(&bytes).err(), Some(NbtError::MalformedData));
}

#[test]
fn root_must_be_compound() {
    assert_eq!(parse_bytes(&[0x03, 0x00, 0x00]).err(), Some(NbtError::InvalidRoot(3)));
    assert_eq!(parse_bytes(&[]).err(), Some(NbtError::UnexpectedEndOfData));
}

#[test]
fn scalars_are_big_endian() {
    let bytes = [
        0x0A, 0x00, 0x00, //
        0x01, 0x00, 0x01, b'b', 0x80, //
        0x02, 0x00, 0x01, b's', 0x12, 0x34, //
        0x04, 0x00, 0x01, b'l', 0xFF, 0xFF, 0xFF, 0xFF, 0xFF, 0xFF, 0xFF, 0xFE, //
        0x05, 0x00, 0x01, b'f', 0x3F, 0x80, 0x00, 0x00, //
        0x06, 0x00, 0x01, b'd', 0x40, 0x00, 0x00, 0x00, 0x00, 0x00, 0x00, 0x00, //
        0x00,
    ];
    let (_, tag) = parse_bytes(&bytes).unwrap();
    let c = match tag {
        NbtTag::Compound(c) => c,
        _ => panic!("root is not a compound"),
    };
    assert!(matches!(c.get("b"), Some(NbtTag::Byte(-128))));
    assert!(matches!(c.get("s"), Some(NbtTag::Short(0x1234))));
    assert!(matches!(c.get("l"), Some(NbtTag::Long(-2))));
    match c.get("f") {
        Some(NbtTag::Float(bits)) => assert_eq!(f32::from_bits(*bits), 1.0f32),
        _ => panic!("missing float"),
    }
    match c.get("d") {
        Some(NbtTag::Double(bits)) => assert_eq!(f64::from_bits(*bits), 2.0f64),
        _ => panic!("missing double"),
    }
}

#[test]
fn arrays_decode_every_element() {
    let bytes = [
        0x0A, 0x00, 0x00, //
        0x07, 0x00, 0x01, b'a', 0x00, 0x00, 0x00, 0x03, 1, 2, 3, //
        0x0B, 0x00, 0x01, b'i', 0x00, 0x00, 0x00, 0x02, 0x00, 0x00, 0x01, 0x00, 0xFF, 0xFF, 0xFF, 0xFF, //
        0x0C, 0x00, 0x01, b'l', 0x00, 0x00, 0x00, 0x02, 0, 0, 0, 0, 0, 0, 0, 7, 0x80, 0, 0, 0, 0, 0, 0, 0, //
        0x00,
    ];
    let (_, tag) = parse_bytes(&bytes).unwrap();
    let c = match tag {
        NbtTag::Compound(c) => c,
        _ => panic!("root is not a compound"),
    };
    match c.get("a") {
        Some(NbtTag::ByteArray(v)) => assert_eq!(v, &vec![1u8, 2, 3]),
        _ => panic!("missing byte array"),
    }
    match c.get("i") {
        Some(NbtTag::IntArray(v)) => assert_eq!(v, &vec![256, -1]),
        _ => panic!("missing int array"),
    }
    match c.get("l") {
        Some(NbtTag::LongArray(v)) => assert_eq!(v, &vec![7, i64::MIN]),
        _ => panic!("missing long array"),
    }
}

#[test]
fn lists_keep_type_and_order() {
    let bytes = [
        0x0A, 0x00, 0x00, //
        0x09, 0x00, 0x01, b'l', 0x02, 0x00, 0x00, 0x00, 0x03, 0x00, 0x01, 0x00, 0x02, 0xFF, 0xFF, //
        0x09, 0x00, 0x01, b'e', 0x0A, 0x00, 0x00, 0x00, 0x00, //
        0x00,
    ];
    let (_, tag) = parse_bytes(&bytes).unwrap();
    let c = match tag {
        NbtTag::Compound(c) => c,
        _ => panic!("root is not a compound"),
    };
    match c.get("l") {
        Some(NbtTag::List(l)) => {
            assert_eq!(l.element_type(), 2);
            let v: Vec<i16> = l
                .elements()
                .iter()
                .map(|t| match t {
                    NbtTag::Short(s) => *s,
                    _ => panic!("wrong element"),
                })
                .collect();
            assert_eq!(v, vec![1, 2, -1]);
        }
        _ => panic!("missing list"),
    }
    match c.get("e") {
        Some(NbtTag::List(l)) => {
            assert_eq!(l.element_type(), 10);
            assert!(l.elements().is_empty());
        }
        _ => panic!("missing empty list"),
    }
}

#[test]
fn cursor_reads_and_stops_at_end() {
    let bytes = [0x12, 0x34, 0x56, 0x78, 0x9A, 0xBC, 0xDE, 0xF0, 0xFF];
    let mut p = NbtParser::new(&bytes);
    assert_eq!(p.read_u16(), Ok(0x1234));
    assert_eq!(p.read_i16(), Ok(0x5678));
    assert_eq!(p.read_u32(), Ok(0x9ABCDEF0));
    assert_eq!(p.read_u32(), Err(NbtError::UnexpectedEndOfData));
    assert_eq!(p.read_i8(), Ok(-1));
    assert_eq!(p.read_u8(), Err(NbtError::UnexpectedEndOfData));
    let mut q = NbtParser::new(&bytes);
    assert_eq!(q.read_u64(), Ok(0x123456789ABCDEF0));
    let mut r = NbtParser::new(&bytes);
    assert_eq!(r.read_i64(), Ok(0x123456789ABCDEF0u64 as i64));
    assert_eq!(r.read_i32(), Err(NbtError::UnexpectedEndOfData));
    assert_eq!(r.read_u8(), Ok(0xFF));
    assert!(NbtParser::is_compressed(&[0x1F, 0x8B, 0x00]));
    assert!(!NbtParser::is_compressed(&[0x1F]));
}
