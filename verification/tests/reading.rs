//! Numbers, strings and metadata values, read from bytes.

use magnetar_format_gguf::{
    align_up, dtype_layout_for_ggml_type, read_metadata_value, Cursor, GgufError,
    GgufMetadataValue, MetadataEntry, MetadataMap, ModelArtifactError, ModelDType, ModelDigest,
    ModelQuantizationFormat,
};

fn value(bytes: &[u8], value_type: u32) -> Result<GgufMetadataValue, GgufError> {
    let mut cursor = Cursor::new(bytes);
    read_metadata_value(&mut cursor, value_type, 0)
}

#[test]
fn unsigned_numbers_are_little_endian() {
    let bytes = [1u8, 2, 3, 4, 5, 6, 7, 8, 9, 10, 11, 12, 13, 14, 15];
    let mut cursor = Cursor::new(&bytes);
    assert_eq!(cursor.remaining(), 15);
    assert_eq!(cursor.read_u8(), Ok(0x01));
    assert_eq!(cursor.read_u16_le(), Ok(0x0302));
    assert_eq!(cursor.read_u32_le(), Ok(0x0706_0504));
    assert_eq!(cursor.position(), 7);
    assert_eq!(cursor.read_u64_le(), Ok(0x0f0e_0d0c_0b0a_0908));
    assert_eq!(cursor.remaining(), 0);
    assert_eq!(
        cursor.read_u8(),
        Err(GgufError::UnexpectedEof { at: 15, needed: 1 })
    );
}

#[test]
fn unsigned_numbers_reach_their_largest_value() {
    let bytes = [0xffu8; 15];
    let mut cursor = Cursor::new(&bytes);
    assert_eq!(cursor.read_u8(), Ok(u8::MAX));
    assert_eq!(cursor.read_u16_le(), Ok(u16::MAX));
    assert_eq!(cursor.read_u32_le(), Ok(u32::MAX));
    assert_eq!(cursor.read_u64_le(), Ok(u64::MAX));
}

#[test]
fn signed_numbers_are_in_twos_complement() {
    for n in [i8::MIN, -1, 0, 1, i8::MAX] {
        assert_eq!(Cursor::new(&n.to_le_bytes()).read_i8(), Ok(n));
    }
    for n in [i16::MIN, -2, 0, 258, i16::MAX] {
        assert_eq!(Cursor::new(&n.to_le_bytes()).read_i16_le(), Ok(n));
    }
    for n in [i32::MIN, -3, 0, 70_000, i32::MAX] {
        assert_eq!(Cursor::new(&n.to_le_bytes()).read_i32_le(), Ok(n));
    }
    for n in [i64::MIN, -4, 0, 5_000_000_000, i64::MAX] {
        assert_eq!(Cursor::new(&n.to_le_bytes()).read_i64_le(), Ok(n));
    }
}

#[test]
fn floating_point_numbers_are_read_as_their_bits() {
    for x in [0.0f32, -1.5, f32::INFINITY, f32::MIN_POSITIVE] {
        let bits = Cursor::new(&x.to_le_bytes()).read_f32_le().unwrap();
        assert_eq!(f32::from_bits(bits), x);
    }
    for x in [0.0f64, 0.1, -2.5e300, f64::NEG_INFINITY] {
        let bits = Cursor::new(&x.to_le_bytes()).read_f64_le().unwrap();
        assert_eq!(f64::from_bits(bits), x);
    }
    let nan = Cursor::new(&f32::NAN.to_le_bytes()).read_f32_le().unwrap();
    assert!(f32::from_bits(nan).is_nan());
}

#[test]
fn a_failed_read_leaves_the_cursor_where_it_was() {
    let mut cursor = Cursor::new(&[1, 2, 3]);
    assert_eq!(
        cursor.read_u32_le(),
        Err(GgufError::UnexpectedEof { at: 0, needed: 4 })
    );
    assert_eq!(cursor.position(), 0);
    assert_eq!(
        cursor.read_bytes(u64::MAX),
        Err(GgufError::UnexpectedEof {
            at: 0,
            needed: u64::MAX
        })
    );
    assert_eq!(cursor.read_bytes(3), Ok(&[1u8, 2, 3][..]));
    assert_eq!(cursor.read_bytes(0), Ok(&[][..]));
}

#[test]
fn strings_are_decoded_from_utf8() {
    let text = "h\u{e9}llo \u{1f600}";
    let mut bytes = (text.len() as u64).to_le_bytes().to_vec();
    bytes.extend_from_slice(text.as_bytes());
    let mut cursor = Cursor::new(&bytes);
    assert_eq!(cursor.read_string(), Ok(text.to_string()));
    assert_eq!(cursor.remaining(), 0);
}

#[test]
fn a_string_that_is_not_utf8_is_rejected() {
    for body in [vec![0xffu8], vec![0xc3], vec![0xed, 0xa0, 0x80]] {
        let mut bytes = (body.len() as u64).to_le_bytes().to_vec();
        bytes.extend_from_slice(&body);
        assert_eq!(
            Cursor::new(&bytes).read_string(),
            Err(GgufError::StringNotUtf8)
        );
    }
}

#[test]
fn a_string_longer_than_the_buffer_is_rejected() {
    let bytes = u64::MAX.to_le_bytes();
    let mut cursor = Cursor::new(&bytes);
    assert_eq!(
        cursor.read_string(),
        Err(GgufError::UnexpectedEof {
            at: 8,
            needed: u64::MAX
        })
    );
    assert_eq!(cursor.position(), 8);
}

#[test]
fn every_kind_of_metadata_value_is_read() {
    assert_eq!(value(&[200], 0), Ok(GgufMetadataValue::UInt8(200)));
    assert_eq!(value(&[200], 1), Ok(GgufMetadataValue::Int8(-56)));
    assert_eq!(value(&[1, 2], 2), Ok(GgufMetadataValue::UInt16(513)));
    assert_eq!(value(&[0xfe, 0xff], 3), Ok(GgufMetadataValue::Int16(-2)));
    assert_eq!(
        value(&[4, 3, 2, 1], 4),
        Ok(GgufMetadataValue::UInt32(0x0102_0304))
    );
    assert_eq!(
        value(&[0xff, 0xff, 0xff, 0xff], 5),
        Ok(GgufMetadataValue::Int32(-1))
    );
    assert_eq!(
        value(&1.5f32.to_le_bytes(), 6),
        Ok(GgufMetadataValue::Float32(1.5f32.to_bits()))
    );
    assert_eq!(value(&[0], 7), Ok(GgufMetadataValue::Bool(false)));
    assert_eq!(value(&[1], 7), Ok(GgufMetadataValue::Bool(true)));
    assert_eq!(value(&[2], 7), Ok(GgufMetadataValue::Bool(true)));
    assert_eq!(
        value(&[2, 0, 0, 0, 0, 0, 0, 0, b'o', b'k'], 8),
        Ok(GgufMetadataValue::String("ok".to_string()))
    );
    assert_eq!(
        value(&u64::MAX.to_le_bytes(), 10),
        Ok(GgufMetadataValue::UInt64(u64::MAX))
    );
    assert_eq!(
        value(&i64::MIN.to_le_bytes(), 11),
        Ok(GgufMetadataValue::Int64(i64::MIN))
    );
    assert_eq!(
        value(&2.25f64.to_le_bytes(), 12),
        Ok(GgufMetadataValue::Float64(2.25f64.to_bits()))
    );
}

#[test]
fn an_unknown_metadata_type_is_rejected() {
    assert_eq!(
        value(&[0; 16], 13),
        Err(GgufError::UnknownMetadataValueType { found: 13 })
    );
    assert_eq!(
        value(&[], u32::MAX),
        Err(GgufError::UnknownMetadataValueType { found: u32::MAX })
    );
}

#[test]
fn arrays_hold_values_of_one_type() {
    let mut bytes = 2u32.to_le_bytes().to_vec();
    bytes.extend(3u64.to_le_bytes());
    for n in [7u16, 8, 9] {
        bytes.extend(n.to_le_bytes());
    }
    assert_eq!(
        value(&bytes, 9),
        Ok(GgufMetadataValue::Array(vec![
            GgufMetadataValue::UInt16(7),
            GgufMetadataValue::UInt16(8),
            GgufMetadataValue::UInt16(9),
        ]))
    );
}

#[test]
fn an_array_may_be_empty_whatever_its_type() {
    let mut bytes = 99u32.to_le_bytes().to_vec();
    bytes.extend(0u64.to_le_bytes());
    assert_eq!(value(&bytes, 9), Ok(GgufMetadataValue::Array(Vec::new())));
}

#[test]
fn a_huge_array_in_a_small_buffer_fails_at_the_first_missing_element() {
    let mut bytes = 0u32.to_le_bytes().to_vec();
    bytes.extend(u64::MAX.to_le_bytes());
    bytes.extend([1, 2]);
    assert_eq!(
        value(&bytes, 9),
        Err(GgufError::UnexpectedEof { at: 14, needed: 1 })
    );
}

#[test]
fn the_cursor_stops_where_an_array_cannot_be_read() {
    let mut bytes = 1u32.to_le_bytes().to_vec();
    bytes.extend(5u64.to_le_bytes());
    bytes.extend([1, 2]);
    let mut cursor = Cursor::new(&bytes);
    assert!(read_metadata_value(&mut cursor, 9, 0).is_err());
    assert_eq!(cursor.position(), 14);
}

/// `depth` arrays, each of which but the last holds the next.
fn nested(depth: u32) -> Vec<u8> {
    let mut bytes = Vec::new();
    for level in 1..=depth {
        let (element_type, length): (u32, u64) = if level < depth { (9, 1) } else { (0, 0) };
        bytes.extend(element_type.to_le_bytes());
        bytes.extend(length.to_le_bytes());
    }
    bytes
}

#[test]
fn eight_arrays_may_enclose_one_another() {
    let mut expected = GgufMetadataValue::Array(Vec::new());
    for _ in 0..7 {
        expected = GgufMetadataValue::Array(vec![expected]);
    }
    assert_eq!(value(&nested(8), 9), Ok(expected));
    assert_eq!(value(&nested(9), 9), Err(GgufError::ArrayNestingTooDeep));
}

#[test]
fn a_copied_value_is_the_same() {
    let value = GgufMetadataValue::Array(vec![
        GgufMetadataValue::String("a".to_string()),
        GgufMetadataValue::String("b".to_string()),
    ]);
    assert_eq!(value.clone(), value);
}

#[test]
fn a_map_keeps_the_last_value_of_each_key_in_the_order_of_keys() {
    let entry = |key: &str, n: u8| MetadataEntry {
        key: key.to_string(),
        value: GgufMetadataValue::UInt8(n),
    };
    let map = MetadataMap::from_entries(vec![
        entry("b", 1),
        entry("a", 2),
        entry("c", 3),
        entry("b", 4),
    ]);
    assert_eq!(map.get("a"), Some(&GgufMetadataValue::UInt8(2)));
    assert_eq!(map.get("b"), Some(&GgufMetadataValue::UInt8(4)));
    assert_eq!(map.get("ab"), None);
    let keys: Vec<&str> = map.entries().iter().map(|entry| entry.key.as_str()).collect();
    assert_eq!(keys, ["a", "b", "c"]);
    assert_eq!(map.clone(), map);
    assert_eq!(map.clone().get("b"), Some(&GgufMetadataValue::UInt8(4)));
    assert_eq!(MetadataMap::from_entries(Vec::new()).get("a"), None);
}

#[test]
fn floating_point_values_are_compared_as_numbers() {
    let single = |x: f32| GgufMetadataValue::Float32(x.to_bits());
    let double = |x: f64| GgufMetadataValue::Float64(x.to_bits());
    let singles = [
        0.0,
        -0.0,
        1.5,
        -1.5,
        f32::MIN_POSITIVE,
        f32::INFINITY,
        f32::NEG_INFINITY,
        f32::NAN,
        -f32::NAN,
        f32::from_bits(0x7f80_0001),
    ];
    for x in singles {
        for y in singles {
            assert_eq!(single(x) == single(y), x == y);
            assert_eq!(double(x as f64) == double(y as f64), x as f64 == y as f64);
        }
    }
    assert_ne!(double(f64::from_bits(0x7ff0_0000_0000_0001)), double(f64::NAN));
    assert_ne!(single(1.0), GgufMetadataValue::UInt32(1.0f32.to_bits()));
    let zeros = |x: f32| GgufMetadataValue::Array(vec![single(1.0), single(x)]);
    assert_eq!(zeros(0.0), zeros(-0.0));
    assert_ne!(zeros(f32::NAN), zeros(f32::NAN));
}

#[test]
fn values_of_different_types_or_lengths_differ() {
    let array = |n: usize| GgufMetadataValue::Array(vec![GgufMetadataValue::UInt8(1); n]);
    assert_eq!(array(2), array(2));
    assert_ne!(array(2), array(3));
    assert_ne!(GgufMetadataValue::UInt8(1), GgufMetadataValue::Int8(1));
    assert_ne!(GgufMetadataValue::Bool(true), GgufMetadataValue::Bool(false));
    assert_ne!(
        GgufMetadataValue::String("a".to_string()),
        GgufMetadataValue::String("b".to_string())
    );
}

#[test]
fn positions_are_rounded_up_to_a_multiple() {
    assert_eq!(align_up(0, 32), Ok(0));
    assert_eq!(align_up(1, 32), Ok(32));
    assert_eq!(align_up(32, 32), Ok(32));
    assert_eq!(align_up(33, 32), Ok(64));
    assert_eq!(align_up(10, 3), Ok(12));
    assert_eq!(align_up(u64::MAX, 1), Ok(u64::MAX));
    assert_eq!(align_up(u64::MAX - 31, 32), Ok(u64::MAX - 31));
    assert_eq!(align_up(u64::MAX - 30, 32), Err(GgufError::AlignmentOverflow));
    assert_eq!(align_up(u64::MAX, 32), Err(GgufError::AlignmentOverflow));
}

#[test]
fn each_element_type_has_its_layout() {
    let expected = [
        (0, ModelDType::F32, 1, 4),
        (1, ModelDType::F16, 1, 2),
        (8, ModelDType::Q8, 32, 34),
        (12, ModelDType::Q4K, 256, 144),
        (13, ModelDType::Q5K, 256, 176),
        (24, ModelDType::I8, 1, 1),
        (25, ModelDType::I16, 1, 2),
        (26, ModelDType::I32, 1, 4),
        (27, ModelDType::I64, 1, 8),
        (28, ModelDType::F64, 1, 8),
        (30, ModelDType::Bf16, 1, 2),
    ];
    let mut supported = Vec::new();
    for ggml_type in 0..64u32 {
        if let Some(layout) = dtype_layout_for_ggml_type(ggml_type) {
            supported.push((
                ggml_type,
                layout.dtype,
                layout.block_elements,
                layout.block_bytes,
            ));
            assert_eq!(layout.quantization.is_some(), [8, 12, 13].contains(&ggml_type));
        }
    }
    assert_eq!(supported, expected);
    assert!(dtype_layout_for_ggml_type(u32::MAX).is_none());
}

#[test]
fn quantized_layouts_say_how_they_are_quantized() {
    let formats = [
        (8, ModelQuantizationFormat::GgufQ8, 32, 34),
        (12, ModelQuantizationFormat::GgufQ4K, 256, 144),
        (13, ModelQuantizationFormat::GgufQ5K, 256, 176),
    ];
    for (ggml_type, format, group_size, block_size) in formats {
        let quantization = dtype_layout_for_ggml_type(ggml_type)
            .unwrap()
            .quantization
            .unwrap();
        assert_eq!(quantization.format, format);
        assert_eq!(quantization.group_size, Some(group_size));
        assert_eq!(quantization.block_size, Some(block_size));
        assert_eq!(quantization.scale_dtype, Some(ModelDType::F16));
        assert_eq!(quantization.zero_point_dtype, None);
        assert!(!quantization.per_channel);
        assert_eq!(quantization.workspace_bytes, None);
        assert!(quantization.required_capabilities.is_empty());
    }
}

#[test]
fn a_digest_is_the_sha_256_hash_in_hexadecimal() {
    let digest = ModelDigest::sha256(b"abc");
    assert_eq!(digest.algorithm, "sha256");
    assert_eq!(
        digest.value,
        "sha256:ba7816bf8f01cfea414140de5dae2223b00361a396177a9cb410ff61f20015ad"
    );
    assert_eq!(
        ModelDigest::sha256(b"").value,
        "sha256:e3b0c44298fc1c149afbf4c8996fb92427ae41e4649b934ca495991b7852b855"
    );
}

#[test]
fn a_digest_accepts_its_content_and_nothing_else() {
    let digest = ModelDigest::sha256(b"content");
    assert_eq!(digest.verify_bytes(b"content"), Ok(()));
    assert_eq!(
        digest.verify_bytes(b"other"),
        Err(ModelArtifactError::DigestMismatch {
            declared: digest.value.clone(),
            computed: ModelDigest::sha256(b"other").value,
        })
    );
}

#[test]
fn each_error_is_put_in_words() {
    let name = || "t".to_string();
    let cases = [
        (
            GgufError::UnexpectedEof { at: 10, needed: 4 },
            "unexpected end of file at byte 10, needed 4 more bytes",
        ),
        (
            GgufError::BadMagic { found: 0xbeef },
            "bad magic bytes: found 0x0000beef, expected \"GGUF\"",
        ),
        (
            GgufError::UnsupportedVersion { found: 99 },
            "unsupported GGUF version 99 (supported: 2-3)",
        ),
        (GgufError::StringNotUtf8, "string field is not valid UTF-8"),
        (
            GgufError::UnknownMetadataValueType { found: 13 },
            "unknown metadata value type 13",
        ),
        (
            GgufError::ArrayNestingTooDeep,
            "metadata array nesting exceeds the depth limit",
        ),
        (
            GgufError::InvalidAlignment { found: 12 },
            "'general.alignment' value 12 is invalid (must be a nonzero multiple of 8)",
        ),
        (
            GgufError::TensorNameTooLong { name_length: 65 },
            "tensor name is 65 bytes, exceeding the 64-byte limit",
        ),
        (
            GgufError::TooManyDimensions {
                name: name(),
                found: 9,
            },
            "tensor 't' declares 9 dimensions, exceeding the limit",
        ),
        (
            GgufError::UnsupportedGgmlType {
                name: name(),
                ggml_type: 2,
            },
            "tensor 't' declares unsupported ggml_type 2",
        ),
        (
            GgufError::ElementCountOverflow { name: name() },
            "tensor 't' element-count computation overflowed",
        ),
        (
            GgufError::ElementCountNotBlockAligned {
                name: name(),
                element_count: 100,
                block_elements: 256,
            },
            "tensor 't' has 100 elements, not a multiple of its 256-element quantization block",
        ),
        (
            GgufError::ByteSizeOverflow { name: name() },
            "tensor 't' byte-size computation overflowed",
        ),
        (
            GgufError::AlignmentOverflow,
            "tensor-data alignment computation overflowed",
        ),
        (
            GgufError::OffsetNotAligned {
                name: name(),
                offset: 3,
                alignment: 32,
            },
            "tensor 't' offset 3 is not a multiple of the 32-byte alignment",
        ),
        (
            GgufError::ByteRangeOutOfBounds {
                name: name(),
                start: 64,
                end: u64::MAX,
            },
            "tensor 't' byte range [64, 18446744073709551615) is out of bounds",
        ),
        (
            GgufError::OverlappingRanges {
                first: name(),
                second: "u".to_string(),
            },
            "tensor 't' and tensor 'u' declare overlapping byte ranges",
        ),
        (
            GgufError::DuplicateTensorName { name: name() },
            "tensor name 't' is declared more than once",
        ),
    ];
    for (error, expected) in cases {
        assert_eq!(error.message(), expected);
        assert_eq!(error.clone(), error);
    }
}
