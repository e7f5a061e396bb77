//! Whole files at the edges of what is accepted.

use magnetar_format_gguf::{
    parse, GgufArtifact, GgufError, GgufMetadataValue, ModelDType, ModelDigest, GGUF_MAGIC,
};

fn string(text: &str) -> Vec<u8> {
    let mut bytes = (text.len() as u64).to_le_bytes().to_vec();
    bytes.extend_from_slice(text.as_bytes());
    bytes
}

fn entry(key: &str, value_type: u32, value: &[u8]) -> Vec<u8> {
    let mut bytes = string(key);
    bytes.extend(value_type.to_le_bytes());
    bytes.extend_from_slice(value);
    bytes
}

fn info(name: &str, dimensions: &[u64], ggml_type: u32, offset: u64) -> Vec<u8> {
    let mut bytes = string(name);
    bytes.extend((dimensions.len() as u32).to_le_bytes());
    for dimension in dimensions {
        bytes.extend(dimension.to_le_bytes());
    }
    bytes.extend(ggml_type.to_le_bytes());
    bytes.extend(offset.to_le_bytes());
    bytes
}

/// A file of the given parts, with the data at a multiple of `alignment`.
fn file(version: u32, entries: &[Vec<u8>], infos: &[Vec<u8>], alignment: usize, data: &[u8]) -> Vec<u8> {
    let mut bytes = GGUF_MAGIC.to_le_bytes().to_vec();
    bytes.extend(version.to_le_bytes());
    bytes.extend((infos.len() as u64).to_le_bytes());
    bytes.extend((entries.len() as u64).to_le_bytes());
    for part in entries.iter().chain(infos) {
        bytes.extend_from_slice(part);
    }
    while bytes.len() % alignment != 0 {
        bytes.push(0);
    }
    bytes.extend_from_slice(data);
    bytes
}

/// The result for a file with these tensors, no metadata, and 64 data bytes.
fn with_tensors(infos: &[Vec<u8>]) -> Result<GgufArtifact, GgufError> {
    parse(&file(3, &[], infos, 32, &[0; 64]))
}

fn name() -> String {
    "t".to_string()
}

#[test]
fn a_file_may_hold_nothing() {
    for version in [2, 3] {
        let artifact = parse(&file(version, &[], &[], 1, &[])).unwrap();
        assert!(artifact.tensors.is_empty());
        assert!(artifact.metadata.entries().is_empty());
        assert_eq!(artifact.tensor_data_start, 32);
    }
}

#[test]
fn versions_on_either_side_are_rejected() {
    for version in [0, 1, 4, u32::MAX] {
        assert_eq!(
            parse(&file(version, &[], &[], 1, &[])),
            Err(GgufError::UnsupportedVersion { found: version })
        );
    }
}

#[test]
fn the_magic_is_reported_as_it_was_found() {
    assert_eq!(
        parse(b"GGML\x03\0\0\0"),
        Err(GgufError::BadMagic { found: 0x4c4d_4747 })
    );
    assert_eq!(
        parse(b"GGU"),
        Err(GgufError::UnexpectedEof { at: 0, needed: 4 })
    );
    assert_eq!(
        parse(b"GGUF"),
        Err(GgufError::UnexpectedEof { at: 4, needed: 4 })
    );
}

#[test]
fn the_last_of_several_entries_counts() {
    let entries = [
        entry("k", 0, &[1]),
        entry("other", 7, &[1]),
        entry("k", 0, &[2]),
    ];
    let artifact = parse(&file(3, &entries, &[], 1, &[])).unwrap();
    assert_eq!(artifact.metadata.get("k"), Some(&GgufMetadataValue::UInt8(2)));
    assert_eq!(
        artifact.metadata.get("other"),
        Some(&GgufMetadataValue::Bool(true))
    );
    assert_eq!(artifact.metadata.entries().len(), 2);
}

#[test]
fn a_bad_alignment_is_rejected() {
    for found in [0u32, 4, 12, 33] {
        let entries = [entry("general.alignment", 4, &found.to_le_bytes())];
        assert_eq!(
            parse(&file(3, &entries, &[], 1, &[])),
            Err(GgufError::InvalidAlignment { found })
        );
    }
    let entries = [entry("general.alignment", 10, &32u64.to_le_bytes())];
    assert_eq!(
        parse(&file(3, &entries, &[], 1, &[])),
        Err(GgufError::InvalidAlignment { found: 0 })
    );
}

#[test]
fn the_alignment_moves_the_data() {
    let entries = [entry("general.alignment", 4, &8u32.to_le_bytes())];
    let infos = [info("t", &[4], 24, 8)];
    let mut data = vec![0; 8];
    data.extend([1, 2, 3, 4]);
    let bytes = file(3, &entries, &infos, 8, &data);
    let artifact = parse(&bytes).unwrap();
    assert_eq!(artifact.tensor_data_start % 8, 0);
    let start = (artifact.tensor_data_start + 8) as usize;
    assert_eq!(&bytes[start..start + 4], &[1, 2, 3, 4]);
    assert_eq!(
        artifact.tensors[0].digest,
        Some(ModelDigest::sha256(&[1, 2, 3, 4]))
    );
}

#[test]
fn only_the_key_for_the_alignment_changes_it() {
    let entries = [entry("general.alignments", 4, &8u32.to_le_bytes())];
    let artifact = parse(&file(3, &entries, &[], 1, &[])).unwrap();
    assert_eq!(artifact.tensor_data_start % 32, 0);
}

#[test]
fn tensors_are_arranged_by_name() {
    let infos = [
        info("b", &[4], 24, 0),
        info("a", &[2, 2], 24, 32),
        info("B", &[0], 24, 0),
    ];
    let artifact = with_tensors(&infos).unwrap();
    let names: Vec<&str> = artifact.tensors.iter().map(|t| t.name.as_str()).collect();
    assert_eq!(names, ["B", "a", "b"]);
    let tensor = &artifact.tensors[1];
    assert_eq!(tensor.shape, [2, 2]);
    assert_eq!(tensor.storage_dtype, ModelDType::I8);
    assert_eq!(tensor.offset_bytes, Some(32));
    assert_eq!(tensor.size_bytes, Some(4));
    assert_eq!(tensor.layout, None);
    assert_eq!(tensor.shard, None);
    assert_eq!(tensor.quantization, None);
    assert_eq!(tensor.expected_compute_dtype, None);
    assert_eq!(tensor.digest, Some(ModelDigest::sha256(&[0; 4])));
}

#[test]
fn a_tensor_without_dimensions_has_one_element() {
    let artifact = with_tensors(&[info("t", &[], 28, 0)]).unwrap();
    assert_eq!(artifact.tensors[0].size_bytes, Some(8));
}

#[test]
fn names_may_have_64_bytes() {
    let longest = "n".repeat(64);
    assert!(with_tensors(&[info(&longest, &[1], 24, 0)]).is_ok());
    assert_eq!(
        with_tensors(&[info(&"n".repeat(65), &[1], 24, 0)]),
        Err(GgufError::TensorNameTooLong { name_length: 65 })
    );
    // Bytes count, not characters.
    assert_eq!(
        with_tensors(&[info(&"\u{e9}".repeat(33), &[1], 24, 0)]),
        Err(GgufError::TensorNameTooLong { name_length: 66 })
    );
}

#[test]
fn tensors_may_have_eight_dimensions() {
    assert!(with_tensors(&[info("t", &[1; 8], 24, 0)]).is_ok());
    assert_eq!(
        with_tensors(&[info("t", &[1; 9], 24, 0)]),
        Err(GgufError::TooManyDimensions {
            name: name(),
            found: 9
        })
    );
}

#[test]
fn counts_and_sizes_that_overflow_are_rejected() {
    assert_eq!(
        with_tensors(&[info("t", &[1 << 63, 2], 24, 0)]),
        Err(GgufError::ElementCountOverflow { name: name() })
    );
    // The product is zero, but not before it has overflowed.
    assert_eq!(
        with_tensors(&[info("t", &[1 << 63, 2, 0], 24, 0)]),
        Err(GgufError::ElementCountOverflow { name: name() })
    );
    assert_eq!(
        with_tensors(&[info("t", &[1 << 62], 28, 0)]),
        Err(GgufError::ByteSizeOverflow { name: name() })
    );
    assert_eq!(
        with_tensors(&[info("t", &[4], 24, u64::MAX - 31)]),
        Err(GgufError::ByteSizeOverflow { name: name() })
    );
    assert_eq!(
        with_tensors(&[info("t", &[u64::MAX], 24, 0)]),
        Err(GgufError::ByteSizeOverflow { name: name() })
    );
}

#[test]
fn a_tensor_may_end_with_the_file() {
    assert!(with_tensors(&[info("t", &[64], 24, 0)]).is_ok());
    assert_eq!(
        with_tensors(&[info("t", &[65], 24, 0)]),
        Err(GgufError::ByteRangeOutOfBounds {
            name: name(),
            start: 64,
            end: 129
        })
    );
}

#[test]
fn errors_name_the_tensor_and_what_is_wrong() {
    assert_eq!(
        with_tensors(&[info("t", &[4], 24, 3)]),
        Err(GgufError::OffsetNotAligned {
            name: name(),
            offset: 3,
            alignment: 32
        })
    );
    assert_eq!(
        with_tensors(&[info("t", &[32], 2, 0)]),
        Err(GgufError::UnsupportedGgmlType {
            name: name(),
            ggml_type: 2
        })
    );
    assert_eq!(
        with_tensors(&[info("t", &[10, 10], 12, 0)]),
        Err(GgufError::ElementCountNotBlockAligned {
            name: name(),
            element_count: 100,
            block_elements: 256
        })
    );
    assert_eq!(
        with_tensors(&[info("t", &[4], 24, 0), info("t", &[4], 24, 32)]),
        Err(GgufError::DuplicateTensorName { name: name() })
    );
}

#[test]
fn the_first_wrong_tensor_is_reported() {
    let infos = [
        info("t", &[4], 24, 0),
        info("u", &[4], 2, 32),
        info("t", &[4], 24, 32),
    ];
    assert_eq!(
        with_tensors(&infos),
        Err(GgufError::UnsupportedGgmlType {
            name: "u".to_string(),
            ggml_type: 2
        })
    );
}

#[test]
fn overlapping_tensors_are_named_in_the_order_of_their_data() {
    let infos = [info("x", &[4], 24, 32), info("z", &[40], 24, 0)];
    assert_eq!(
        with_tensors(&infos),
        Err(GgufError::OverlappingRanges {
            first: "z".to_string(),
            second: "x".to_string()
        })
    );
    let same_start = [info("b", &[4], 24, 0), info("a", &[4], 24, 0)];
    assert_eq!(
        with_tensors(&same_start),
        Err(GgufError::OverlappingRanges {
            first: "a".to_string(),
            second: "b".to_string()
        })
    );
}

#[test]
fn tensors_that_touch_do_not_overlap() {
    assert!(with_tensors(&[info("a", &[32], 24, 0), info("b", &[32], 24, 32)]).is_ok());
}

#[test]
fn an_empty_tensor_at_the_start_of_another_must_come_first_by_name() {
    assert!(with_tensors(&[info("a", &[0], 24, 0), info("b", &[4], 24, 0)]).is_ok());
    assert_eq!(
        with_tensors(&[info("a", &[4], 24, 0), info("b", &[0], 24, 0)]),
        Err(GgufError::OverlappingRanges {
            first: "a".to_string(),
            second: "b".to_string()
        })
    );
}

#[test]
fn strings_that_are_not_utf8_are_rejected_wherever_they_stand() {
    let mut key = entry("k", 0, &[1]);
    key[8] = 0xff;
    assert_eq!(
        parse(&file(3, &[key], &[], 1, &[])),
        Err(GgufError::StringNotUtf8)
    );
    let mut tensor = info("t", &[4], 24, 0);
    tensor[8] = 0xff;
    assert_eq!(with_tensors(&[tensor]), Err(GgufError::StringNotUtf8));
}

#[test]
fn an_unknown_type_of_metadata_is_rejected() {
    assert_eq!(
        parse(&file(3, &[entry("k", 13, &[])], &[], 1, &[0; 8])),
        Err(GgufError::UnknownMetadataValueType { found: 13 })
    );
}

/// A file with metadata of several types and three tensors, the last of which
/// ends with the file.
fn sample() -> Vec<u8> {
    let mut array = 8u32.to_le_bytes().to_vec();
    array.extend(2u64.to_le_bytes());
    array.extend(string("one"));
    array.extend(string("two"));
    let entries = [
        entry("general.alignment", 4, &16u32.to_le_bytes()),
        entry("words", 9, &array),
        entry("scale", 6, &0.5f32.to_le_bytes()),
    ];
    let infos = [
        info("w", &[2, 2], 0, 0),
        info("q", &[32], 8, 16),
        info("e", &[3], 24, 64),
    ];
    let data: Vec<u8> = (0..67).collect();
    file(2, &entries, &infos, 16, &data)
}

#[test]
fn a_file_is_read_back_as_it_was_written() {
    let bytes = sample();
    let artifact = parse(&bytes).unwrap();
    assert_eq!(
        artifact.metadata.get("words"),
        Some(&GgufMetadataValue::Array(vec![
            GgufMetadataValue::String("one".to_string()),
            GgufMetadataValue::String("two".to_string()),
        ]))
    );
    assert_eq!(
        artifact.metadata.get("scale"),
        Some(&GgufMetadataValue::Float32(0.5f32.to_bits()))
    );
    let sizes: Vec<(&str, Option<u64>)> = artifact
        .tensors
        .iter()
        .map(|t| (t.name.as_str(), t.size_bytes))
        .collect();
    assert_eq!(
        sizes,
        [("e", Some(3)), ("q", Some(34)), ("w", Some(16))]
    );
    assert_eq!(artifact.tensors[0].digest, Some(ModelDigest::sha256(&[64, 65, 66])));
    assert_eq!(artifact.tensors[1].digest, None);
    let first: Vec<u8> = (0..16).collect();
    assert_eq!(artifact.tensors[2].digest, Some(ModelDigest::sha256(&first)));
}

#[test]
fn a_file_that_is_cut_off_is_rejected_for_that() {
    let bytes = sample();
    for length in 0..bytes.len() {
        match parse(&bytes[..length]) {
            Err(GgufError::UnexpectedEof { at, needed }) => {
                assert!(at <= length as u64);
                assert!(needed > length as u64 - at);
            }
            Err(GgufError::ByteRangeOutOfBounds { end, .. }) => assert!(end > length as u64),
            other => panic!("cut off at {length}: {other:?}"),
        }
    }
}

#[test]
fn bytes_behind_a_file_change_nothing() {
    let bytes = sample();
    let mut longer = bytes.clone();
    longer.extend([0xaa; 100]);
    assert_eq!(parse(&longer), parse(&bytes));
}

#[test]
fn no_change_of_a_byte_makes_reading_panic() {
    let bytes = sample();
    for place in 0..bytes.len() {
        for flip in [0x01, 0x80, 0xff] {
            let mut changed = bytes.clone();
            changed[place] ^= flip;
            let _ = parse(&changed);
        }
    }
}

#[test]
fn a_copied_artifact_is_the_same() {
    let artifact = parse(&sample()).unwrap();
    let copy = artifact.clone();
    assert_eq!(copy, artifact);
    assert_eq!(copy.metadata.get("words"), artifact.metadata.get("words"));
}

#[test]
fn many_tensors_and_keys_in_falling_order_are_arranged() {
    let count = 20_000u32;
    let entries: Vec<Vec<u8>> = (0..count)
        .rev()
        .map(|n| entry(&format!("key{n:08}"), 4, &n.to_le_bytes()))
        .collect();
    let infos: Vec<Vec<u8>> = (0..count)
        .rev()
        .map(|n| info(&format!("t{n:08}"), &[1], 24, 32 * n as u64))
        .collect();
    let data = vec![7; 32 * count as usize];
    let artifact = parse(&file(3, &entries, &infos, 32, &data)).unwrap();
    assert_eq!(artifact.tensors.len(), count as usize);
    assert!(artifact.tensors.windows(2).all(|pair| pair[0].name < pair[1].name));
    assert_eq!(artifact.tensors[5].offset_bytes, Some(160));
    let kept = artifact.metadata.entries();
    assert!(kept.windows(2).all(|pair| pair[0].key < pair[1].key));
    assert_eq!(
        artifact.metadata.get("key00000009"),
        Some(&GgufMetadataValue::UInt32(9))
    );
}

#[test]
fn the_first_repeated_name_is_reported() {
    let infos = [
        info("c", &[1], 24, 0),
        info("a", &[1], 24, 32),
        info("b", &[1], 24, 32),
        info("b", &[1], 24, 32),
        info("a", &[1], 24, 32),
    ];
    assert_eq!(
        with_tensors(&infos),
        Err(GgufError::DuplicateTensorName {
            name: "b".to_string()
        })
    );
    // An earlier tensor that is wrong by itself comes first.
    let infos = [
        info("a", &[1], 24, 0),
        info("b", &[1], 24, 3),
        info("a", &[1], 24, 0),
    ];
    assert_eq!(
        with_tensors(&infos),
        Err(GgufError::OffsetNotAligned {
            name: "b".to_string(),
            offset: 3,
            alignment: 32
        })
    );
}

/// One for each value in `value`, and one for each byte of its strings.
fn weight(value: &GgufMetadataValue) -> usize {
    match value {
        GgufMetadataValue::String(s) => 1 + s.len(),
        GgufMetadataValue::Array(values) => 1 + values.iter().map(weight).sum::<usize>(),
        _ => 1,
    }
}

#[test]
fn metadata_hold_no_more_than_was_read() {
    let bytes = sample();
    let artifact = parse(&bytes).unwrap();
    let total: usize = artifact
        .metadata
        .entries()
        .iter()
        .map(|entry| entry.key.len() + weight(&entry.value))
        .sum();
    assert_eq!(weight(artifact.metadata.get("words").unwrap()), 9);
    assert!(total <= bytes.len());
}

#[test]
fn a_value_is_read_back_in_whichever_way_it_was_written() {
    let empty = |element_type: u32| {
        let mut bytes = element_type.to_le_bytes().to_vec();
        bytes.extend(0u64.to_le_bytes());
        bytes
    };
    for element_type in [0, 8, 9, 13, u32::MAX] {
        for truth in [1, 2, 0xff] {
            let entries = [
                entry("none", 9, &empty(element_type)),
                entry("yes", 7, &[truth]),
            ];
            let artifact = parse(&file(3, &entries, &[], 1, &[])).unwrap();
            assert_eq!(
                artifact.metadata.get("none"),
                Some(&GgufMetadataValue::Array(Vec::new()))
            );
            assert_eq!(
                artifact.metadata.get("yes"),
                Some(&GgufMetadataValue::Bool(true))
            );
        }
    }
}
