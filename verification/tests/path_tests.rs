use block_directory::block::SegmentId;
use block_directory::block::StoreError;
use block_directory::path::SegmentComponentId;
use block_directory::path::SegmentComponentPath;

#[test]
fn parses_hyphenated_uuid_path() {
    let path = SegmentComponentPath(String::from("00000000-0000-0000-0000-000000000000.ext"));
    let id = SegmentComponentId::try_from(&path).unwrap();
    assert_eq!(id.0, SegmentId { bits: 0 });
}

#[test]
fn parses_path_with_generation() {
    let path = SegmentComponentPath(String::from("00000000-0000-0000-0000-000000000000.123.del"));
    let id = SegmentComponentId::try_from(&path).unwrap();
    assert_eq!(id.0, SegmentId { bits: 0 });
}

#[test]
fn path_without_dot_fails() {
    let path = SegmentComponentPath(String::from("00000000-0000-0000-0000-000000000000"));
    let res = SegmentComponentId::try_from(&path);
    assert!(matches!(res, Err(StoreError::InvalidPath)));
}

#[test]
fn parses_simple_uuid_form() {
    let id = SegmentId::from_uuid_string("000102030405060708090a0b0c0d0e0f").unwrap();
    assert_eq!(id, SegmentId { bits: 0x000102030405060708090a0b0c0d0e0f });
}

#[test]
fn parses_hyphenated_uuid_value() {
    let id = SegmentId::from_uuid_string("00010203-0405-0607-0809-0a0b0c0d0e0f").unwrap();
    assert_eq!(id, SegmentId { bits: 0x000102030405060708090a0b0c0d0e0f });
}

#[test]
fn uppercase_hex_digits_parse() {
    let id = SegmentId::from_uuid_string("FFFFFFFF-FFFF-FFFF-FFFF-FFFFFFFFFFFF").unwrap();
    assert_eq!(id, SegmentId { bits: u128::MAX });
}

#[test]
fn wrong_length_uuid_fails() {
    assert!(SegmentId::from_uuid_string("0001").is_err());
    assert!(SegmentId::from_uuid_string("").is_err());
}

#[test]
fn non_hex_character_fails() {
    assert!(SegmentId::from_uuid_string("z0000000000000000000000000000000").is_err());
    assert!(SegmentId::from_uuid_string("z0000000-0000-0000-0000-000000000000").is_err());
}

#[test]
fn misplaced_hyphens_fail() {
    assert!(SegmentId::from_uuid_string("000000000-000-0000-0000-000000000000").is_err());
}

#[test]
fn bad_uuid_prefix_in_path_fails() {
    let path = SegmentComponentPath(String::from("not-a-uuid.ext"));
    assert!(matches!(SegmentComponentId::try_from(&path), Err(StoreError::InvalidPath)));
}
