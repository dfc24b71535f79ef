//! The name codec and the JAMCRC hashing scheme.

use gxter::GXTFileFormat;
use gxter::GXTStringName;
use gxter::build_name_list;
use gxter::crc32_jamcrc;
use gxter::string_from_name;
use gxter::string_to_name;
use gxter::string_to_name_basic;

#[test]
fn jamcrc_known_vectors() {
    // The standard CRC32 check value of "123456789" is 0xCBF43926; the name
    // hash is its bitwise complement.  The checksum crate documents
    // crc32("cat") == 0x9E5E43A8.
    assert_eq!(crc32_jamcrc(b"123456789"), !0xCBF43926u32);
    assert_eq!(crc32_jamcrc(b"cat"), !0x9E5E43A8u32);
}

#[test]
fn jamcrc_is_deterministic() {
    let first = crc32_jamcrc(b"FEM_MM");
    let second = crc32_jamcrc(b"FEM_MM");
    assert_eq!(first, second);
}

#[test]
fn hash_names_use_jamcrc() {
    let name = string_to_name("cat", &GXTFileFormat::San8).unwrap();
    assert_eq!(name, GXTStringName::CRC32(!0x9E5E43A8u32));
}

#[test]
fn hash_literals_bypass_hashing() {
    let name = string_to_name("#DEADBEEF", &GXTFileFormat::San16).unwrap();
    assert_eq!(name, GXTStringName::CRC32(0xDEADBEEF));
    // a string that is not exactly 8 uppercase hex digits is hashed instead
    let hashed = string_to_name("#deadbeef", &GXTFileFormat::San16).unwrap();
    assert_eq!(hashed, GXTStringName::CRC32(crc32_jamcrc(b"#deadbeef")));
}

#[test]
fn unknown_hashes_render_as_literals() {
    let rendered = string_from_name(&GXTStringName::CRC32(0xDEADBEEF), &None);
    assert_eq!(rendered, "#DEADBEEF");
}

#[test]
fn name_list_recovers_names() {
    let list = build_name_list(&vec!["FEM_MM".to_string(), "HELP".to_string()]);
    let hash = crc32_jamcrc(b"FEM_MM");
    let rendered = string_from_name(&GXTStringName::CRC32(hash), &Some(list));
    assert_eq!(rendered, "FEM_MM");
}

#[test]
fn text_names_are_zero_padded() {
    let token = string_to_name_basic("AKEY").unwrap();
    assert_eq!(token, [0x41, 0x4B, 0x45, 0x59, 0, 0, 0, 0]);
    let err = string_to_name_basic("LONGNAME9").unwrap_err();
    assert!(matches!(err, gxter::GXTError::CompilationError(_)));
}

#[test]
fn text_names_round_trip_through_tokens() {
    let token = string_to_name("FEM_MM", &GXTFileFormat::Vice).unwrap();
    let rendered = string_from_name(&token, &None);
    assert_eq!(rendered, "FEM_MM");
}

#[test]
fn token_bytes_are_escaped() {
    // printable bytes stand for themselves; the backslash doubles; `=` and
    // control bytes become two-digit hex escapes; trailing zeros are trimmed
    let token = GXTStringName::Text([0x41, 0x5C, 0x3D, 0x01, 0, 0, 0, 0]);
    let rendered = string_from_name(&token, &None);
    assert_eq!(rendered, "A\\\\\\x3d\\x01");
}

#[test]
fn all_zero_token_renders_empty() {
    let token = GXTStringName::Text([0; 8]);
    assert_eq!(string_from_name(&token, &None), "");
}

#[test]
fn name_list_keeps_one_entry_per_hash() {
    // a name whose hash is already recorded replaces the earlier pair
    let list = build_name_list(&vec!["HELP".to_string(), "HELP".to_string()]);
    assert_eq!(list.len(), 1);
    assert_eq!(list[0].1, "HELP");
}
