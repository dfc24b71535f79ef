//! The character codec: per-variant tables, the reserved escape bands,
//! custom overrides, and the markup tokenizer.

use gxter::GXTCharacterTable;
use gxter::GXTFileFormat;
use gxter::GXTToken;
use gxter::decode_character;
use gxter::encode_character;
use gxter::encode_string;
use gxter::split_into_tokens;

#[test]
fn ascii_passes_through() {
    assert_eq!(decode_character(0x41, &GXTFileFormat::Three, &None), 'A');
    assert_eq!(decode_character(0x41, &GXTFileFormat::San8, &None), 'A');
    assert_eq!(encode_character('A', &GXTFileFormat::Three, &None).unwrap(), 0x41);
}

#[test]
fn variants_differ_beyond_ascii() {
    // code unit 0x40 is the trademark sign in the first two variants but a
    // plain at sign under the CP1252-based ones
    assert_eq!(decode_character(0x40, &GXTFileFormat::Three, &None), '\u{2122}');
    assert_eq!(decode_character(0x40, &GXTFileFormat::San16, &None), '@');
    // 0x5E differs between the two text-keyed variants
    assert_eq!(decode_character(0x5E, &GXTFileFormat::Three, &None), '^');
    assert_eq!(decode_character(0x5E, &GXTFileFormat::Vice, &None), '\u{00a1}');
}

#[test]
fn unmapped_low_units_use_the_first_escape_band() {
    // 0xFF has no glyph in the first variant's table
    let c = decode_character(0xFF, &GXTFileFormat::Three, &None);
    assert_eq!(c as u32, 0xE0FF);
    assert_eq!(encode_character(c, &GXTFileFormat::Three, &None).unwrap(), 0xFF);
}

#[test]
fn high_units_use_the_second_escape_band() {
    let c = decode_character(0x1234, &GXTFileFormat::Vice, &None);
    assert_eq!(c as u32, 0xFEF00 + 0x1234);
    assert_eq!(encode_character(c, &GXTFileFormat::Vice, &None).unwrap(), 0x1234);
}

#[test]
fn control_units_pass_through() {
    let c = decode_character(0x0A, &GXTFileFormat::San8, &None);
    assert_eq!(c, '\n');
    assert_eq!(encode_character('\n', &GXTFileFormat::San8, &None).unwrap(), 0x0A);
}

#[test]
fn unencodable_characters_are_rejected()  {
    let err = encode_character('\u{0394}', &GXTFileFormat::Three, &None).unwrap_err();
    assert!(matches!(err, gxter::GXTError::CompilationError(_)));
}

#[test]
fn custom_decode_overrides_the_default() {
    let custom = GXTCharacterTable {
        decode_table: vec![(0x33, '\u{0417}')],
        encode_table: vec![('\u{0417}', 0x33), ('\u{0437}', 0x33)],
    };
    let custom = Some(custom);
    assert_eq!(decode_character(0x33, &GXTFileFormat::Three, &custom), '\u{0417}');
    assert_eq!(decode_character(0x33, &GXTFileFormat::Three, &None), '3');
    // both spellings resolve to the same code unit when encoding
    assert_eq!(encode_character('\u{0417}', &GXTFileFormat::Three, &custom).unwrap(), 0x33);
    assert_eq!(encode_character('\u{0437}', &GXTFileFormat::Three, &custom).unwrap(), 0x33);
}

#[test]
fn derived_encode_table_first_writer_wins() {
    let mut custom = GXTCharacterTable {
        decode_table: vec![(0x33, '\u{0417}'), (0x34, '\u{0417}'), (0x35, '\u{0436}')],
        encode_table: vec![],
    };
    custom.fill_encode_table();
    assert_eq!(custom.encode_table, vec![('\u{0417}', 0x33), ('\u{0436}', 0x35)]);
}

#[test]
fn zero_custom_encode_entry_falls_back() {
    let custom = Some(GXTCharacterTable {
        decode_table: vec![],
        encode_table: vec![('A', 0)],
    });
    assert_eq!(encode_character('A', &GXTFileFormat::Three, &custom).unwrap(), 0x41);
}

#[test]
fn narrow_strings_reject_wide_units() {
    let custom = Some(GXTCharacterTable {
        decode_table: vec![],
        encode_table: vec![('\u{0394}', 0x1234)],
    });
    // the custom unit encodes fine into 16-bit data
    let wide = encode_string("\u{0394}", &GXTFileFormat::San16, &custom).unwrap();
    assert_eq!(wide, vec![0x34, 0x12, 0, 0]);
    // but cannot be stored in 8-bit data
    let err = encode_string("\u{0394}", &GXTFileFormat::San8, &custom).unwrap_err();
    assert!(matches!(err, gxter::GXTError::CompilationError(_)));
}

#[test]
fn encode_string_appends_terminators() {
    assert_eq!(
        encode_string("AB", &GXTFileFormat::Three, &None).unwrap(),
        vec![0x41, 0, 0x42, 0, 0, 0]
    );
    assert_eq!(encode_string("AB", &GXTFileFormat::San8, &None).unwrap(), vec![0x41, 0x42, 0]);
}

#[test]
fn tokenizer_splits_tags_from_text() {
    let tokens = split_into_tokens("~r~Hello~w~ world").unwrap();
    assert_eq!(
        tokens,
        vec![
            GXTToken::Tag("r".to_string()),
            GXTToken::Text("Hello".to_string()),
            GXTToken::Tag("w".to_string()),
            GXTToken::Text(" world".to_string()),
        ]
    );
}

#[test]
fn tokenizer_keeps_unterminated_tags_as_text() {
    let tokens = split_into_tokens("abc~x").unwrap();
    assert_eq!(
        tokens,
        vec![GXTToken::Text("abc".to_string()), GXTToken::Text("~x".to_string())]
    );
}

#[test]
fn tokenizer_of_empty_string_is_one_empty_text() {
    let tokens = split_into_tokens("").unwrap();
    assert_eq!(tokens, vec![GXTToken::Text("".to_string())]);
}
