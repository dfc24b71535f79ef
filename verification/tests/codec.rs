//! Golden-file scenarios and whole-document round trips.

use gxter::GXTFile;
use gxter::GXTFileFormat;
use gxter::GXTStringTable;
use gxter::ImportOrdering;

fn table(pairs: &[(&str, &str)]) -> GXTStringTable {
    GXTStringTable {
        data: pairs.iter().map(|(k, v)| (k.to_string(), v.to_string())).collect(),
    }
}

fn ten_pairs() -> Vec<(&'static str, &'static str)> {
    vec![
        ("AKEY", "VALUE0"),
        ("BKEY", "VALUE1"),
        ("CKEY", "VALUE2"),
        ("DKEY", "VALUE3"),
        ("EKEY", "VALUE4"),
        ("FEM_MM", "HELLO WORLD"),
        ("GKEY", "VALUE5"),
        ("HKEY", "VALUE6"),
        ("IKEY", "VALUE7"),
        ("JKEY", "VALUE8"),
    ]
}

fn push_name8(out: &mut Vec<u8>, name: &str) {
    let bytes = name.as_bytes();
    assert!(bytes.len() <= 8);
    out.extend_from_slice(bytes);
    for _ in bytes.len()..8 {
        out.push(0);
    }
}

fn push_wide(out: &mut Vec<u8>, s: &str) {
    for c in s.chars() {
        assert!((c as u32) < 128);
        out.push(c as u8);
        out.push(0);
    }
    out.push(0);
    out.push(0);
}

fn push_narrow(out: &mut Vec<u8>, s: &str) {
    for c in s.chars() {
        assert!((c as u32) < 128);
        out.push(c as u8);
    }
    out.push(0);
}

fn wide_len(s: &str) -> u32 {
    (s.chars().count() as u32 + 1) * 2
}

// One key index plus data block for the ten standard pairs, 16-bit units.
fn push_ten_block_wide(out: &mut Vec<u8>) {
    let pairs = ten_pairs();
    out.extend_from_slice(b"TKEY");
    out.extend_from_slice(&(12u32 * 10).to_le_bytes());
    let mut offset: u32 = 0;
    for (name, value) in &pairs {
        out.extend_from_slice(&offset.to_le_bytes());
        push_name8(out, name);
        offset += wide_len(value);
    }
    out.extend_from_slice(b"TDAT");
    out.extend_from_slice(&offset.to_le_bytes());
    for (_, value) in &pairs {
        push_wide(out, value);
    }
}

#[test]
fn three_compat_golden() {
    let gxt = GXTFile {
        format: GXTFileFormat::Three,
        main_table: table(&ten_pairs()),
        aux_tables: Vec::new(),
    };
    assert!(gxt.main_table.len() == 10);
    assert!(gxt.main_table.get("FEM_MM") == Some(&"HELLO WORLD".to_string()));

    let mut compiled_data: Vec<u8> = vec![];
    gxt.write_to_gxt(&mut compiled_data, &None).expect("Unable to compile GXT file");

    let mut expected: Vec<u8> = vec![];
    push_ten_block_wide(&mut expected);
    assert!(compiled_data == expected);
}

#[test]
fn vice_compat_golden() {
    let gxt = GXTFile {
        format: GXTFileFormat::Vice,
        main_table: table(&ten_pairs()),
        aux_tables: vec![("TEST".to_string(), table(&ten_pairs()))],
    };

    let mut compiled_data: Vec<u8> = vec![];
    gxt.write_to_gxt(&mut compiled_data, &None).expect("Unable to compile GXT file");

    let mut expected: Vec<u8> = vec![];
    expected.extend_from_slice(b"TABL");
    expected.extend_from_slice(&24u32.to_le_bytes());
    push_name8(&mut expected, "MAIN");
    expected.extend_from_slice(&32u32.to_le_bytes());
    // the main block is 8 + 120 bytes of key index and 8 + 150 bytes of data
    push_name8(&mut expected, "TEST");
    expected.extend_from_slice(&(32u32 + 8 + 120 + 8 + 150).to_le_bytes());
    push_ten_block_wide(&mut expected);
    push_name8(&mut expected, "TEST");
    push_ten_block_wide(&mut expected);
    assert!(compiled_data == expected);
}

#[test]
fn san8_compat_golden() {
    // Hash-keyed names written as explicit hash literals, so the stored
    // tokens are the literal values 1 through 10.
    let mut pairs: Vec<(String, String)> = Vec::new();
    for i in 0..10u32 {
        pairs.push((format!("#{:08X}", i + 1), format!("VALUE{}", i)));
    }
    let main = GXTStringTable { data: pairs.clone() };
    let aux = GXTStringTable { data: pairs.clone() };
    let gxt = GXTFile {
        format: GXTFileFormat::San8,
        main_table: main,
        aux_tables: vec![("TEST".to_string(), aux)],
    };

    let mut compiled_data: Vec<u8> = vec![];
    gxt.write_to_gxt(&mut compiled_data, &None).expect("Unable to compile GXT file");

    let mut block: Vec<u8> = vec![];
    block.extend_from_slice(b"TKEY");
    block.extend_from_slice(&(8u32 * 10).to_le_bytes());
    let mut offset: u32 = 0;
    for i in 0..10u32 {
        block.extend_from_slice(&offset.to_le_bytes());
        block.extend_from_slice(&(i + 1).to_le_bytes());
        offset += 7;
    }
    block.extend_from_slice(b"TDAT");
    // 70 bytes of strings plus 2 bytes of padding to the 4-byte boundary
    block.extend_from_slice(&72u32.to_le_bytes());
    for i in 0..10u32 {
        push_narrow(&mut block, &format!("VALUE{}", i));
    }
    block.push(0);
    block.push(0);

    let mut expected: Vec<u8> = vec![];
    expected.extend_from_slice(&4u16.to_le_bytes());
    expected.extend_from_slice(&8u16.to_le_bytes());
    expected.extend_from_slice(b"TABL");
    expected.extend_from_slice(&24u32.to_le_bytes());
    push_name8(&mut expected, "MAIN");
    expected.extend_from_slice(&36u32.to_le_bytes());
    push_name8(&mut expected, "TEST");
    expected.extend_from_slice(&(36u32 + block.len() as u32).to_le_bytes());
    expected.extend_from_slice(&block);
    push_name8(&mut expected, "TEST");
    expected.extend_from_slice(&block);
    assert!(compiled_data == expected);
}

#[test]
fn three_round_trip() {
    let gxt = GXTFile {
        format: GXTFileFormat::Three,
        main_table: table(&ten_pairs()),
        aux_tables: Vec::new(),
    };
    let mut compiled: Vec<u8> = vec![];
    gxt.write_to_gxt(&mut compiled, &None).expect("Unable to compile GXT file");
    let parsed = GXTFile::read_from_gxt(&compiled, &None, &None, &None)
        .expect("Unable to parse GXT file");
    assert_eq!(parsed, gxt);
}

#[test]
fn vice_round_trip() {
    let gxt = GXTFile {
        format: GXTFileFormat::Vice,
        main_table: table(&ten_pairs()),
        aux_tables: vec![("TEST".to_string(), table(&ten_pairs()))],
    };
    let mut compiled: Vec<u8> = vec![];
    gxt.write_to_gxt(&mut compiled, &None).expect("Unable to compile GXT file");
    let parsed = GXTFile::read_from_gxt(&compiled, &None, &None, &None)
        .expect("Unable to parse GXT file");
    assert_eq!(parsed, gxt);
}

#[test]
fn san8_round_trip() {
    let mut pairs: Vec<(String, String)> = Vec::new();
    for i in 0..10u32 {
        pairs.push((format!("#{:08X}", i + 1), format!("VALUE{}", i)));
    }
    let gxt = GXTFile {
        format: GXTFileFormat::San8,
        main_table: GXTStringTable { data: pairs.clone() },
        aux_tables: vec![("TEST".to_string(), GXTStringTable { data: pairs })],
    };
    let mut compiled: Vec<u8> = vec![];
    gxt.write_to_gxt(&mut compiled, &None).expect("Unable to compile GXT file");
    let parsed = GXTFile::read_from_gxt(&compiled, &None, &None, &None)
        .expect("Unable to parse GXT file");
    assert_eq!(parsed, gxt);
}

#[test]
fn san16_round_trip() {
    let gxt = GXTFile {
        format: GXTFileFormat::San16,
        main_table: table(&[("#00000005", "WIDE TEXT"), ("#00000009", "MORE TEXT")]),
        aux_tables: vec![("TEST".to_string(), table(&[("#00000002", "AUX TEXT")]))],
    };
    let mut compiled: Vec<u8> = vec![];
    gxt.write_to_gxt(&mut compiled, &None).expect("Unable to compile GXT file");
    assert_eq!(&compiled[0..4], &[4, 0, 16, 0]);
    let parsed = GXTFile::read_from_gxt(&compiled, &None, &None, &None)
        .expect("Unable to parse GXT file");
    assert_eq!(parsed, gxt);
}

#[test]
fn dedup_shares_one_copy() {
    // Two distinct names mapped to an identical value must reference the
    // same data offset: the compiled bytes hold exactly one copy.
    let gxt = GXTFile {
        format: GXTFileFormat::Three,
        main_table: table(&[("AAA", "SAME"), ("BBB", "SAME")]),
        aux_tables: Vec::new(),
    };
    let mut compiled: Vec<u8> = vec![];
    gxt.write_to_gxt(&mut compiled, &None).expect("Unable to compile GXT file");

    // both key-index entries carry data offset zero
    let first = u32::from_le_bytes([compiled[8], compiled[9], compiled[10], compiled[11]]);
    let second = u32::from_le_bytes([compiled[20], compiled[21], compiled[22], compiled[23]]);
    assert_eq!(first, 0);
    assert_eq!(second, 0);

    // the data block holds the value exactly once
    let mut pattern: Vec<u8> = vec![];
    for c in "SAME".chars() {
        pattern.push(c as u8);
        pattern.push(0);
    }
    let count = compiled.windows(pattern.len()).filter(|w| *w == &pattern[..]).count();
    assert_eq!(count, 1);
    // data block size: one copy of the value plus its terminator
    let data_size =
        u32::from_le_bytes([compiled[36], compiled[37], compiled[38], compiled[39]]);
    assert_eq!(data_size, 10);
}

#[test]
fn key_index_is_sorted() {
    // Entries handed over out of order are emitted ascending by name token.
    let gxt = GXTFile {
        format: GXTFileFormat::Three,
        main_table: table(&[("ZZ", "LAST"), ("AA", "FIRST")]),
        aux_tables: Vec::new(),
    };
    let mut compiled: Vec<u8> = vec![];
    gxt.write_to_gxt(&mut compiled, &None).expect("Unable to compile GXT file");
    // first emitted entry is AA even though ZZ was inserted first
    assert_eq!(&compiled[12..14], b"AA");
    assert_eq!(&compiled[24..26], b"ZZ");
}

#[test]
fn key_ordering_sorts_on_import() {
    let gxt = GXTFile {
        format: GXTFileFormat::Three,
        main_table: table(&[("ZZ", "LAST"), ("AA", "FIRST")]),
        aux_tables: Vec::new(),
    };
    let mut compiled: Vec<u8> = vec![];
    gxt.write_to_gxt(&mut compiled, &None).expect("Unable to compile GXT file");
    let parsed = GXTFile::read_from_gxt(
        &compiled,
        &Some(ImportOrdering::Key),
        &None,
        &None,
    )
    .expect("Unable to parse GXT file");
    assert_eq!(parsed.main_table.data[0].0, "AA");
    assert_eq!(parsed.main_table.data[1].0, "ZZ");
}

#[test]
fn bad_magic_is_rejected() {
    let err = GXTFile::read_from_gxt(b"XXXXXXXX", &None, &None, &None).unwrap_err();
    assert!(matches!(err, gxter::GXTError::ParsingError(_)));
    let err = GXTFile::read_from_gxt(b"", &None, &None, &None).unwrap_err();
    assert!(matches!(err, gxter::GXTError::ParsingError(_)));
}

#[test]
fn missing_main_is_rejected() {
    let mut data: Vec<u8> = vec![];
    data.extend_from_slice(b"TABL");
    data.extend_from_slice(&12u32.to_le_bytes());
    data.extend_from_slice(b"OTHR\0\0\0\0");
    data.extend_from_slice(&20u32.to_le_bytes());
    let err = GXTFile::read_from_gxt(&data, &None, &None, &None).unwrap_err();
    assert!(matches!(err, gxter::GXTError::ParsingError(_)));
}

#[test]
fn truncated_file_is_rejected() {
    let gxt = GXTFile {
        format: GXTFileFormat::Three,
        main_table: table(&[("AA", "FIRST")]),
        aux_tables: Vec::new(),
    };
    let mut compiled: Vec<u8> = vec![];
    gxt.write_to_gxt(&mut compiled, &None).expect("Unable to compile GXT file");
    compiled.truncate(compiled.len() - 3);
    let err = GXTFile::read_from_gxt(&compiled, &None, &None, &None).unwrap_err();
    assert!(matches!(err, gxter::GXTError::ParsingError(_)));
}

#[test]
fn name_too_long_fails_compilation() {
    let gxt = GXTFile {
        format: GXTFileFormat::Three,
        main_table: table(&[("LONGNAME9", "VALUE")]),
        aux_tables: Vec::new(),
    };
    let mut compiled: Vec<u8> = vec![];
    let err = gxt.write_to_gxt(&mut compiled, &None).unwrap_err();
    assert!(matches!(err, gxter::GXTError::CompilationError(_)));
    assert!(compiled.is_empty());
}
