//! Properties of the character codec that hold for every input, stated and
//! proved once: the reserved escape band makes every unmapped code unit
//! reversible, and decoding inverts encoding.

use vstd::prelude::*;
use crate::charcodec::GXTCharacterTable;
use crate::charcodec::spec_custom_decode;
use crate::charcodec::spec_decode_char;
use crate::charcodec::spec_encode_char;
use crate::charcodec::spec_escape_code;
use crate::charcodec::spec_custom_encode_raw;
use crate::charcodec::spec_encode_string;
use crate::charcodec::spec_encode_units;
use crate::charcodec::spec_table_find;
use crate::charcodec::spec_terminator;
use crate::charcodec::spec_unit_bytes;
use crate::bytes::spec_le_u32_at;
use crate::bytes::spec_magic_tdat;
use crate::bytes::spec_magic_tkey;
use crate::bytes::spec_name8_at;
use crate::bytes::spec_u32_le_bytes;
use crate::compiler::GXTInternalTKEYEntry;
use crate::compiler::lemma_entries_bytes_len;
use crate::compiler::spec_entries_bytes;
use crate::compiler::spec_entry_bytes;
use crate::compiler::spec_entry_kind_ok;
use crate::compiler::spec_sort_entries;
use crate::compiler::spec_entries_sorted;
use crate::compiler::lemma_data_at_offset;
use crate::compiler::spec_data_offset;
use crate::compiler::spec_doc_entries;
use crate::compiler::spec_doc_token;
use crate::compiler::spec_table_data;
use crate::compiler::spec_values_contain;
use crate::names::spec_string_from_name;
use crate::parser::spec_tdat_views;
use crate::compiler::spec_compile_ok;
use crate::compiler::spec_doc_block_bytes;
use crate::compiler::spec_aux_blocks_bytes;
use crate::compiler::spec_file_bytes;
use crate::compiler::spec_header_bytes;
use crate::compiler::spec_pad_len;
use crate::compiler::spec_padded_table_data;
use crate::model::GXTFile;
use crate::parser::spec_block_table;
use crate::parser::spec_detect_format;
use crate::parser::spec_parse_ok;
use crate::parser::spec_pairs_view;
use crate::parser::spec_table_block_views;
use crate::parser::spec_tkey_entries;
use crate::parser::spec_tkey_ok;
use crate::names::GXTStringName;
use crate::names::spec_token_le;
use crate::parser::spec_read_cstring;
use crate::parser::spec_tkey_entry_at;
use crate::parser::spec_view_table_insert;
use crate::parser::spec_views_to_table;
use crate::format::GXTFileFormat;
use crate::tables::spec_default_char;
use crate::tables::spec_default_table;

verus! {

/// A hit in the default table names a slot holding exactly that character.
proof fn lemma_table_find_hit(t: Seq<char>, c: char, i: int, v: u16)
    requires
        0 <= i <= 224,
        spec_table_find(t, c, i) == Some(v),
    ensures
        32 + i <= v < 256,
        t[v - 32] == c,
    decreases 224 - i,
{
    if i < 224 && t[i] != c {
        lemma_table_find_hit(t, c, i + 1, v);
    }
}

/// Character fallback: decoding a code unit that has no custom override and
/// no default-table glyph yields a character inside the designated reserved
/// escape band, and encoding that character — under any custom table —
/// returns the original code unit unchanged.
pub proof fn lemma_character_fallback(
    format: GXTFileFormat,
    custom: Option<GXTCharacterTable>,
    other_custom: Option<GXTCharacterTable>,
    cv: u16,
)
    requires
        cv >= 32,
        match custom {
            Some(t) => spec_custom_decode(t.decode_table@, cv) is None,
            None => true,
        },
        spec_default_char(format, cv) == '\0',
    ensures
        ({
            let c = spec_decode_char(format, custom, cv);
            &&& c as u32 == spec_escape_code(cv)
            &&& ((0xE020 <= c as u32 && c as u32 <= 0xE0FF) || (0xFF000 <= c as u32 && c as u32
                <= 0x10EEFF))
            &&& spec_encode_char(format, other_custom, c) == Some(cv)
        }),
{
    let code = spec_escape_code(cv);
    assert((code as char) as u32 == code);
}

/// Decoding inverts encoding: a character encoded without a custom table
/// decodes back to itself, unless it is a low-band escape character whose
/// code unit has acquired a default glyph.
pub proof fn lemma_decode_of_encode(format: GXTFileFormat, c: char, v: u16)
    requires
        spec_encode_char(format, None, c) == Some(v),
        (0xE020 <= c as u32 && c as u32 <= 0xE0FF) ==> spec_default_char(format, v) == '\0',
    ensures
        spec_decode_char(format, None, v) == c,
{
    let u = c as u32;
    if u < 32 {
        assert((v as u32) as char == c) by {
            vstd::utf8::char_u32_cast(c, u);
        }
    } else if 0xE020 <= u && u <= 0xE0FF {
        assert(spec_escape_code(v) == u);
        assert((spec_escape_code(v) as u32) as char == c) by {
            vstd::utf8::char_u32_cast(c, u);
        }
    } else if 0xFF000 <= u && u <= 0x10EEFF {
        assert(v >= 256) by {
            assert(u - 0xFEF00 >= 0x100);
        }
        assert(spec_default_char(format, v) == '\0');
        assert(spec_escape_code(v) == u);
        assert((spec_escape_code(v) as u32) as char == c) by {
            vstd::utf8::char_u32_cast(c, u);
        }
    } else {
        lemma_table_find_hit(spec_default_table(format), c, 0, v);
        assert(spec_default_char(format, v) == c);
        assert(c != '\0') by {
            assert(u >= 32);
            assert(('\0' as u32) == 0);
        }
    }
}

} // verus!

verus! {

/// A character other than NUL never encodes to the zero code unit, so
/// encoding cannot produce an early terminator.
proof fn lemma_encode_nonzero(
    format: GXTFileFormat,
    custom: Option<GXTCharacterTable>,
    c: char,
    v: u16,
)
    requires
        spec_encode_char(format, custom, c) == Some(v),
        c != '\0',
    ensures
        v != 0,
{
    let u = c as u32;
    if u < 32 {
        if u == 0 {
            assert((u as char) == c) by {
                vstd::utf8::char_u32_cast(c, u);
            }
            assert((0u32 as char) == '\0');
        }
    } else if 0xE020 <= u && u <= 0xE0FF {
    } else if 0xFF000 <= u && u <= 0x10EEFF {
    } else {
        let custom_hit = match custom {
            Some(t) => spec_custom_encode_raw(t.encode_table@, c),
            None => None,
        };
        match custom_hit {
            Some(code) if code != 0 => {},
            _ => {
                lemma_table_find_hit(spec_default_table(format), c, 0, v);
            },
        }
    }
}

/// Reading a string is insensitive to what lies before its start.
proof fn lemma_read_cstring_shift(
    pre: Seq<u8>,
    data: Seq<u8>,
    q: int,
    format: GXTFileFormat,
    custom: Option<GXTCharacterTable>,
)
    requires
        0 <= q,
    ensures
        spec_read_cstring(pre + data, pre.len() + q, format, custom) == spec_read_cstring(
            data,
            q,
            format,
            custom,
        ),
    decreases data.len() - q,
{
    let w: int = if format.spec_uses_narrow_chars() {
        1
    } else {
        2
    };
    let whole = pre + data;
    if q + w > data.len() {
        assert(pre.len() + q + w > whole.len());
    } else {
        assert(whole[pre.len() + q] == data[q]);
        if w == 2 {
            assert(whole[pre.len() + q + 1] == data[q + 1]);
        }
        lemma_read_cstring_shift(pre, data, q + w, format, custom);
    }
}

/// Round trip: a string encoded without a custom table reads back from the
/// data block character for character, whatever bytes follow its terminator.
/// The string may not contain the NUL character (which is the terminator
/// itself), nor a low-band escape character whose code unit has a default
/// glyph (decoding prefers the glyph there).
pub proof fn lemma_string_round_trip(
    format: GXTFileFormat,
    s: Seq<char>,
    b: Seq<u8>,
    extra: Seq<u8>,
)
    requires
        spec_encode_string(format, None, s) == Some(b),
        forall|i: int| 0 <= i < s.len() ==> (#[trigger] s[i]) != '\0',
        forall|i: int|
            0 <= i < s.len() ==> ((0xE020 <= (#[trigger] s[i]) as u32 && s[i] as u32 <= 0xE0FF)
                ==> spec_default_char(
                format,
                spec_encode_char(format, None, s[i]).unwrap(),
            ) == '\0'),
    ensures
        spec_read_cstring(b + extra, 0, format, custom_none()) == Some(s),
    decreases s.len(),
{
    let w: int = if format.spec_uses_narrow_chars() {
        1
    } else {
        2
    };
    let whole = b + extra;
    if s.len() == 0 {
        assert(b =~= Seq::<u8>::empty() + spec_terminator(format));
        assert(b =~= spec_terminator(format));
        assert(whole[0] == 0);
        if w == 2 {
            assert(whole[1] == 0);
        }
    } else {
        let v = spec_encode_char(format, None, s[0]).unwrap();
        lemma_encode_nonzero(format, None, s[0], v);
        let units_rest = spec_encode_units(format, None, s.drop_first());
        let b_rest = units_rest.unwrap() + spec_terminator(format);
        assert(spec_encode_string(format, None, s.drop_first()) == Some(b_rest));
        assert(b =~= spec_unit_bytes(format, v) + b_rest);
        assert(whole =~= spec_unit_bytes(format, v) + (b_rest + extra));
        assert(whole[0] == (v % 256) as u8);
        let unit: u16 = if format.spec_uses_narrow_chars() {
            whole[0] as u16
        } else {
            assert(whole[1] == (v / 256) as u8);
            crate::bytes::spec_le_u16_at(whole, 0)
        };
        assert(unit == v);
        lemma_decode_of_encode(format, s[0], v);
        lemma_read_cstring_shift(
            spec_unit_bytes(format, v),
            b_rest + extra,
            0,
            format,
            custom_none(),
        );
        assert forall|i: int| 0 <= i < s.drop_first().len() implies (#[trigger] s.drop_first()[i])
            != '\0' by {
            assert(s.drop_first()[i] == s[i + 1]);
        }
        assert forall|i: int|
            0 <= i < s.drop_first().len() && 0xE020 <= (#[trigger] s.drop_first()[i]) as u32
                && s.drop_first()[i] as u32 <= 0xE0FF implies spec_default_char(
            format,
            spec_encode_char(format, None, s.drop_first()[i]).unwrap(),
        ) == '\0' by {
            assert(s.drop_first()[i] == s[i + 1]);
        }
        lemma_string_round_trip(format, s.drop_first(), b_rest, extra);
        assert(seq![spec_decode_char(format, custom_none(), unit)] + s.drop_first() =~= s);
    }
}

/// The absent custom table, named once so the statements above can share it.
pub open spec fn custom_none() -> Option<GXTCharacterTable> {
    None
}

} // verus!

verus! {

/// Four little-endian bytes read back as the value they were written from.
proof fn lemma_le_u32_roundtrip(v: u32, s: Seq<u8>, p: int)
    requires
        0 <= p,
        p + 4 <= s.len(),
        s.subrange(p, p + 4) == spec_u32_le_bytes(v),
    ensures
        spec_le_u32_at(s, p) == v,
{
    assert(s[p] == spec_u32_le_bytes(v)[0]);
    assert(s[p + 1] == spec_u32_le_bytes(v)[1]);
    assert(s[p + 2] == spec_u32_le_bytes(v)[2]);
    assert(s[p + 3] == spec_u32_le_bytes(v)[3]);
    let vi = v as int;
    assert((vi % 0x100) + (vi / 0x100 % 0x100) * 0x100 + (vi / 0x10000 % 0x100) * 0x10000 + (vi
        / 0x1000000 % 0x100) * 0x1000000 == vi) by (nonlinear_arith)
        requires
            0 <= vi && vi < 0x100000000,
    ;
}

/// A name token's eight bytes read back as the token they were written from.
proof fn lemma_name8_roundtrip(t: [u8; 8], s: Seq<u8>, p: int)
    requires
        0 <= p,
        p + 8 <= s.len(),
        s.subrange(p, p + 8) == t@,
    ensures
        spec_name8_at(s, p) == t,
{
    broadcast use vstd::array::group_array_axioms;

    assert(spec_name8_at(s, p)@ =~= s.subrange(p, p + 8));
    assert(spec_name8_at(s, p) =~= t) by {
        assert(forall|q: int| 0 <= q < 8 ==> spec_name8_at(s, p)@[q] == t@[q]);
    }
}

} // verus!

verus! {

/// Each record of an emitted entry array occupies its own fixed-size slot.
proof fn lemma_entries_bytes_at(s: Seq<GXTInternalTKEYEntry>, format: GXTFileFormat, i: int)
    requires
        forall|k: int| 0 <= k < s.len() ==> spec_entry_kind_ok(format, #[trigger] s[k]),
        0 <= i < s.len(),
    ensures
        spec_entries_bytes(s).subrange(
            i * format.spec_key_entry_size(),
            i * format.spec_key_entry_size() + format.spec_key_entry_size(),
        ) == spec_entry_bytes(s[i]),
    decreases s.len(),
{
    let es = format.spec_key_entry_size() as int;
    lemma_entries_bytes_len(s, format);
    lemma_entries_bytes_len(s.drop_last(), format);
    assert(spec_entry_bytes(s[s.len() - 1]).len() == es);
    if i == s.len() - 1 {
        assert((i * es) == (s.len() - 1) * es) by (nonlinear_arith)
            requires
                i == s.len() - 1,
        ;
        assert(spec_entries_bytes(s).subrange(i * es, i * es + es) =~= spec_entry_bytes(s[i]));
    } else {
        lemma_entries_bytes_at(s.drop_last(), format, i);
        assert((i + 1) * es <= (s.len() - 1) * es) by (nonlinear_arith)
            requires
                i + 1 <= s.len() - 1,
                es >= 0,
        ;
        assert(i * es + es == (i + 1) * es) by (nonlinear_arith);
        assert(i * es >= 0) by (nonlinear_arith)
            requires
                i >= 0,
                es >= 0,
        ;
        assert(spec_entries_bytes(s).subrange(i * es, i * es + es) =~= spec_entries_bytes(
            s.drop_last(),
        ).subrange(i * es, i * es + es));
    }
}

/// Parsing an entry slot recovers the entry that was emitted into it.
proof fn lemma_entry_slot_roundtrip(
    whole: Seq<u8>,
    p: int,
    e: GXTInternalTKEYEntry,
    format: GXTFileFormat,
)
    requires
        spec_entry_kind_ok(format, e),
        0 <= p,
        p + format.spec_key_entry_size() <= whole.len(),
        whole.subrange(p, p + format.spec_key_entry_size()) == spec_entry_bytes(e),
    ensures
        spec_tkey_entry_at(whole, p, format) == e,
{
    let es = format.spec_key_entry_size() as int;
    assert forall|q: int| 0 <= q < es implies whole[p + q] == spec_entry_bytes(e)[q] by {
        assert(whole.subrange(p, p + es)[q] == spec_entry_bytes(e)[q]);
    }
    assert(whole.subrange(p, p + 4) =~= spec_u32_le_bytes(e.offset));
    lemma_le_u32_roundtrip(e.offset, whole, p);
    match e.name {
        GXTStringName::Text(t) => {
            assert forall|q: int| 0 <= q < 8 implies whole[p + 4 + q] == t@[q] by {
                assert(whole.subrange(p, p + es)[4 + q] == spec_entry_bytes(e)[4 + q]);
            }
            assert(whole.subrange(p + 4, p + 12) =~= t@);
            lemma_name8_roundtrip(t, whole, p + 4);
        },
        GXTStringName::CRC32(h) => {
            assert forall|q: int| 0 <= q < 4 implies whole[p + 4 + q] == spec_u32_le_bytes(h)[q] by {
                assert(whole.subrange(p, p + es)[4 + q] == spec_entry_bytes(e)[4 + q]);
            }
            assert(whole.subrange(p + 4, p + 8) =~= spec_u32_le_bytes(h));
            lemma_le_u32_roundtrip(h, whole, p + 4);
        },
    }
}

/// Stable sorting leaves an already-sorted entry list unchanged.
proof fn lemma_sort_entries_identity(s: Seq<GXTInternalTKEYEntry>)
    requires
        spec_entries_sorted(s),
    ensures
        spec_sort_entries(s) == s,
    decreases s.len(),
{
    if s.len() > 0 {
        assert(spec_entries_sorted(s.drop_last()));
        lemma_sort_entries_identity(s.drop_last());
        if s.len() == 1 {
            assert(seq![s.last()] =~= s);
        } else {
            assert(spec_token_le(s.drop_last().last().name, s.last().name));
            assert(s.drop_last().push(s.last()) =~= s);
        }
    }
}

/// Inserting a fresh name into a view-level table appends it.
proof fn lemma_view_table_insert_miss(
    t: Seq<(Seq<char>, Seq<char>)>,
    name: Seq<char>,
    value: Seq<char>,
)
    requires
        forall|j: int| 0 <= j < t.len() ==> (#[trigger] t[j]).0 != name,
    ensures
        spec_view_table_insert(t, name, value) == t.push((name, value)),
    decreases t.len(),
{
    if t.len() == 0 {
        assert(seq![(name, value)] =~= t.push((name, value)));
    } else {
        lemma_view_table_insert_miss(t.drop_first(), name, value);
        assert(seq![t[0]] + t.drop_first().push((name, value)) =~= t.push((name, value)));
    }
}

/// Building a table from triples with pairwise distinct names appends each
/// pair in order.
proof fn lemma_views_to_table_distinct(ts: Seq<(Seq<char>, Seq<char>, u32)>)
    requires
        forall|a: int, b: int| 0 <= a < b < ts.len() ==> (#[trigger] ts[a]).0 != (#[trigger] ts[b]).0,
    ensures
        spec_views_to_table(ts) == ts.map_values(|t: (Seq<char>, Seq<char>, u32)| (t.0, t.1)),
    decreases ts.len(),
{
    if ts.len() > 0 {
        lemma_views_to_table_distinct(ts.drop_last());
        let front = spec_views_to_table(ts.drop_last());
        assert forall|j: int| 0 <= j < front.len() implies (#[trigger] front[j]).0 != ts.last().0 by {
            assert(front[j].0 == ts.drop_last()[j].0);
            assert(ts[j].0 != ts[ts.len() - 1].0);
        }
        lemma_view_table_insert_miss(front, ts.last().0, ts.last().1);
        assert(spec_views_to_table(ts) =~= ts.map_values(
            |t: (Seq<char>, Seq<char>, u32)| (t.0, t.1),
        ));
    }
}

} // verus!

verus! {

/// Whether a string value reads back from its own encoding: it holds no NUL
/// character (the terminator itself) and no low-band escape character whose
/// code unit has a default glyph (decoding prefers the glyph there).
pub open spec fn spec_value_reads_back(format: GXTFileFormat, s: Seq<char>) -> bool {
    &&& forall|q: int| 0 <= q < s.len() ==> (#[trigger] s[q]) != '\0'
    &&& forall|q: int|
        0 <= q < s.len() ==> ((0xE020 <= (#[trigger] s[q]) as u32 && s[q] as u32 <= 0xE0FF)
            ==> spec_default_char(format, spec_encode_char(format, None, s[q]).unwrap()) == '\0')
}

/// One value of a compiled data block reads back from its recorded offset.
#[verifier::rlimit(60)]
proof fn lemma_value_reads_at(
    data: Seq<u8>,
    entries: Seq<(String, String)>,
    sbase: int,
    format: GXTFileFormat,
    j: int,
)
    requires
        spec_table_data(entries, format, custom_none()) is Some,
        0 <= sbase,
        sbase + spec_table_data(entries, format, custom_none()).unwrap().len() <= data.len(),
        spec_table_data(entries, format, custom_none()).unwrap().len() <= 0xFFFFFFFF,
        data.subrange(
            sbase,
            sbase + spec_table_data(entries, format, custom_none()).unwrap().len(),
        ) == spec_table_data(entries, format, custom_none()).unwrap(),
        0 <= j < entries.len(),
        spec_value_reads_back(format, entries[j].1@),
    ensures
        ({
            let off = spec_data_offset(entries, format, custom_none(), entries[j].1@);
            &&& 0 <= off <= 0xFFFFFFFF
            &&& spec_read_cstring(data, sbase + off, format, custom_none()) == Some(entries[j].1@)
        }),
{
    let d0 = spec_table_data(entries, format, custom_none()).unwrap();
    let value = entries[j].1@;
    assert(spec_values_contain(entries, value)) by {
        assert(entries[j].1@ == value);
    }
    lemma_data_at_offset(entries, format, custom_none(), value);
    let enc = spec_encode_string(format, custom_none(), value).unwrap();
    let off = spec_data_offset(entries, format, custom_none(), value);
    let start = sbase + off;
    assert forall|q: int| 0 <= q < d0.len() implies data[sbase + q] == d0[q] by {
        assert(data.subrange(sbase, sbase + d0.len())[q] == d0[q]);
    }
    let pre = data.take(start);
    let rest = data.skip(start + enc.len());
    assert(data =~= pre + (enc + rest)) by {
        assert forall|q: int| 0 <= q < enc.len() implies data[start + q] == enc[q] by {
            assert(d0.subrange(off, off + enc.len() as int)[q] == enc[q]);
            assert(data[sbase + (off + q)] == d0[off + q]);
        }
    }
    lemma_read_cstring_shift(pre, enc + rest, 0, format, custom_none());
    lemma_string_round_trip(format, value, enc, rest);
}

/// Reading a compiled data block back through its own key index recovers
/// every name and value in entry order, when names are pairwise distinct and
/// render back to themselves and every value reads back.
#[verifier::rlimit(60)]
proof fn lemma_tdat_views_of_compiled(
    data: Seq<u8>,
    entries: Seq<(String, String)>,
    sbase: int,
    format: GXTFileFormat,
    list: Option<Seq<(u32, String)>>,
    k: int,
)
    requires
        spec_table_data(entries, format, custom_none()) is Some,
        0 <= sbase,
        sbase + spec_table_data(entries, format, custom_none()).unwrap().len() <= data.len(),
        spec_table_data(entries, format, custom_none()).unwrap().len() <= 0xFFFFFFFF,
        data.subrange(
            sbase,
            sbase + spec_table_data(entries, format, custom_none()).unwrap().len(),
        ) == spec_table_data(entries, format, custom_none()).unwrap(),
        forall|a: int, b: int|
            0 <= a < b < entries.len() ==> (#[trigger] entries[a]).0@ != (
            #[trigger] entries[b]).0@,
        forall|i: int|
            0 <= i < entries.len() ==> spec_string_from_name(
                spec_doc_token((#[trigger] entries[i]).0@, format),
                list,
            ) == entries[i].0@,
        forall|i: int|
            0 <= i < entries.len() ==> spec_value_reads_back(
                format,
                (#[trigger] entries[i]).1@,
            ),
        0 <= k <= entries.len(),
    ensures
        spec_tdat_views(
            data,
            spec_doc_entries(entries, format, custom_none()).take(k),
            sbase,
            format,
            custom_none(),
            list,
        ) == Some(
            Seq::new(
                k as nat,
                |i: int|
                    (
                        entries[i].0@,
                        entries[i].1@,
                        spec_doc_entries(entries, format, custom_none())[i].offset,
                    ),
            ),
        ),
    decreases k,
{
    let toks = spec_doc_entries(entries, format, custom_none());
    if k == 0 {
        assert(toks.take(0) =~= Seq::<GXTInternalTKEYEntry>::empty());
        assert(Seq::new(
            0,
            |i: int| (entries[i].0@, entries[i].1@, toks[i].offset),
        ) =~= Seq::<(Seq<char>, Seq<char>, u32)>::empty());
    } else {
        lemma_tdat_views_of_compiled(data, entries, sbase, format, list, k - 1);
        assert(toks.take(k).drop_last() =~= toks.take(k - 1));
        assert(toks.take(k).last() == toks[k - 1]);
        let value = entries[k - 1].1@;
        lemma_value_reads_at(data, entries, sbase, format, k - 1);
        let off = spec_data_offset(entries, format, custom_none(), value);
        assert(toks[k - 1].offset == off as u32);
        assert((off as u32) as int == off);
        assert(spec_read_cstring(data, sbase + off, format, custom_none()) == Some(value));
        let prefix = Seq::new(
            (k - 1) as nat,
            |i: int| (entries[i].0@, entries[i].1@, toks[i].offset),
        );
        assert(spec_string_from_name(toks[k - 1].name, list) == entries[k - 1].0@);
        assert forall|j: int| 0 <= j < prefix.len() implies (#[trigger] prefix[j]).0 != entries[k
            - 1].0@ by {
            assert(entries[j].0@ != entries[k - 1].0@);
        }
        crate::parser::lemma_view_insert3_miss(
            prefix,
            entries[k - 1].0@,
            value,
            toks[k - 1].offset,
        );
        assert(prefix.push((entries[k - 1].0@, value, toks[k - 1].offset)) =~= Seq::new(
            k as nat,
            |i: int| (entries[i].0@, entries[i].1@, toks[i].offset),
        ));
    }
}

} // verus!

verus! {

/// The compiled bytes of a single-table document carry one readable table
/// block at the start of the file, holding exactly the document's entries.
#[verifier::rlimit(100)]
proof fn lemma_three_block_structure(doc: GXTFile, list: Option<Seq<(u32, String)>>)
    requires
        doc.wf(),
        doc.format == GXTFileFormat::Three,
        spec_compile_ok(doc, custom_none()),
        spec_entries_sorted(
            spec_doc_entries(doc.main_table.data@, GXTFileFormat::Three, custom_none()),
        ),
        forall|i: int|
            0 <= i < doc.main_table.data@.len() ==> spec_string_from_name(
                spec_doc_token((#[trigger] doc.main_table.data@[i]).0@, GXTFileFormat::Three),
                list,
            ) == doc.main_table.data@[i].0@,
        forall|i: int|
            0 <= i < doc.main_table.data@.len() ==> spec_value_reads_back(
                GXTFileFormat::Three,
                (#[trigger] doc.main_table.data@[i]).1@,
            ),
    ensures
        spec_detect_format(spec_file_bytes(doc, custom_none())) == Some(GXTFileFormat::Three),
        spec_table_block_views(
            spec_file_bytes(doc, custom_none()),
            GXTFileFormat::Three,
            0,
            false,
            None,
            custom_none(),
            list,
        ) == Some(
            Seq::new(
                doc.main_table.data@.len(),
                |i: int|
                    (
                        doc.main_table.data@[i].0@,
                        doc.main_table.data@[i].1@,
                        spec_doc_entries(
                            doc.main_table.data@,
                            GXTFileFormat::Three,
                            custom_none(),
                        )[i].offset,
                    ),
            ),
        ),
{
    let fmt = GXTFileFormat::Three;
    let cu = custom_none();
    let tbl = doc.main_table.data@;
    let n = tbl.len() as int;
    let toks = spec_doc_entries(tbl, fmt, cu);
    assert forall|i: int| 0 <= i < n implies spec_entry_kind_ok(fmt, #[trigger] toks[i]) by {
        assert(toks[i].name == spec_doc_token(tbl[i].0@, fmt));
    }
    lemma_sort_entries_identity(toks);
    lemma_entries_bytes_len(toks, fmt);
    let ebytes = spec_entries_bytes(toks);
    let d0 = spec_table_data(tbl, fmt, cu).unwrap();
    let d = spec_padded_table_data(tbl, fmt, cu).unwrap();
    assert(spec_pad_len(fmt, d0.len()) == 0);
    assert(d =~= d0);
    let bytes = spec_file_bytes(doc, cu);
    assert(doc.aux_tables@.len() == 0);
    assert(spec_header_bytes(doc, cu) == Seq::<u8>::empty());
    assert(spec_aux_blocks_bytes(doc, cu, 0) == Seq::<u8>::empty());
    let blk = spec_doc_block_bytes(tbl, fmt, cu, None);
    assert(bytes =~= blk);
    let size32 = (tbl.len() * fmt.spec_key_entry_size()) as u32;
    assert(size32 as int == n * 12);
    assert(bytes.len() == 8 + n * 12 + 8 + d0.len());
    assert(bytes.subrange(0, 4) =~= spec_magic_tkey());
    assert(bytes.subrange(4, 8) =~= spec_u32_le_bytes(size32));
    lemma_le_u32_roundtrip(size32, bytes, 4);
    assert((n * 12) / 12 == n) by (nonlinear_arith);
    assert(spec_tkey_ok(bytes, 0, false, fmt));
    assert(bytes.subrange(8, 8 + n * 12) =~= ebytes);
    assert forall|i: int| 0 <= i < n implies spec_tkey_entry_at(bytes, 8 + 12 * i, fmt)
        == toks[i] by {
        lemma_entries_bytes_at(toks, fmt, i);
        assert(12 * i + 12 <= n * 12) by (nonlinear_arith)
            requires
                i + 1 <= n,
        ;
        assert(12 * i >= 0) by (nonlinear_arith)
            requires
                i >= 0,
        ;
        assert(bytes.subrange(8 + 12 * i, 8 + 12 * i + 12) =~= ebytes.subrange(
            12 * i,
            12 * i + 12,
        )) by {
            assert forall|q: int| 0 <= q < 12 implies #[trigger] bytes[8 + 12 * i + q]
                == ebytes[12 * i + q] by {
                assert(bytes.subrange(8, 8 + n * 12)[12 * i + q] == ebytes[12 * i + q]);
            }
        }
        assert(ebytes.subrange(i * 12, i * 12 + 12) == spec_entry_bytes(toks[i]));
        lemma_entry_slot_roundtrip(bytes, 8 + 12 * i, toks[i], fmt);
    }
    assert(spec_tkey_entries(bytes, 8, n, fmt) =~= toks);
    let tdat = 0 + size32 as int + 8;
    assert(tdat == 8 + n * 12);
    assert(bytes.subrange(tdat, tdat + 4) =~= spec_magic_tdat());
    let sbase = tdat + 8;
    assert(bytes.subrange(sbase, sbase + d0.len()) =~= d0);
    assert forall|a: int, b: int| 0 <= a < b < n implies (#[trigger] tbl[a]).0@ != (
    #[trigger] tbl[b]).0@ by {
        assert(doc.main_table.wf());
    }
    lemma_tdat_views_of_compiled(bytes, tbl, sbase, fmt, list, n);
    assert(toks.take(n) =~= toks);
    let triples = Seq::new(n as nat, |i: int| (tbl[i].0@, tbl[i].1@, toks[i].offset));
    assert(spec_table_block_views(bytes, fmt, 0, false, None, cu, list) == Some(triples));
    assert(spec_detect_format(bytes) == Some(fmt));
}

/// Round trip for the single-table variant: a well-formed, compilable
/// document whose entries already stand in ascending token order, whose names
/// render back to themselves and whose values read back, parses from its own
/// compiled bytes — under native ordering — to exactly the same table.
pub proof fn lemma_three_round_trip(doc: GXTFile, list: Option<Seq<(u32, String)>>)
    requires
        doc.wf(),
        doc.format == GXTFileFormat::Three,
        spec_compile_ok(doc, custom_none()),
        spec_entries_sorted(
            spec_doc_entries(doc.main_table.data@, GXTFileFormat::Three, custom_none()),
        ),
        forall|i: int|
            0 <= i < doc.main_table.data@.len() ==> spec_string_from_name(
                spec_doc_token((#[trigger] doc.main_table.data@[i]).0@, GXTFileFormat::Three),
                list,
            ) == doc.main_table.data@[i].0@,
        forall|i: int|
            0 <= i < doc.main_table.data@.len() ==> spec_value_reads_back(
                GXTFileFormat::Three,
                (#[trigger] doc.main_table.data@[i]).1@,
            ),
    ensures
        spec_parse_ok(spec_file_bytes(doc, custom_none()), None, custom_none(), list),
        spec_block_table(
            spec_file_bytes(doc, custom_none()),
            GXTFileFormat::Three,
            0,
            false,
            None,
            custom_none(),
            list,
        ) == spec_pairs_view(doc.main_table.data@),
{
    let fmt = GXTFileFormat::Three;
    let cu = custom_none();
    let tbl = doc.main_table.data@;
    let toks = spec_doc_entries(tbl, fmt, cu);
    let bytes = spec_file_bytes(doc, cu);
    lemma_three_block_structure(doc, list);
    let triples = Seq::new(tbl.len(), |i: int| (tbl[i].0@, tbl[i].1@, toks[i].offset));
    assert(spec_parse_ok(bytes, None, cu, list));
    assert forall|a: int, b: int| 0 <= a < b < triples.len() implies (#[trigger] triples[a]).0 != (
    #[trigger] triples[b]).0 by {
        assert(tbl[a].0@ != tbl[b].0@);
    }
    lemma_views_to_table_distinct(triples);
    assert(spec_block_table(bytes, fmt, 0, false, None, cu, list) =~= spec_pairs_view(tbl));
}

} // verus!
