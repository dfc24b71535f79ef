//! The binary parser: reads the table of contents, the key-index blocks and
//! the data blocks of a GXT file into the in-memory document, strictly
//! sequentially, with no recovery — any bad magic number, wrong header field
//! or truncated read is fatal.

use vstd::prelude::*;
use crate::bytes::match_tag4;
use crate::bytes::read_u16_le;
use crate::bytes::spec_le_u16_at;
use crate::bytes::spec_magic_tdat;
use crate::charcodec::GXTCharacterTable;
use crate::charcodec::decode_character;
use crate::charcodec::spec_decode_char;
use crate::model::GXTFile;
use crate::model::GXTStringTable;
use crate::model::spec_table_insert;
use crate::names::spec_name_list_view;
use crate::names::spec_string_from_name;
use crate::names::string_from_name;
use crate::strutil::spec_chars_le;
use crate::strutil::str_eq;
use crate::strutil::str_le;
use crate::bytes::read_name8;
use crate::bytes::read_u32_le;
use crate::bytes::spec_le_u32_at;
use crate::bytes::spec_magic_tabl;
use crate::bytes::spec_magic_tkey;
use crate::bytes::spec_main_name;
use crate::bytes::spec_name8_at;
use crate::compiler::GXTInternalTKEY;
use crate::compiler::GXTInternalTKEYEntry;
use crate::compiler::spec_sort_entries;
use crate::compiler::sort_entries;
use crate::error::GXTError;
use crate::format::GXTFileFormat;
use crate::format::ImportOrdering;
use crate::names::GXTStringName;
use crate::names::spec_bytes_le;

verus! {

/// One table-of-contents entry: a raw 8-byte table name and the absolute file
/// offset of the table's key-index block.
#[derive(Clone, Copy, Debug)]
pub struct GXTInternalTABLEntry {
    /// The raw table name.
    pub name: [u8; 8],
    /// Absolute file offset of the table's key-index block.
    pub offset: u32,
    /// Whether this is the main table: the first entry, named `"MAIN"`.
    pub is_main: bool,
}

/// The table-of-contents section.
#[derive(Clone, Debug)]
pub struct GXTInternalTABL {
    /// Size of the entry array in bytes.
    pub size: u32,
    /// The entries, in file order.
    pub entries: Vec<GXTInternalTABLEntry>,
}

/// The table-of-contents entry stored at position `p`, as entry number `idx`.
pub open spec fn spec_tabl_entry_at(data: Seq<u8>, p: int, idx: int) -> GXTInternalTABLEntry {
    GXTInternalTABLEntry {
        name: spec_name8_at(data, p),
        offset: spec_le_u32_at(data, p + 8),
        is_main: idx == 0 && spec_name8_at(data, p)@ == spec_main_name(),
    }
}

/// The `n` table-of-contents entries stored from position `pos`, 12 bytes
/// each.
pub open spec fn spec_tabl_entries(data: Seq<u8>, pos: int, n: int) -> Seq<GXTInternalTABLEntry> {
    Seq::new(n as nat, |i: int| spec_tabl_entry_at(data, pos + 12 * i, i))
}

/// Whether a well-formed table-of-contents section lies at `pos`: the `"TABL"`
/// magic, a size field, and as many whole 12-byte entries as the size declares.
pub open spec fn spec_tabl_ok(data: Seq<u8>, pos: int) -> bool {
    &&& pos + 8 <= data.len()
    &&& data.subrange(pos, pos + 4) == spec_magic_tabl()
    &&& pos + 8 + 12 * (spec_le_u32_at(data, pos + 4) / 12) <= data.len()
}

/// Reads the table-of-contents section at `pos`: a count-prefixed array of
/// (8-byte name, 4-byte offset) pairs.  Fails on a bad magic number or a
/// truncated read.
pub fn gxt_read_tabl(data: &[u8], pos: usize) -> (r: Result<GXTInternalTABL, GXTError>)
    ensures
        r is Ok <==> spec_tabl_ok(data@, pos as int),
        r matches Ok(t) ==> {
            &&& t.size == spec_le_u32_at(data@, pos as int + 4)
            &&& t.entries@ == spec_tabl_entries(
                data@,
                pos as int + 8,
                spec_le_u32_at(data@, pos as int + 4) as int / 12,
            )
        },
        r matches Err(e) ==> e is ParsingError,
{
    if pos > data.len() || data.len() - pos < 8 {
        let mut msg = String::new();
        msg.append("Truncated TABL header");
        return Err(GXTError::ParsingError(msg));
    }
    if !match_tag4(data, pos, 84, 65, 66, 76) {
        let mut msg = String::new();
        msg.append("Invalid TABL header");
        return Err(GXTError::ParsingError(msg));
    }
    let size = read_u32_le(data, pos + 4);
    let count = size / 12;
    if ((data.len() - pos - 8) as u64) < 12 * (count as u64) {
        let mut msg = String::new();
        msg.append("Truncated TABL section");
        return Err(GXTError::ParsingError(msg));
    }
    let base = pos + 8;
    let dlen = data.len();
    let mut entries: Vec<GXTInternalTABLEntry> = Vec::new();
    let mut index: usize = 0;
    proof {
        assert(entries@ =~= spec_tabl_entries(data@, base as int, 0));
    }
    while index < count as usize
        invariant
            base == pos + 8,
            dlen == data@.len(),
            base + 12 * (count as int) <= dlen,
            index <= count as usize,
            entries@ == spec_tabl_entries(data@, base as int, index as int),
        decreases count as usize - index,
    {
        proof {
            assert(12 * (index as int) + 12 <= 12 * (count as int)) by (nonlinear_arith)
                requires
                    index as int + 1 <= count as int,
            ;
            assert(12 * (index as int) >= 0) by (nonlinear_arith)
                requires
                    index as int >= 0,
            ;
        }
        let p = base + 12 * index;
        let raw_name = read_name8(data, p);
        let offset = read_u32_le(data, p + 8);
        let is_main = index == 0 && raw_name[0] == 77 && raw_name[1] == 65 && raw_name[2] == 73
            && raw_name[3] == 78 && raw_name[4] == 0 && raw_name[5] == 0 && raw_name[6] == 0
            && raw_name[7] == 0;
        proof {
            if raw_name[0] == 77 && raw_name[1] == 65 && raw_name[2] == 73 && raw_name[3] == 78
                && raw_name[4] == 0 && raw_name[5] == 0 && raw_name[6] == 0 && raw_name[7] == 0 {
                assert(raw_name@ =~= spec_main_name());
            } else {
                assert(raw_name@ != spec_main_name()) by {
                    if raw_name@ == spec_main_name() {
                        assert(raw_name@[0] == 77 && raw_name@[1] == 65 && raw_name@[2] == 73
                            && raw_name@[3] == 78 && raw_name@[4] == 0 && raw_name@[5] == 0
                            && raw_name@[6] == 0 && raw_name@[7] == 0);
                    }
                }
            }
        }
        entries.push(GXTInternalTABLEntry { name: raw_name, offset, is_main });
        proof {
            assert(entries@ =~= spec_tabl_entries(data@, base as int, index as int + 1));
        }
        index = index + 1;
    }
    Ok(GXTInternalTABL { size, entries })
}

/// Stable insertion of an entry into an offset-sorted entry list.
pub open spec fn spec_sorted_insert_by_offset(
    s: Seq<GXTInternalTKEYEntry>,
    e: GXTInternalTKEYEntry,
) -> Seq<GXTInternalTKEYEntry>
    decreases s.len(),
{
    if s.len() == 0 {
        seq![e]
    } else if s.last().offset <= e.offset {
        s.push(e)
    } else {
        spec_sorted_insert_by_offset(s.drop_last(), e).push(s.last())
    }
}

/// Key-index entries stably sorted ascending by data offset.
pub open spec fn spec_sort_entries_by_offset(s: Seq<GXTInternalTKEYEntry>) -> Seq<
    GXTInternalTKEYEntry,
>
    decreases s.len(),
{
    if s.len() == 0 {
        Seq::<GXTInternalTKEYEntry>::empty()
    } else {
        spec_sorted_insert_by_offset(spec_sort_entries_by_offset(s.drop_last()), s.last())
    }
}

/// Inserting at the position found by a backwards scan matches the stable
/// insertion by offset.
proof fn lemma_sorted_insert_by_offset_at(
    s: Seq<GXTInternalTKEYEntry>,
    e: GXTInternalTKEYEntry,
    pos: int,
)
    requires
        0 <= pos <= s.len(),
        forall|k: int| pos <= k < s.len() ==> !((#[trigger] s[k]).offset <= e.offset),
        pos > 0 ==> s[pos - 1].offset <= e.offset,
    ensures
        spec_sorted_insert_by_offset(s, e) == s.take(pos).push(e) + s.skip(pos),
    decreases s.len(),
{
    if pos == s.len() {
        if s.len() == 0 {
            assert(seq![e] =~= s.take(0).push(e) + s.skip(0));
        } else {
            assert(s.push(e) =~= s.take(pos).push(e) + s.skip(pos));
        }
    } else {
        lemma_sorted_insert_by_offset_at(s.drop_last(), e, pos);
        assert(s.drop_last().take(pos) =~= s.take(pos));
        assert((s.drop_last().take(pos).push(e) + s.drop_last().skip(pos)).push(s.last())
            =~= s.take(pos).push(e) + s.skip(pos));
    }
}

/// Returns the entries stably sorted ascending by data offset.
fn sort_entries_by_offset(entries: &Vec<GXTInternalTKEYEntry>) -> (r: Vec<GXTInternalTKEYEntry>)
    ensures
        r@ == spec_sort_entries_by_offset(entries@),
{
    let n = entries.len();
    let mut out: Vec<GXTInternalTKEYEntry> = Vec::new();
    let mut i: usize = 0;
    proof {
        assert(entries@.take(0) =~= Seq::<GXTInternalTKEYEntry>::empty());
    }
    while i < n
        invariant
            n == entries@.len(),
            i <= n,
            out@ == spec_sort_entries_by_offset(entries@.take(i as int)),
        decreases n - i,
    {
        let e = entries[i];
        proof {
            assert(entries@.take(i as int + 1).drop_last() =~= entries@.take(i as int));
            assert(entries@.take(i as int + 1).last() == entries@[i as int]);
        }
        let mut pos: usize = out.len();
        while pos > 0 && !(out[pos - 1].offset <= e.offset)
            invariant
                pos <= out@.len(),
                e == entries@[i as int],
                forall|k: int|
                    pos <= k < out@.len() ==> !((#[trigger] out@[k]).offset <= e.offset),
            decreases pos,
        {
            pos = pos - 1;
        }
        proof {
            lemma_sorted_insert_by_offset_at(out@, e, pos as int);
            assert(out@.insert(pos as int, e) =~= out@.take(pos as int).push(e) + out@.skip(
                pos as int,
            ));
        }
        out.insert(pos, e);
        i = i + 1;
    }
    proof {
        assert(entries@.take(n as int) =~= entries@);
    }
    out
}

/// The key-index entry stored at position `p`: a 4-byte data offset and a
/// name token of the variant's kind.
pub open spec fn spec_tkey_entry_at(
    data: Seq<u8>,
    p: int,
    format: GXTFileFormat,
) -> GXTInternalTKEYEntry {
    GXTInternalTKEYEntry {
        offset: spec_le_u32_at(data, p),
        name: if format.spec_uses_text_names() {
            GXTStringName::Text(spec_name8_at(data, p + 4))
        } else {
            GXTStringName::CRC32(spec_le_u32_at(data, p + 4))
        },
    }
}

/// The `n` key-index entries stored from position `pos`.
pub open spec fn spec_tkey_entries(data: Seq<u8>, pos: int, n: int, format: GXTFileFormat) -> Seq<
    GXTInternalTKEYEntry,
> {
    Seq::new(n as nat, |i: int| spec_tkey_entry_at(data, pos + format.spec_key_entry_size() * i, format))
}

/// The entry order that an import-ordering mode leaves behind.
pub open spec fn spec_apply_entry_ordering(
    ordering: Option<ImportOrdering>,
    s: Seq<GXTInternalTKEYEntry>,
) -> Seq<GXTInternalTKEYEntry> {
    match ordering {
        None | Some(ImportOrdering::Native) => s,
        Some(ImportOrdering::Key) => spec_sort_entries(s),
        Some(ImportOrdering::Offset) => spec_sort_entries_by_offset(s),
    }
}

/// Whether a well-formed key-index block lies at `base`: an 8-byte name for a
/// non-main block, the `"TKEY"` magic, a size field, and as many whole entries
/// as the size declares.
pub open spec fn spec_tkey_ok(
    data: Seq<u8>,
    base: int,
    named: bool,
    format: GXTFileFormat,
) -> bool {
    let hdr = base + (if named {
        8int
    } else {
        0int
    });
    let es = format.spec_key_entry_size() as int;
    &&& hdr + 8 <= data.len()
    &&& data.subrange(hdr, hdr + 4) == spec_magic_tkey()
    &&& hdr + 8 + es * (spec_le_u32_at(data, hdr + 4) as int / es) <= data.len()
}

/// Reads the key-index block at `offset` (at the start of the file when
/// `None`): an 8-byte name for every non-main block, then a count-prefixed
/// array of (data offset, name token) pairs, optionally resorted by the
/// import-ordering mode.  Fails on a bad magic number or a truncated read.
pub fn gxt_read_tkey(
    data: &[u8],
    format: &GXTFileFormat,
    name: Option<[u8; 8]>,
    offset: Option<u32>,
    ordering: &Option<ImportOrdering>,
) -> (r: Result<GXTInternalTKEY, GXTError>)
    ensures
        ({
            let base = (match offset {
                Some(o) => o,
                None => 0u32,
            }) as int;
            &&& (r is Ok <==> spec_tkey_ok(data@, base, name is Some, *format))
            &&& (r matches Ok(t) ==> {
                let hdr = base + (if name is Some {
                    8int
                } else {
                    0int
                });
                let size = spec_le_u32_at(data@, hdr + 4);
                let count = size as int / format.spec_key_entry_size() as int;
                &&& t.offset as int == base
                &&& (match t.name {
                    Some(nm) => name is Some && nm == spec_name8_at(data@, base),
                    None => name is None,
                })
                &&& t.size == size
                &&& t.entries@ == spec_apply_entry_ordering(
                    *ordering,
                    spec_tkey_entries(data@, hdr + 8, count, *format),
                )
            })
            &&& (r matches Err(e) ==> e is ParsingError)
        }),
{
    let base: usize = match offset {
        Some(o) => o as usize,
        None => 0,
    };
    let name_len: usize = match name {
        Some(_) => 8,
        None => 0,
    };
    if base > data.len() || data.len() - base < name_len + 8 {
        let mut msg = String::new();
        msg.append("Truncated TKEY header");
        return Err(GXTError::ParsingError(msg));
    }
    let actual_name: Option<[u8; 8]> = match name {
        None => None,
        Some(_) => Some(read_name8(data, base)),
    };
    let hdr = base + name_len;
    if !match_tag4(data, hdr, 84, 75, 69, 89) {
        let mut msg = String::new();
        msg.append("Invalid TKEY header");
        return Err(GXTError::ParsingError(msg));
    }
    let size = read_u32_le(data, hdr + 4);
    let entry_size: u32 = format.key_entry_size();
    let count = size / entry_size;
    if ((data.len() - hdr - 8) as u64) < (entry_size as u64) * (count as u64) {
        let mut msg = String::new();
        msg.append("Truncated TKEY section");
        return Err(GXTError::ParsingError(msg));
    }
    let ebase = hdr + 8;
    let dlen = data.len();
    let mut entries: Vec<GXTInternalTKEYEntry> = Vec::new();
    let mut index: usize = 0;
    let ghost fmt = *format;
    proof {
        assert(entries@ =~= spec_tkey_entries(data@, ebase as int, 0, fmt));
    }
    while index < count as usize
        invariant
            fmt == *format,
            dlen == data@.len(),
            entry_size == fmt.spec_key_entry_size(),
            ebase + (entry_size as int) * (count as int) <= dlen,
            index <= count as usize,
            entries@ == spec_tkey_entries(data@, ebase as int, index as int, fmt),
        decreases count as usize - index,
    {
        proof {
            assert((entry_size as int) * (index as int) + entry_size as int <= (entry_size as int)
                * (count as int)) by (nonlinear_arith)
                requires
                    index as int + 1 <= count as int,
                    entry_size as int >= 0,
            ;
            assert((entry_size as int) * (index as int) >= 0) by (nonlinear_arith)
                requires
                    index as int >= 0,
                    entry_size as int >= 0,
            ;
        }
        let p = ebase + (entry_size as usize) * index;
        let e_offset = read_u32_le(data, p);
        let e_name: GXTStringName = if format.uses_text_names() {
            GXTStringName::Text(read_name8(data, p + 4))
        } else {
            GXTStringName::CRC32(read_u32_le(data, p + 4))
        };
        entries.push(GXTInternalTKEYEntry { offset: e_offset, name: e_name });
        proof {
            assert(entries@ =~= spec_tkey_entries(data@, ebase as int, index as int + 1, fmt));
        }
        index = index + 1;
    }
    let entries_ordered = match ordering {
        None => entries,
        Some(ImportOrdering::Native) => entries,
        Some(ImportOrdering::Key) => sort_entries(&entries),
        Some(ImportOrdering::Offset) => sort_entries_by_offset(&entries),
    };
    let tkey_offset: u32 = match offset {
        Some(o) => o,
        None => 0,
    };
    Ok(GXTInternalTKEY { name: actual_name, offset: tkey_offset, size, entries: entries_ordered })
}

} // verus!

verus! {

/// The string decoded from the data block starting at `p`: code units read
/// until a zero unit, each decoded through the character codec.  `None` when
/// the data ends before a terminator.
pub open spec fn spec_read_cstring(
    data: Seq<u8>,
    p: int,
    format: GXTFileFormat,
    custom: Option<GXTCharacterTable>,
) -> Option<Seq<char>>
    decreases data.len() - p,
{
    let w: int = if format.spec_uses_narrow_chars() {
        1
    } else {
        2
    };
    if p < 0 || p + w > data.len() {
        None
    } else {
        let unit: u16 = if format.spec_uses_narrow_chars() {
            data[p] as u16
        } else {
            spec_le_u16_at(data, p)
        };
        if unit == 0 {
            Some(Seq::<char>::empty())
        } else {
            match spec_read_cstring(data, p + w, format, custom) {
                None => None,
                Some(rest) => Some(seq![spec_decode_char(format, custom, unit)] + rest),
            }
        }
    }
}

/// An optional character sequence with a prefix prepended.
pub open spec fn spec_prepend_chars(prefix: Seq<char>, o: Option<Seq<char>>) -> Option<Seq<char>> {
    match o {
        None => None,
        Some(r) => Some(prefix + r),
    }
}

/// Reads one null-terminated string out of a data block.
fn read_cstring(
    data: &[u8],
    start: u64,
    format: &GXTFileFormat,
    custom_table: &Option<GXTCharacterTable>,
) -> (r: Result<String, GXTError>)
    ensures
        match r {
            Ok(s) => spec_read_cstring(data@, start as int, *format, *custom_table) == Some(s@),
            Err(e) => spec_read_cstring(data@, start as int, *format, *custom_table) is None
                && e is ParsingError,
        },
{
    let ghost fmt = *format;
    let ghost cust = *custom_table;
    let w: usize = if format.uses_narrow_chars() {
        1
    } else {
        2
    };
    let dlen = data.len();
    if start > dlen as u64 {
        let mut msg = String::new();
        msg.append("Truncated string data");
        return Err(GXTError::ParsingError(msg));
    }
    let mut pos: usize = start as usize;
    let mut out = String::new();
    proof {
        assert(Seq::<char>::empty() + Seq::<char>::empty() =~= Seq::<char>::empty());
        assert(spec_read_cstring(data@, pos as int, fmt, cust) == spec_prepend_chars(
            out@,
            spec_read_cstring(data@, pos as int, fmt, cust),
        )) by {
            match spec_read_cstring(data@, pos as int, fmt, cust) {
                None => {},
                Some(rest) => {
                    assert(out@ + rest =~= rest);
                },
            }
        }
    }
    loop
        invariant
            fmt == *format,
            cust == *custom_table,
            w == (if fmt.spec_uses_narrow_chars() {
                1int
            } else {
                2int
            }),
            dlen == data@.len(),
            pos <= dlen,
            spec_read_cstring(data@, start as int, fmt, cust) == spec_prepend_chars(
                out@,
                spec_read_cstring(data@, pos as int, fmt, cust),
            ),
        decreases dlen - pos,
    {
        if dlen - pos < w {
            let mut msg = String::new();
            msg.append("Truncated string data");
            return Err(GXTError::ParsingError(msg));
        }
        let unit: u16 = if w == 1 {
            data[pos] as u16
        } else {
            read_u16_le(data, pos)
        };
        if unit == 0 {
            proof {
                assert(spec_read_cstring(data@, pos as int, fmt, cust) == Some(
                    Seq::<char>::empty(),
                ));
                assert(out@ + Seq::<char>::empty() =~= out@);
            }
            return Ok(out);
        }
        let c = decode_character(unit, format, custom_table);
        let ghost before = out@;
        out.push(c);
        proof {
            let tail = spec_read_cstring(data@, pos as int + w as int, fmt, cust);
            assert(spec_read_cstring(data@, pos as int, fmt, cust) == spec_prepend_chars(
                seq![spec_decode_char(fmt, cust, unit)],
                tail,
            ));
            match tail {
                None => {},
                Some(rest) => {
                    assert(before + (seq![spec_decode_char(fmt, cust, unit)] + rest) =~= out@
                        + rest);
                },
            }
        }
        pos = pos + w;
    }
}

/// Inserting `name = value` (with its data offset) into a view-level table:
/// an existing name is replaced in place, a new one appended.
pub open spec fn spec_view_insert3(
    t: Seq<(Seq<char>, Seq<char>, u32)>,
    name: Seq<char>,
    value: Seq<char>,
    off: u32,
) -> Seq<(Seq<char>, Seq<char>, u32)>
    decreases t.len(),
{
    if t.len() == 0 {
        seq![(name, value, off)]
    } else if t[0].0 == name {
        seq![(name, value, off)] + t.drop_first()
    } else {
        seq![t[0]] + spec_view_insert3(t.drop_first(), name, value, off)
    }
}

/// The view-level contents of a data block read through a key index: for each
/// entry, in order, the display name, the decoded value and the data offset,
/// with duplicate names replaced in place.  `None` when a string is truncated.
pub open spec fn spec_tdat_views(
    data: Seq<u8>,
    entries: Seq<GXTInternalTKEYEntry>,
    sbase: int,
    format: GXTFileFormat,
    custom: Option<GXTCharacterTable>,
    list: Option<Seq<(u32, String)>>,
) -> Option<Seq<(Seq<char>, Seq<char>, u32)>>
    decreases entries.len(),
{
    if entries.len() == 0 {
        Some(Seq::<(Seq<char>, Seq<char>, u32)>::empty())
    } else {
        match spec_tdat_views(data, entries.drop_last(), sbase, format, custom, list) {
            None => None,
            Some(t) => match spec_read_cstring(data, sbase + entries.last().offset, format, custom) {
                None => None,
                Some(v) => Some(
                    spec_view_insert3(
                        t,
                        spec_string_from_name(entries.last().name, list),
                        v,
                        entries.last().offset,
                    ),
                ),
            },
        }
    }
}

/// A prefix of a readable data block is also readable.
proof fn lemma_tdat_views_prefix(
    data: Seq<u8>,
    entries: Seq<GXTInternalTKEYEntry>,
    sbase: int,
    format: GXTFileFormat,
    custom: Option<GXTCharacterTable>,
    list: Option<Seq<(u32, String)>>,
    k: int,
)
    requires
        spec_tdat_views(data, entries, sbase, format, custom, list) is Some,
        0 <= k <= entries.len(),
    ensures
        spec_tdat_views(data, entries.take(k), sbase, format, custom, list) is Some,
    decreases entries.len(),
{
    if k == entries.len() {
        assert(entries.take(k) =~= entries);
    } else {
        assert(entries.drop_last() =~= entries.take(entries.len() - 1));
        assert(entries.take(k) =~= entries.drop_last().take(k));
        lemma_tdat_views_prefix(data, entries.drop_last(), sbase, format, custom, list, k);
    }
}

/// The view of an exec triple list.
pub open spec fn spec_v3_view(s: Seq<(String, String, u32)>) -> Seq<(Seq<char>, Seq<char>, u32)> {
    s.map_values(|t: (String, String, u32)| (t.0@, t.1@, t.2))
}

/// Inserts `name = value` with its offset into the triple list, replacing an
/// existing name in place.
fn triples_insert(triples: &mut Vec<(String, String, u32)>, name: String, value: String, off: u32)
    ensures
        spec_v3_view(final(triples)@) == spec_view_insert3(
            spec_v3_view(old(triples)@),
            name@,
            value@,
            off,
        ),
{
    let n = triples.len();
    let mut i: usize = 0;
    while i < n
        invariant
            triples@ == old(triples)@,
            n == triples@.len(),
            i <= n,
            forall|j: int| 0 <= j < i ==> (#[trigger] triples@[j]).0@ != name@,
        decreases n - i,
    {
        if str_eq(triples[i].0.as_str(), name.as_str()) {
            proof {
                lemma_view_insert3_hit(spec_v3_view(triples@), name@, value@, off, i as int);
            }
            let ghost ov = spec_v3_view(triples@);
            triples[i] = (name, value, off);
            proof {
                assert(spec_v3_view(triples@) =~= ov.update(
                    i as int,
                    (triples@[i as int].0@, triples@[i as int].1@, triples@[i as int].2),
                ));
            }
            return ;
        }
        i = i + 1;
    }
    proof {
        lemma_view_insert3_miss(spec_v3_view(triples@), name@, value@, off);
    }
    let ghost ov = spec_v3_view(triples@);
    triples.push((name, value, off));
    proof {
        assert(spec_v3_view(triples@) =~= ov.push(
            (triples@[triples@.len() - 1].0@, triples@[triples@.len() - 1].1@, triples@[triples@.len()
                - 1].2),
        ));
    }
}

/// Inserting a fresh name appends it.
pub proof fn lemma_view_insert3_miss(
    t: Seq<(Seq<char>, Seq<char>, u32)>,
    name: Seq<char>,
    value: Seq<char>,
    off: u32,
)
    requires
        forall|j: int| 0 <= j < t.len() ==> (#[trigger] t[j]).0 != name,
    ensures
        spec_view_insert3(t, name, value, off) == t.push((name, value, off)),
    decreases t.len(),
{
    if t.len() == 0 {
        assert(seq![(name, value, off)] =~= t.push((name, value, off)));
    } else {
        lemma_view_insert3_miss(t.drop_first(), name, value, off);
        assert(seq![t[0]] + t.drop_first().push((name, value, off)) =~= t.push(
            (name, value, off),
        ));
    }
}

/// Inserting an existing name replaces its entry in place.
proof fn lemma_view_insert3_hit(
    t: Seq<(Seq<char>, Seq<char>, u32)>,
    name: Seq<char>,
    value: Seq<char>,
    off: u32,
    i: int,
)
    requires
        0 <= i < t.len(),
        t[i].0 == name,
        forall|j: int| 0 <= j < i ==> (#[trigger] t[j]).0 != name,
    ensures
        spec_view_insert3(t, name, value, off) == t.update(i, (name, value, off)),
    decreases i,
{
    if i == 0 {
        assert(seq![(name, value, off)] + t.drop_first() =~= t.update(0, (name, value, off)));
    } else {
        lemma_view_insert3_hit(t.drop_first(), name, value, off, i - 1);
        assert(seq![t[0]] + t.drop_first().update(i - 1, (name, value, off)) =~= t.update(
            i,
            (name, value, off),
        ));
    }
}

} // verus!

verus! {

/// Stable insertion of a view triple into a list sorted by name.
pub open spec fn spec_v3_sorted_insert_name(
    s: Seq<(Seq<char>, Seq<char>, u32)>,
    e: (Seq<char>, Seq<char>, u32),
) -> Seq<(Seq<char>, Seq<char>, u32)>
    decreases s.len(),
{
    if s.len() == 0 {
        seq![e]
    } else if spec_chars_le(s.last().0, e.0) {
        s.push(e)
    } else {
        spec_v3_sorted_insert_name(s.drop_last(), e).push(s.last())
    }
}

/// View triples stably sorted ascending by name.
pub open spec fn spec_v3_sort_name(s: Seq<(Seq<char>, Seq<char>, u32)>) -> Seq<
    (Seq<char>, Seq<char>, u32),
>
    decreases s.len(),
{
    if s.len() == 0 {
        Seq::<(Seq<char>, Seq<char>, u32)>::empty()
    } else {
        spec_v3_sorted_insert_name(spec_v3_sort_name(s.drop_last()), s.last())
    }
}

/// Stable insertion of a view triple into a list sorted by data offset.
pub open spec fn spec_v3_sorted_insert_offset(
    s: Seq<(Seq<char>, Seq<char>, u32)>,
    e: (Seq<char>, Seq<char>, u32),
) -> Seq<(Seq<char>, Seq<char>, u32)>
    decreases s.len(),
{
    if s.len() == 0 {
        seq![e]
    } else if s.last().2 <= e.2 {
        s.push(e)
    } else {
        spec_v3_sorted_insert_offset(s.drop_last(), e).push(s.last())
    }
}

/// View triples stably sorted ascending by data offset.
pub open spec fn spec_v3_sort_offset(s: Seq<(Seq<char>, Seq<char>, u32)>) -> Seq<
    (Seq<char>, Seq<char>, u32),
>
    decreases s.len(),
{
    if s.len() == 0 {
        Seq::<(Seq<char>, Seq<char>, u32)>::empty()
    } else {
        spec_v3_sorted_insert_offset(spec_v3_sort_offset(s.drop_last()), s.last())
    }
}

/// Inserting at the position found by a backwards scan matches the stable
/// insertion by name.
proof fn lemma_v3_insert_name_at(
    s: Seq<(Seq<char>, Seq<char>, u32)>,
    e: (Seq<char>, Seq<char>, u32),
    pos: int,
)
    requires
        0 <= pos <= s.len(),
        forall|k: int| pos <= k < s.len() ==> !spec_chars_le((#[trigger] s[k]).0, e.0),
        pos > 0 ==> spec_chars_le(s[pos - 1].0, e.0),
    ensures
        spec_v3_sorted_insert_name(s, e) == s.take(pos).push(e) + s.skip(pos),
    decreases s.len(),
{
    if pos == s.len() {
        if s.len() == 0 {
            assert(seq![e] =~= s.take(0).push(e) + s.skip(0));
        } else {
            assert(s.push(e) =~= s.take(pos).push(e) + s.skip(pos));
        }
    } else {
        lemma_v3_insert_name_at(s.drop_last(), e, pos);
        assert(s.drop_last().take(pos) =~= s.take(pos));
        assert((s.drop_last().take(pos).push(e) + s.drop_last().skip(pos)).push(s.last())
            =~= s.take(pos).push(e) + s.skip(pos));
    }
}

/// Inserting at the position found by a backwards scan matches the stable
/// insertion by offset.
proof fn lemma_v3_insert_offset_at(
    s: Seq<(Seq<char>, Seq<char>, u32)>,
    e: (Seq<char>, Seq<char>, u32),
    pos: int,
)
    requires
        0 <= pos <= s.len(),
        forall|k: int| pos <= k < s.len() ==> !((#[trigger] s[k]).2 <= e.2),
        pos > 0 ==> s[pos - 1].2 <= e.2,
    ensures
        spec_v3_sorted_insert_offset(s, e) == s.take(pos).push(e) + s.skip(pos),
    decreases s.len(),
{
    if pos == s.len() {
        if s.len() == 0 {
            assert(seq![e] =~= s.take(0).push(e) + s.skip(0));
        } else {
            assert(s.push(e) =~= s.take(pos).push(e) + s.skip(pos));
        }
    } else {
        lemma_v3_insert_offset_at(s.drop_last(), e, pos);
        assert(s.drop_last().take(pos) =~= s.take(pos));
        assert((s.drop_last().take(pos).push(e) + s.drop_last().skip(pos)).push(s.last())
            =~= s.take(pos).push(e) + s.skip(pos));
    }
}

/// Returns the triples stably sorted ascending by name.
fn sort_triples_by_name(input: Vec<(String, String, u32)>) -> (r: Vec<(String, String, u32)>)
    ensures
        spec_v3_view(r@) == spec_v3_sort_name(spec_v3_view(input@)),
{
    let mut input = input;
    let mut out: Vec<(String, String, u32)> = Vec::new();
    let ghost orig = spec_v3_view(input@);
    let ghost done: int = 0;
    proof {
        assert(orig.take(0) =~= Seq::<(Seq<char>, Seq<char>, u32)>::empty());
    }
    let mut i: usize = 0;
    let n = input.len();
    while i < n
        invariant
            n == orig.len(),
            i <= n,
            input@.len() == n - i,
            spec_v3_view(input@) == orig.skip(i as int),
            spec_v3_view(out@) == spec_v3_sort_name(orig.take(i as int)),
        decreases n - i,
    {
        proof {
            assert(spec_v3_view(input@)[0] == orig[i as int]);
            assert(orig.take(i as int + 1).drop_last() =~= orig.take(i as int));
            assert(orig.take(i as int + 1).last() == orig[i as int]);
        }
        let ghost before_in = input@;
        let e = input.remove(0);
        proof {
            assert(input@ =~= before_in.drop_first());
            assert(spec_v3_view(input@) =~= spec_v3_view(before_in).drop_first());
            assert(spec_v3_view(before_in).drop_first() =~= orig.skip(i as int + 1));
            assert((e.0@, e.1@, e.2) == orig[i as int]);
        }
        let mut pos: usize = out.len();
        while pos > 0 && !str_le(out[pos - 1].0.as_str(), e.0.as_str())
            invariant
                pos <= out@.len(),
                forall|k: int|
                    pos <= k < out@.len() ==> !spec_chars_le(
                        (#[trigger] spec_v3_view(out@)[k]).0,
                        e.0@,
                    ),
            decreases pos,
        {
            pos = pos - 1;
        }
        proof {
            lemma_v3_insert_name_at(spec_v3_view(out@), (e.0@, e.1@, e.2), pos as int);
            assert(spec_v3_view(out@).take(pos as int).push((e.0@, e.1@, e.2)) + spec_v3_view(
                out@,
            ).skip(pos as int) =~= spec_v3_view(out@).insert(pos as int, (e.0@, e.1@, e.2)));
        }
        let ghost before_out = spec_v3_view(out@);
        out.insert(pos, e);
        proof {
            assert(spec_v3_view(out@) =~= before_out.insert(
                pos as int,
                (out@[pos as int].0@, out@[pos as int].1@, out@[pos as int].2),
            ));
        }
        i = i + 1;
    }
    proof {
        assert(orig.take(n as int) =~= orig);
    }
    out
}

/// Returns the triples stably sorted ascending by data offset.
fn sort_triples_by_offset(input: Vec<(String, String, u32)>) -> (r: Vec<(String, String, u32)>)
    ensures
        spec_v3_view(r@) == spec_v3_sort_offset(spec_v3_view(input@)),
{
    let mut input = input;
    let mut out: Vec<(String, String, u32)> = Vec::new();
    let ghost orig = spec_v3_view(input@);
    proof {
        assert(orig.take(0) =~= Seq::<(Seq<char>, Seq<char>, u32)>::empty());
    }
    let mut i: usize = 0;
    let n = input.len();
    while i < n
        invariant
            n == orig.len(),
            i <= n,
            input@.len() == n - i,
            spec_v3_view(input@) == orig.skip(i as int),
            spec_v3_view(out@) == spec_v3_sort_offset(orig.take(i as int)),
        decreases n - i,
    {
        proof {
            assert(spec_v3_view(input@)[0] == orig[i as int]);
            assert(orig.take(i as int + 1).drop_last() =~= orig.take(i as int));
            assert(orig.take(i as int + 1).last() == orig[i as int]);
        }
        let ghost before_in = input@;
        let e = input.remove(0);
        proof {
            assert(input@ =~= before_in.drop_first());
            assert(spec_v3_view(input@) =~= spec_v3_view(before_in).drop_first());
            assert(spec_v3_view(before_in).drop_first() =~= orig.skip(i as int + 1));
            assert((e.0@, e.1@, e.2) == orig[i as int]);
        }
        let mut pos: usize = out.len();
        while pos > 0 && !(out[pos - 1].2 <= e.2)
            invariant
                pos <= out@.len(),
                forall|k: int|
                    pos <= k < out@.len() ==> !((#[trigger] spec_v3_view(out@)[k]).2 <= e.2),
            decreases pos,
        {
            pos = pos - 1;
        }
        proof {
            lemma_v3_insert_offset_at(spec_v3_view(out@), (e.0@, e.1@, e.2), pos as int);
            assert(spec_v3_view(out@).take(pos as int).push((e.0@, e.1@, e.2)) + spec_v3_view(
                out@,
            ).skip(pos as int) =~= spec_v3_view(out@).insert(pos as int, (e.0@, e.1@, e.2)));
        }
        let ghost before_out = spec_v3_view(out@);
        out.insert(pos, e);
        proof {
            assert(spec_v3_view(out@) =~= before_out.insert(
                pos as int,
                (out@[pos as int].0@, out@[pos as int].1@, out@[pos as int].2),
            ));
        }
        i = i + 1;
    }
    proof {
        assert(orig.take(n as int) =~= orig);
    }
    out
}

/// The string order that an import-ordering mode leaves a table's triples in.
pub open spec fn spec_apply_v3_ordering(
    ordering: Option<ImportOrdering>,
    s: Seq<(Seq<char>, Seq<char>, u32)>,
) -> Seq<(Seq<char>, Seq<char>, u32)> {
    match ordering {
        None | Some(ImportOrdering::Native) => s,
        Some(ImportOrdering::Key) => spec_v3_sort_name(s),
        Some(ImportOrdering::Offset) => spec_v3_sort_offset(s),
    }
}

/// Inserting `name = value` into a view-level pair table: an existing name is
/// replaced in place, a new one appended.
pub open spec fn spec_view_table_insert(
    t: Seq<(Seq<char>, Seq<char>)>,
    name: Seq<char>,
    value: Seq<char>,
) -> Seq<(Seq<char>, Seq<char>)>
    decreases t.len(),
{
    if t.len() == 0 {
        seq![(name, value)]
    } else if t[0].0 == name {
        seq![(name, value)] + t.drop_first()
    } else {
        seq![t[0]] + spec_view_table_insert(t.drop_first(), name, value)
    }
}

/// The view of a table's entry list.
pub open spec fn spec_pairs_view(s: Seq<(String, String)>) -> Seq<(Seq<char>, Seq<char>)> {
    s.map_values(|p: (String, String)| (p.0@, p.1@))
}

/// The table built from a triple list, in order, dropping the offsets.
pub open spec fn spec_views_to_table(ts: Seq<(Seq<char>, Seq<char>, u32)>) -> Seq<
    (Seq<char>, Seq<char>),
>
    decreases ts.len(),
{
    if ts.len() == 0 {
        Seq::<(Seq<char>, Seq<char>)>::empty()
    } else {
        spec_view_table_insert(spec_views_to_table(ts.drop_last()), ts.last().0, ts.last().1)
    }
}

/// Inserting into a table commutes with taking views.
proof fn lemma_pairs_view_insert(t: Seq<(String, String)>, name: String, value: String)
    ensures
        spec_pairs_view(spec_table_insert(t, name, value)) == spec_view_table_insert(
            spec_pairs_view(t),
            name@,
            value@,
        ),
    decreases t.len(),
{
    if t.len() == 0 {
        assert(spec_pairs_view(seq![(name, value)]) =~= seq![(name@, value@)]);
        assert(spec_view_table_insert(spec_pairs_view(t), name@, value@) =~= seq![(name@, value@)]);
    } else if t[0].0@ == name@ {
        assert(spec_pairs_view(t)[0].0 == t[0].0@);
        assert(spec_pairs_view(seq![(name, value)] + t.drop_first()) =~= seq![(name@, value@)]
            + spec_pairs_view(t).drop_first());
        assert(spec_view_table_insert(spec_pairs_view(t), name@, value@) == seq![(name@, value@)]
            + spec_pairs_view(t).drop_first()) by {
            assert(spec_pairs_view(t).drop_first() =~= spec_pairs_view(t.drop_first()));
            assert(seq![(name@, value@)] + spec_pairs_view(t).drop_first() =~= seq![
                (name@, value@),
            ] + spec_pairs_view(t.drop_first()));
        }
    } else {
        assert(spec_pairs_view(t)[0].0 == t[0].0@);
        lemma_pairs_view_insert(t.drop_first(), name, value);
        assert(spec_pairs_view(t.drop_first()) =~= spec_pairs_view(t).drop_first());
        assert(spec_pairs_view(seq![t[0]] + spec_table_insert(t.drop_first(), name, value))
            =~= seq![spec_pairs_view(t)[0]] + spec_pairs_view(
            spec_table_insert(t.drop_first(), name, value),
        ));
        assert(seq![spec_pairs_view(t)[0]] + spec_view_table_insert(
            spec_pairs_view(t).drop_first(),
            name@,
            value@,
        ) =~= spec_view_table_insert(spec_pairs_view(t), name@, value@));
    }
}

} // verus!

verus! {

/// The absolute file offset of the data block that follows a key-index block:
/// past the optional 8-byte name, the 8-byte key-index header and the entry
/// array.
pub open spec fn spec_tdat_base(tkey: GXTInternalTKEY, tkey_offset: Option<u32>) -> int {
    (match tkey_offset {
        Some(o) => o as int,
        None => 0int,
    }) + tkey.size + 8 + (if tkey.name is Some {
        8int
    } else {
        0int
    })
}

/// Whether a well-formed data block for this key index lies at its computed
/// offset, with every addressed string terminated inside the data.
pub open spec fn spec_tdat_ok(
    data: Seq<u8>,
    tkey: GXTInternalTKEY,
    tkey_offset: Option<u32>,
    format: GXTFileFormat,
    custom: Option<GXTCharacterTable>,
    list: Option<Seq<(u32, String)>>,
) -> bool {
    let tdat = spec_tdat_base(tkey, tkey_offset);
    &&& tdat + 8 <= data.len()
    &&& data.subrange(tdat, tdat + 4) == spec_magic_tdat()
    &&& spec_tdat_views(data, tkey.entries@, tdat + 8, format, custom, list) is Some
}

/// Reads the data block addressed by a key index into a string table: every
/// entry's name is recovered through the name codec, its value is decoded
/// through the character codec, and the table is finally resorted as the
/// import-ordering mode asks.  Fails on a bad magic number or a truncated
/// read.
pub fn gxt_read_tdat(
    data: &[u8],
    tkey: &GXTInternalTKEY,
    tkey_offset: Option<u32>,
    format: &GXTFileFormat,
    ordering: &Option<ImportOrdering>,
    custom_table: &Option<GXTCharacterTable>,
    name_list: &Option<Vec<(u32, String)>>,
) -> (r: Result<GXTStringTable, GXTError>)
    ensures
        r is Ok <==> spec_tdat_ok(
            data@,
            *tkey,
            tkey_offset,
            *format,
            *custom_table,
            spec_name_list_view(*name_list),
        ),
        r matches Ok(t) ==> t.wf() && spec_pairs_view(t.data@) == spec_views_to_table(
            spec_apply_v3_ordering(
                *ordering,
                spec_tdat_views(
                    data@,
                    tkey.entries@,
                    spec_tdat_base(*tkey, tkey_offset) + 8,
                    *format,
                    *custom_table,
                    spec_name_list_view(*name_list),
                ).unwrap(),
            ),
        ),
        r matches Err(e) ==> e is ParsingError,
{
    let ghost fmt = *format;
    let ghost cust = *custom_table;
    let ghost list = spec_name_list_view(*name_list);
    let base: u64 = match tkey_offset {
        Some(o) => o as u64,
        None => 0,
    };
    let name_skip: u64 = match tkey.name {
        Some(_) => 8,
        None => 0,
    };
    let tdat: u64 = base + tkey.size as u64 + 8 + name_skip;
    let dlen = data.len();
    if tdat + 8 > dlen as u64 {
        let mut msg = String::new();
        msg.append("Truncated TDAT header");
        return Err(GXTError::ParsingError(msg));
    }
    let tp = tdat as usize;
    if !match_tag4(data, tp, 84, 68, 65, 84) {
        let mut msg = String::new();
        msg.append("Invalid TDAT header");
        return Err(GXTError::ParsingError(msg));
    }
    let _declared_size = read_u32_le(data, tp + 4);
    let sbase: u64 = tdat + 8;
    let ghost full = tkey.entries@;
    let mut triples: Vec<(String, String, u32)> = Vec::new();
    let n = tkey.entries.len();
    let mut i: usize = 0;
    proof {
        assert(spec_v3_view(triples@) =~= Seq::<(Seq<char>, Seq<char>, u32)>::empty());
        assert(full.take(0) =~= Seq::<GXTInternalTKEYEntry>::empty());
    }
    while i < n
        invariant
            fmt == *format,
            cust == *custom_table,
            list == spec_name_list_view(*name_list),
            full == tkey.entries@,
            n == full.len(),
            i <= n,
            sbase <= 0x300000000,
            sbase as int == spec_tdat_base(*tkey, tkey_offset) + 8,
            dlen == data@.len(),
            spec_tdat_views(data@, full.take(i as int), sbase as int, fmt, cust, list) == Some(
                spec_v3_view(triples@),
            ),
        decreases n - i,
    {
        let e = tkey.entries[i];
        proof {
            assert(full.take(i as int + 1).drop_last() =~= full.take(i as int));
            assert(full.take(i as int + 1).last() == full[i as int]);
        }
        let name = string_from_name(&e.name, name_list);
        let value = match read_cstring(data, sbase + e.offset as u64, format, custom_table) {
            Ok(v) => v,
            Err(err) => {
                proof {
                    assert(spec_tdat_views(
                        data@,
                        full.take(i as int + 1),
                        sbase as int,
                        fmt,
                        cust,
                        list,
                    ) is None);
                    if spec_tdat_views(data@, full, sbase as int, fmt, cust, list) is Some {
                        lemma_tdat_views_prefix(
                            data@,
                            full,
                            sbase as int,
                            fmt,
                            cust,
                            list,
                            i as int + 1,
                        );
                    }
                }
                return Err(err);
            },
        };
        triples_insert(&mut triples, name, value, e.offset);
        i = i + 1;
    }
    proof {
        assert(full.take(n as int) =~= full);
    }
    let sorted: Vec<(String, String, u32)> = match ordering {
        None => triples,
        Some(ImportOrdering::Native) => triples,
        Some(ImportOrdering::Key) => sort_triples_by_name(triples),
        Some(ImportOrdering::Offset) => sort_triples_by_offset(triples),
    };
    let ghost svs = spec_v3_view(sorted@);
    let mut table = GXTStringTable::new();
    let m = sorted.len();
    let mut k: usize = 0;
    proof {
        assert(spec_pairs_view(table.data@) =~= Seq::<(Seq<char>, Seq<char>)>::empty());
        assert(svs.take(0) =~= Seq::<(Seq<char>, Seq<char>, u32)>::empty());
    }
    while k < m
        invariant
            m == sorted@.len(),
            svs == spec_v3_view(sorted@),
            k <= m,
            table.wf(),
            spec_pairs_view(table.data@) == spec_views_to_table(svs.take(k as int)),
        decreases m - k,
    {
        let name = sorted[k].0.clone();
        let value = sorted[k].1.clone();
        proof {
            assert(svs.take(k as int + 1).drop_last() =~= svs.take(k as int));
            assert(svs.take(k as int + 1).last() == svs[k as int]);
            assert(name@ == svs[k as int].0 && value@ == svs[k as int].1);
            lemma_pairs_view_insert(table.data@, name, value);
        }
        table.insert(name, value);
        k = k + 1;
    }
    proof {
        assert(svs.take(m as int) =~= svs);
    }
    Ok(table)
}

} // verus!

verus! {

/// Compares two raw 8-byte names lexicographically.
fn name8_le(a: &[u8; 8], b: &[u8; 8]) -> (r: bool)
    ensures
        r == spec_bytes_le(a@, b@),
{
    let mut i: usize = 0;
    proof {
        assert(a@.skip(0) =~= a@);
        assert(b@.skip(0) =~= b@);
    }
    while i < 8
        invariant
            i <= 8,
            spec_bytes_le(a@.skip(i as int), b@.skip(i as int)) == spec_bytes_le(a@, b@),
        decreases 8 - i,
    {
        proof {
            assert(a@.skip(i as int)[0] == a@[i as int]);
            assert(b@.skip(i as int)[0] == b@[i as int]);
            assert(a@.skip(i as int).drop_first() =~= a@.skip(i as int + 1));
            assert(b@.skip(i as int).drop_first() =~= b@.skip(i as int + 1));
        }
        if a[i] < b[i] {
            return true;
        }
        if a[i] > b[i] {
            return false;
        }
        i = i + 1;
    }
    proof {
        assert(a@.skip(8) =~= Seq::<u8>::empty());
    }
    true
}

/// Stable insertion of a table-of-contents entry into a name-sorted list.
pub open spec fn spec_tabl_sorted_insert_name(
    s: Seq<GXTInternalTABLEntry>,
    e: GXTInternalTABLEntry,
) -> Seq<GXTInternalTABLEntry>
    decreases s.len(),
{
    if s.len() == 0 {
        seq![e]
    } else if spec_bytes_le(s.last().name@, e.name@) {
        s.push(e)
    } else {
        spec_tabl_sorted_insert_name(s.drop_last(), e).push(s.last())
    }
}

/// Table-of-contents entries stably sorted ascending by raw name.
pub open spec fn spec_tabl_sort_name(s: Seq<GXTInternalTABLEntry>) -> Seq<GXTInternalTABLEntry>
    decreases s.len(),
{
    if s.len() == 0 {
        Seq::<GXTInternalTABLEntry>::empty()
    } else {
        spec_tabl_sorted_insert_name(spec_tabl_sort_name(s.drop_last()), s.last())
    }
}

/// Stable insertion of a table-of-contents entry into an offset-sorted list.
pub open spec fn spec_tabl_sorted_insert_offset(
    s: Seq<GXTInternalTABLEntry>,
    e: GXTInternalTABLEntry,
) -> Seq<GXTInternalTABLEntry>
    decreases s.len(),
{
    if s.len() == 0 {
        seq![e]
    } else if s.last().offset <= e.offset {
        s.push(e)
    } else {
        spec_tabl_sorted_insert_offset(s.drop_last(), e).push(s.last())
    }
}

/// Table-of-contents entries stably sorted ascending by block offset.
pub open spec fn spec_tabl_sort_offset(s: Seq<GXTInternalTABLEntry>) -> Seq<GXTInternalTABLEntry>
    decreases s.len(),
{
    if s.len() == 0 {
        Seq::<GXTInternalTABLEntry>::empty()
    } else {
        spec_tabl_sorted_insert_offset(spec_tabl_sort_offset(s.drop_last()), s.last())
    }
}

/// Inserting at the position found by a backwards scan matches the stable
/// insertion by name.
proof fn lemma_tabl_insert_name_at(
    s: Seq<GXTInternalTABLEntry>,
    e: GXTInternalTABLEntry,
    pos: int,
)
    requires
        0 <= pos <= s.len(),
        forall|k: int| pos <= k < s.len() ==> !spec_bytes_le((#[trigger] s[k]).name@, e.name@),
        pos > 0 ==> spec_bytes_le(s[pos - 1].name@, e.name@),
    ensures
        spec_tabl_sorted_insert_name(s, e) == s.take(pos).push(e) + s.skip(pos),
    decreases s.len(),
{
    if pos == s.len() {
        if s.len() == 0 {
            assert(seq![e] =~= s.take(0).push(e) + s.skip(0));
        } else {
            assert(s.push(e) =~= s.take(pos).push(e) + s.skip(pos));
        }
    } else {
        lemma_tabl_insert_name_at(s.drop_last(), e, pos);
        assert(s.drop_last().take(pos) =~= s.take(pos));
        assert((s.drop_last().take(pos).push(e) + s.drop_last().skip(pos)).push(s.last())
            =~= s.take(pos).push(e) + s.skip(pos));
    }
}

/// Inserting at the position found by a backwards scan matches the stable
/// insertion by offset.
proof fn lemma_tabl_insert_offset_at(
    s: Seq<GXTInternalTABLEntry>,
    e: GXTInternalTABLEntry,
    pos: int,
)
    requires
        0 <= pos <= s.len(),
        forall|k: int| pos <= k < s.len() ==> !((#[trigger] s[k]).offset <= e.offset),
        pos > 0 ==> s[pos - 1].offset <= e.offset,
    ensures
        spec_tabl_sorted_insert_offset(s, e) == s.take(pos).push(e) + s.skip(pos),
    decreases s.len(),
{
    if pos == s.len() {
        if s.len() == 0 {
            assert(seq![e] =~= s.take(0).push(e) + s.skip(0));
        } else {
            assert(s.push(e) =~= s.take(pos).push(e) + s.skip(pos));
        }
    } else {
        lemma_tabl_insert_offset_at(s.drop_last(), e, pos);
        assert(s.drop_last().take(pos) =~= s.take(pos));
        assert((s.drop_last().take(pos).push(e) + s.drop_last().skip(pos)).push(s.last())
            =~= s.take(pos).push(e) + s.skip(pos));
    }
}

/// Returns the entries stably sorted ascending by raw name.
fn sort_tabl_by_name(entries: &Vec<GXTInternalTABLEntry>) -> (r: Vec<GXTInternalTABLEntry>)
    ensures
        r@ == spec_tabl_sort_name(entries@),
{
    let n = entries.len();
    let mut out: Vec<GXTInternalTABLEntry> = Vec::new();
    let mut i: usize = 0;
    proof {
        assert(entries@.take(0) =~= Seq::<GXTInternalTABLEntry>::empty());
    }
    while i < n
        invariant
            n == entries@.len(),
            i <= n,
            out@ == spec_tabl_sort_name(entries@.take(i as int)),
        decreases n - i,
    {
        let e = entries[i];
        proof {
            assert(entries@.take(i as int + 1).drop_last() =~= entries@.take(i as int));
            assert(entries@.take(i as int + 1).last() == entries@[i as int]);
        }
        let mut pos: usize = out.len();
        while pos > 0 && !name8_le(&out[pos - 1].name, &e.name)
            invariant
                pos <= out@.len(),
                e == entries@[i as int],
                forall|k: int|
                    pos <= k < out@.len() ==> !spec_bytes_le(
                        (#[trigger] out@[k]).name@,
                        e.name@,
                    ),
            decreases pos,
        {
            pos = pos - 1;
        }
        proof {
            lemma_tabl_insert_name_at(out@, e, pos as int);
            assert(out@.insert(pos as int, e) =~= out@.take(pos as int).push(e) + out@.skip(
                pos as int,
            ));
        }
        out.insert(pos, e);
        i = i + 1;
    }
    proof {
        assert(entries@.take(n as int) =~= entries@);
    }
    out
}

/// Returns the entries stably sorted ascending by block offset.
fn sort_tabl_by_offset(entries: &Vec<GXTInternalTABLEntry>) -> (r: Vec<GXTInternalTABLEntry>)
    ensures
        r@ == spec_tabl_sort_offset(entries@),
{
    let n = entries.len();
    let mut out: Vec<GXTInternalTABLEntry> = Vec::new();
    let mut i: usize = 0;
    proof {
        assert(entries@.take(0) =~= Seq::<GXTInternalTABLEntry>::empty());
    }
    while i < n
        invariant
            n == entries@.len(),
            i <= n,
            out@ == spec_tabl_sort_offset(entries@.take(i as int)),
        decreases n - i,
    {
        let e = entries[i];
        proof {
            assert(entries@.take(i as int + 1).drop_last() =~= entries@.take(i as int));
            assert(entries@.take(i as int + 1).last() == entries@[i as int]);
        }
        let mut pos: usize = out.len();
        while pos > 0 && !(out[pos - 1].offset <= e.offset)
            invariant
                pos <= out@.len(),
                e == entries@[i as int],
                forall|k: int|
                    pos <= k < out@.len() ==> !((#[trigger] out@[k]).offset <= e.offset),
            decreases pos,
        {
            pos = pos - 1;
        }
        proof {
            lemma_tabl_insert_offset_at(out@, e, pos as int);
            assert(out@.insert(pos as int, e) =~= out@.take(pos as int).push(e) + out@.skip(
                pos as int,
            ));
        }
        out.insert(pos, e);
        i = i + 1;
    }
    proof {
        assert(entries@.take(n as int) =~= entries@);
    }
    out
}

/// The auxiliary-table order that an import-ordering mode leaves behind.
pub open spec fn spec_apply_tabl_ordering(
    ordering: Option<ImportOrdering>,
    s: Seq<GXTInternalTABLEntry>,
) -> Seq<GXTInternalTABLEntry> {
    match ordering {
        None | Some(ImportOrdering::Native) => s,
        Some(ImportOrdering::Key) => spec_tabl_sort_name(s),
        Some(ImportOrdering::Offset) => spec_tabl_sort_offset(s),
    }
}

} // verus!

verus! {

/// The format variant that the first four bytes of a file select, if any.
pub open spec fn spec_detect_format(data: Seq<u8>) -> Option<GXTFileFormat> {
    if data.len() < 4 {
        None
    } else if data.subrange(0, 4) == spec_magic_tkey() {
        Some(GXTFileFormat::Three)
    } else if data.subrange(0, 4) == spec_magic_tabl() {
        Some(GXTFileFormat::Vice)
    } else if data.subrange(0, 4) == seq![4u8, 0u8, 8u8, 0u8] {
        Some(GXTFileFormat::San8)
    } else if data.subrange(0, 4) == seq![4u8, 0u8, 16u8, 0u8] {
        Some(GXTFileFormat::San16)
    } else {
        None
    }
}

/// The view-level contents of one complete table block at `base`: its key
/// index read and reordered, then its data block.  `None` when any part is
/// malformed or truncated.
pub open spec fn spec_table_block_views(
    data: Seq<u8>,
    format: GXTFileFormat,
    base: int,
    named: bool,
    ordering: Option<ImportOrdering>,
    custom: Option<GXTCharacterTable>,
    list: Option<Seq<(u32, String)>>,
) -> Option<Seq<(Seq<char>, Seq<char>, u32)>> {
    if !spec_tkey_ok(data, base, named, format) {
        None
    } else {
        let hdr = base + (if named {
            8int
        } else {
            0int
        });
        let size = spec_le_u32_at(data, hdr + 4);
        let count = size as int / format.spec_key_entry_size() as int;
        let entries = spec_apply_entry_ordering(
            ordering,
            spec_tkey_entries(data, hdr + 8, count, format),
        );
        let tdat = base + size + 8 + (if named {
            8int
        } else {
            0int
        });
        if !(tdat + 8 <= data.len() && data.subrange(tdat, tdat + 4) == spec_magic_tdat()) {
            None
        } else {
            spec_tdat_views(data, entries, tdat + 8, format, custom, list)
        }
    }
}

/// The string table that one block parses to.
pub open spec fn spec_block_table(
    data: Seq<u8>,
    format: GXTFileFormat,
    base: int,
    named: bool,
    ordering: Option<ImportOrdering>,
    custom: Option<GXTCharacterTable>,
    list: Option<Seq<(u32, String)>>,
) -> Seq<(Seq<char>, Seq<char>)> {
    spec_views_to_table(
        spec_apply_v3_ordering(
            ordering,
            spec_table_block_views(data, format, base, named, ordering, custom, list).unwrap(),
        ),
    )
}

/// The view of an auxiliary-table list.
pub open spec fn spec_aux_pairs_view(s: Seq<(String, GXTStringTable)>) -> Seq<
    (Seq<char>, Seq<(Seq<char>, Seq<char>)>),
> {
    s.map_values(|p: (String, GXTStringTable)| (p.0@, spec_pairs_view(p.1.data@)))
}

/// Inserting a named table into the auxiliary list: an existing name is
/// replaced in place, a new one appended.
pub open spec fn spec_aux_insert(
    t: Seq<(Seq<char>, Seq<(Seq<char>, Seq<char>)>)>,
    name: Seq<char>,
    table: Seq<(Seq<char>, Seq<char>)>,
) -> Seq<(Seq<char>, Seq<(Seq<char>, Seq<char>)>)>
    decreases t.len(),
{
    if t.len() == 0 {
        seq![(name, table)]
    } else if t[0].0 == name {
        seq![(name, table)] + t.drop_first()
    } else {
        seq![t[0]] + spec_aux_insert(t.drop_first(), name, table)
    }
}

/// The auxiliary-table list built from the given table-of-contents entries,
/// in order.
pub open spec fn spec_aux_fold(
    data: Seq<u8>,
    format: GXTFileFormat,
    ordering: Option<ImportOrdering>,
    custom: Option<GXTCharacterTable>,
    list: Option<Seq<(u32, String)>>,
    entries: Seq<GXTInternalTABLEntry>,
) -> Seq<(Seq<char>, Seq<(Seq<char>, Seq<char>)>)>
    decreases entries.len(),
{
    if entries.len() == 0 {
        Seq::<(Seq<char>, Seq<(Seq<char>, Seq<char>)>)>::empty()
    } else {
        let e = entries.last();
        spec_aux_insert(
            spec_aux_fold(data, format, ordering, custom, list, entries.drop_last()),
            spec_string_from_name(GXTStringName::Text(e.name), list),
            spec_block_table(data, format, e.offset as int, true, ordering, custom, list),
        )
    }
}

/// Everything that must hold of a byte stream for parsing to succeed: a known
/// variant selector, a well-formed table of contents led by `"MAIN"` where the
/// variant has one, and a readable key index and data block for every table.
/// The `k`-th auxiliary table-of-contents entry, in the reordered table list.
pub open spec fn spec_aux_entry(
    data: Seq<u8>,
    format: GXTFileFormat,
    ordering: Option<ImportOrdering>,
    k: int,
) -> GXTInternalTABLEntry {
    let tp: int = if format.spec_uses_text_names() {
        0
    } else {
        4
    };
    let count = spec_le_u32_at(data, tp + 4) as int / 12;
    spec_apply_tabl_ordering(ordering, spec_tabl_entries(data, tp + 8, count).skip(1))[k]
}

pub open spec fn spec_parse_multi_ok(
    data: Seq<u8>,
    format: GXTFileFormat,
    ordering: Option<ImportOrdering>,
    custom: Option<GXTCharacterTable>,
    list: Option<Seq<(u32, String)>>,
) -> bool {
    let tp: int = if format.spec_uses_text_names() {
        0
    } else {
        4
    };
    &&& spec_tabl_ok(data, tp)
    &&& {
        let count = spec_le_u32_at(data, tp + 4) as int / 12;
        let raw = spec_tabl_entries(data, tp + 8, count);
        let auxes = spec_apply_tabl_ordering(ordering, raw.skip(1));
        &&& count >= 1
        &&& raw[0].is_main
        &&& spec_table_block_views(
            data,
            format,
            raw[0].offset as int,
            false,
            ordering,
            custom,
            list,
        ) is Some
        &&& (forall|k: int|
            0 <= k < auxes.len() ==> spec_table_block_views(
                data,
                format,
                (#[trigger] spec_aux_entry(data, format, ordering, k)).offset as int,
                true,
                ordering,
                custom,
                list,
            ) is Some)
    }
}

/// A file whose multi-table layout is well formed has a readable block for
/// every auxiliary table, in the reordered table list.
proof fn lemma_multi_ok_block(
    data: Seq<u8>,
    format: GXTFileFormat,
    ordering: Option<ImportOrdering>,
    custom: Option<GXTCharacterTable>,
    list: Option<Seq<(u32, String)>>,
    k: int,
)
    requires
        spec_parse_multi_ok(data, format, ordering, custom, list),
        ({
            let tp: int = if format.spec_uses_text_names() {
                0
            } else {
                4
            };
            let count = spec_le_u32_at(data, tp + 4) as int / 12;
            let raw = spec_tabl_entries(data, tp + 8, count);
            let auxes = spec_apply_tabl_ordering(ordering, raw.skip(1));
            0 <= k < auxes.len()
        }),
    ensures
        ({
            let tp: int = if format.spec_uses_text_names() {
                0
            } else {
                4
            };
            let count = spec_le_u32_at(data, tp + 4) as int / 12;
            let raw = spec_tabl_entries(data, tp + 8, count);
            let auxes = spec_apply_tabl_ordering(ordering, raw.skip(1));
            spec_table_block_views(
                data,
                format,
                auxes[k].offset as int,
                true,
                ordering,
                custom,
                list,
            ) is Some
        }),
{
    let tp: int = if format.spec_uses_text_names() {
        0
    } else {
        4
    };
    let count = spec_le_u32_at(data, tp + 4) as int / 12;
    let raw = spec_tabl_entries(data, tp + 8, count);
    let auxes = spec_apply_tabl_ordering(ordering, raw.skip(1));
    assert(spec_aux_entry(data, format, ordering, k) == auxes[k]);
    assert(spec_table_block_views(
        data,
        format,
        auxes[k].offset as int,
        true,
        ordering,
        custom,
        list,
    ) is Some);
}

pub open spec fn spec_parse_ok(

    data: Seq<u8>,
    ordering: Option<ImportOrdering>,
    custom: Option<GXTCharacterTable>,
    list: Option<Seq<(u32, String)>>,
) -> bool {
    match spec_detect_format(data) {
        None => false,
        Some(GXTFileFormat::Three) => spec_table_block_views(
            data,
            GXTFileFormat::Three,
            0,
            false,
            ordering,
            custom,
            list,
        ) is Some,
        Some(format) => spec_parse_multi_ok(data, format, ordering, custom, list),
    }
}

/// Inserting a fresh table name appends it.
proof fn lemma_aux_insert_miss(
    t: Seq<(Seq<char>, Seq<(Seq<char>, Seq<char>)>)>,
    name: Seq<char>,
    table: Seq<(Seq<char>, Seq<char>)>,
)
    requires
        forall|j: int| 0 <= j < t.len() ==> (#[trigger] t[j]).0 != name,
    ensures
        spec_aux_insert(t, name, table) == t.push((name, table)),
    decreases t.len(),
{
    if t.len() == 0 {
        assert(seq![(name, table)] =~= t.push((name, table)));
    } else {
        lemma_aux_insert_miss(t.drop_first(), name, table);
        assert(seq![t[0]] + t.drop_first().push((name, table)) =~= t.push((name, table)));
    }
}

/// Inserting an existing table name replaces its entry in place.
proof fn lemma_aux_insert_hit(
    t: Seq<(Seq<char>, Seq<(Seq<char>, Seq<char>)>)>,
    name: Seq<char>,
    table: Seq<(Seq<char>, Seq<char>)>,
    i: int,
)
    requires
        0 <= i < t.len(),
        t[i].0 == name,
        forall|j: int| 0 <= j < i ==> (#[trigger] t[j]).0 != name,
    ensures
        spec_aux_insert(t, name, table) == t.update(i, (name, table)),
    decreases i,
{
    if i == 0 {
        assert(seq![(name, table)] + t.drop_first() =~= t.update(0, (name, table)));
    } else {
        lemma_aux_insert_hit(t.drop_first(), name, table, i - 1);
        assert(seq![t[0]] + t.drop_first().update(i - 1, (name, table)) =~= t.update(
            i,
            (name, table),
        ));
    }
}

/// Inserts a named table into the auxiliary list, replacing an existing name
/// in place; preserves name uniqueness and table well-formedness.
fn aux_list_insert(list: &mut Vec<(String, GXTStringTable)>, name: String, table: GXTStringTable)
    ensures
        spec_aux_pairs_view(final(list)@) == spec_aux_insert(
            spec_aux_pairs_view(old(list)@),
            name@,
            spec_pairs_view(table.data@),
        ),
        ((forall|j: int| 0 <= j < old(list)@.len() ==> (#[trigger] old(list)@[j]).1.wf())
            && table.wf()) ==> (forall|j: int|
            0 <= j < final(list)@.len() ==> (#[trigger] final(list)@[j]).1.wf()),
        (forall|a: int, b: int|
            0 <= a < b < old(list)@.len() ==> (#[trigger] old(list)@[a]).0@ != (
            #[trigger] old(list)@[b]).0@) ==> (forall|a: int, b: int|
            0 <= a < b < final(list)@.len() ==> (#[trigger] final(list)@[a]).0@ != (
            #[trigger] final(list)@[b]).0@),
{
    let n = list.len();
    let mut i: usize = 0;
    while i < n
        invariant
            list@ == old(list)@,
            n == list@.len(),
            i <= n,
            forall|j: int| 0 <= j < i ==> (#[trigger] list@[j]).0@ != name@,
        decreases n - i,
    {
        if str_eq(list[i].0.as_str(), name.as_str()) {
            proof {
                lemma_aux_insert_hit(
                    spec_aux_pairs_view(list@),
                    name@,
                    spec_pairs_view(table.data@),
                    i as int,
                );
            }
            let ghost ov = spec_aux_pairs_view(list@);
            let ghost onames = list@;
            list[i] = (name, table);
            proof {
                assert(spec_aux_pairs_view(list@) =~= ov.update(
                    i as int,
                    (list@[i as int].0@, spec_pairs_view(list@[i as int].1.data@)),
                ));
                assert forall|a: int, b: int|
                    0 <= a < b < onames.len() && onames[a].0@ != onames[b].0@ implies true by {}
            }
            return ;
        }
        i = i + 1;
    }
    proof {
        lemma_aux_insert_miss(spec_aux_pairs_view(list@), name@, spec_pairs_view(table.data@));
    }
    let ghost ov = spec_aux_pairs_view(list@);
    list.push((name, table));
    proof {
        assert(spec_aux_pairs_view(list@) =~= ov.push(
            (list@[list@.len() - 1].0@, spec_pairs_view(list@[list@.len() - 1].1.data@)),
        ));
    }
}

} // verus!

verus! {

impl crate::model::GXTFile {
    /// Parses a complete GXT file: the first four bytes select the variant,
    /// then the table of contents (where the variant has one, led by the
    /// mandatory `"MAIN"` entry), then one key-index and data block per table.
    /// Strings and auxiliary tables are finally ordered as the import-ordering
    /// mode asks.  Any bad magic number, missing `"MAIN"` entry or truncated
    /// read is a fatal parsing error.
    pub fn read_from_gxt(
        data: &[u8],
        ordering: &Option<ImportOrdering>,
        custom_table: &Option<GXTCharacterTable>,
        name_list: &Option<Vec<(u32, String)>>,
    ) -> (r: Result<GXTFile, GXTError>)
        ensures
            r is Ok <==> spec_parse_ok(
                data@,
                *ordering,
                *custom_table,
                spec_name_list_view(*name_list),
            ),
            r matches Err(e) ==> e is ParsingError,
            r matches Ok(doc) ==> {
                let cust = *custom_table;
                let list = spec_name_list_view(*name_list);
                &&& doc.wf()
                &&& Some(doc.format) == spec_detect_format(data@)
                &&& (doc.format == GXTFileFormat::Three ==> doc.aux_tables@.len() == 0
                    && spec_pairs_view(doc.main_table.data@) == spec_block_table(
                    data@,
                    GXTFileFormat::Three,
                    0,
                    false,
                    *ordering,
                    cust,
                    list,
                ))
                &&& (doc.format != GXTFileFormat::Three ==> {
                    let tp: int = if doc.format.spec_uses_text_names() {
                        0
                    } else {
                        4
                    };
                    let count = spec_le_u32_at(data@, tp + 4) as int / 12;
                    let raw = spec_tabl_entries(data@, tp + 8, count);
                    &&& spec_pairs_view(doc.main_table.data@) == spec_block_table(
                        data@,
                        doc.format,
                        raw[0].offset as int,
                        false,
                        *ordering,
                        cust,
                        list,
                    )
                    &&& spec_aux_pairs_view(doc.aux_tables@) == spec_aux_fold(
                        data@,
                        doc.format,
                        *ordering,
                        cust,
                        list,
                        spec_apply_tabl_ordering(*ordering, raw.skip(1)),
                    )
                })
            },
    {
        let ghost cust = *custom_table;
        let ghost list = spec_name_list_view(*name_list);
        if data.len() < 4 {
            let mut msg = String::new();
            msg.append("This GXT file does not match any known format.");
            return Err(GXTError::ParsingError(msg));
        }
        let format: GXTFileFormat = if match_tag4(data, 0, 84, 75, 69, 89) {
            GXTFileFormat::Three
        } else if match_tag4(data, 0, 84, 65, 66, 76) {
            GXTFileFormat::Vice
        } else if match_tag4(data, 0, 4, 0, 8, 0) {
            GXTFileFormat::San8
        } else if match_tag4(data, 0, 4, 0, 16, 0) {
            GXTFileFormat::San16
        } else {
            let mut msg = String::new();
            msg.append("This GXT file does not match any known format.");
            return Err(GXTError::ParsingError(msg));
        };
        proof {
            assert(spec_detect_format(data@) == Some(format));
        }
        let ghost fmt = format;
        match format {
            GXTFileFormat::Three => {
                let tkey = match gxt_read_tkey(data, &format, None, None, ordering) {
                    Ok(t) => t,
                    Err(e) => {
                        return Err(e);
                    },
                };
                let main_table = match gxt_read_tdat(
                    data,
                    &tkey,
                    None,
                    &format,
                    ordering,
                    custom_table,
                    name_list,
                ) {
                    Ok(t) => t,
                    Err(e) => {
                        proof {
                            lemma_block_views_bridge(data@, fmt, 0, false, *ordering, cust, list, tkey, None);
                        }
                        return Err(e);
                    },
                };
                proof {
                    lemma_block_views_bridge(data@, fmt, 0, false, *ordering, cust, list, tkey, None);
                }
                Ok(GXTFile { format, main_table, aux_tables: Vec::new() })
            },
            GXTFileFormat::Vice | GXTFileFormat::San8 | GXTFileFormat::San16 => {
                if !format.uses_text_names() {
                    let version_number = read_u16_le(data, 0);
                    let character_size = read_u16_le(data, 2);
                    if version_number != 4 {
                        proof {
                            assert(data@.subrange(0, 4)[0] == data@[0]);
                            assert(data@.subrange(0, 4)[1] == data@[1]);
                            assert(false);
                        }
                        let mut msg = String::new();
                        msg.append("The GXT file must have version 4");
                        return Err(GXTError::ParsingError(msg));
                    }
                    if character_size != 8 && character_size != 16 {
                        proof {
                            assert(data@.subrange(0, 4)[2] == data@[2]);
                            assert(data@.subrange(0, 4)[3] == data@[3]);
                            assert(false);
                        }
                        let mut msg = String::new();
                        msg.append("The GXT file must have character size 8 or 16");
                        return Err(GXTError::ParsingError(msg));
                    }
                }
                GXTFile::read_multi_table(data, format, ordering, custom_table, name_list)
            },
        }
    }

    /// Reads the table of contents and every table of a multi-table file.
    #[verifier::rlimit(100)]
    fn read_multi_table(
        data: &[u8],
        format: GXTFileFormat,
        ordering: &Option<ImportOrdering>,
        custom_table: &Option<GXTCharacterTable>,
        name_list: &Option<Vec<(u32, String)>>,
    ) -> (r: Result<GXTFile, GXTError>)
        requires
            format != GXTFileFormat::Three,
            spec_detect_format(data@) == Some(format),
        ensures
            r is Ok <==> spec_parse_ok(
                data@,
                *ordering,
                *custom_table,
                spec_name_list_view(*name_list),
            ),
            r matches Err(e) ==> e is ParsingError,
            r matches Ok(doc) ==> {
                let cust = *custom_table;
                let list = spec_name_list_view(*name_list);
                let tp: int = if format.spec_uses_text_names() {
                    0
                } else {
                    4
                };
                let count = spec_le_u32_at(data@, tp + 4) as int / 12;
                let raw = spec_tabl_entries(data@, tp + 8, count);
                &&& doc.wf()
                &&& doc.format == format
                &&& spec_pairs_view(doc.main_table.data@) == spec_block_table(
                    data@,
                    format,
                    raw[0].offset as int,
                    false,
                    *ordering,
                    cust,
                    list,
                )
                &&& spec_aux_pairs_view(doc.aux_tables@) == spec_aux_fold(
                    data@,
                    format,
                    *ordering,
                    cust,
                    list,
                    spec_apply_tabl_ordering(*ordering, raw.skip(1)),
                )
            },
    {
        let ghost cust = *custom_table;
        let ghost list = spec_name_list_view(*name_list);
        let ghost fmt = format;
        let tp: usize = if format.uses_text_names() {
            0
        } else {
            4
        };
        let tabl = match gxt_read_tabl(data, tp) {
            Ok(t) => t,
            Err(e) => {
                return Err(e);
            },
        };
        let ghost count = spec_le_u32_at(data@, tp as int + 4) as int / 12;
        let ghost raw = spec_tabl_entries(data@, tp as int + 8, count);
        if tabl.entries.len() == 0 || !tabl.entries[0].is_main {
            let mut msg = String::new();
            msg.append("GXT File error: The first table must be MAIN");
            return Err(GXTError::ParsingError(msg));
        }
        let main_entry = tabl.entries[0];
        let main_tkey = match gxt_read_tkey(
            data,
            &format,
            None,
            Some(main_entry.offset),
            ordering,
        ) {
            Ok(t) => t,
            Err(e) => {
                return Err(e);
            },
        };
        let main_table = match gxt_read_tdat(
            data,
            &main_tkey,
            Some(main_entry.offset),
            &format,
            ordering,
            custom_table,
            name_list,
        ) {
            Ok(t) => t,
            Err(e) => {
                proof {
                    lemma_block_views_bridge(
                        data@,
                        fmt,
                        main_entry.offset as int,
                        false,
                        *ordering,
                        cust,
                        list,
                        main_tkey,
                        Some(main_entry.offset),
                    );
                }
                return Err(e);
            },
        };
        proof {
            lemma_block_views_bridge(
                data@,
                fmt,
                main_entry.offset as int,
                false,
                *ordering,
                cust,
                list,
                main_tkey,
                Some(main_entry.offset),
            );
        }
        let n_entries = tabl.entries.len();
        let mut aux_entries: Vec<GXTInternalTABLEntry> = Vec::new();
        let mut k: usize = 1;
        proof {
            assert(aux_entries@ =~= raw.skip(1).take(0));
        }
        while k < n_entries
            invariant
                raw == tabl.entries@,
                n_entries == raw.len(),
                1 <= k <= n_entries,
                aux_entries@ == raw.skip(1).take(k as int - 1),
            decreases n_entries - k,
        {
            proof {
                assert(raw.skip(1).take(k as int) =~= raw.skip(1).take(k as int - 1).push(
                    raw[k as int],
                ));
            }
            aux_entries.push(tabl.entries[k]);
            k = k + 1;
        }
        proof {
            assert(raw.skip(1).take(n_entries as int - 1) =~= raw.skip(1));
        }
        let ordered_aux = match ordering {
            None => aux_entries,
            Some(ImportOrdering::Native) => aux_entries,
            Some(ImportOrdering::Key) => sort_tabl_by_name(&aux_entries),
            Some(ImportOrdering::Offset) => sort_tabl_by_offset(&aux_entries),
        };
        let ghost oa = spec_apply_tabl_ordering(*ordering, raw.skip(1));
        proof {
            assert(ordered_aux@ == oa);
        }
        let mut aux_tables: Vec<(String, GXTStringTable)> = Vec::new();
        let naux = ordered_aux.len();
        let mut k: usize = 0;
        proof {
            assert(spec_aux_pairs_view(aux_tables@) =~= Seq::<
                (Seq<char>, Seq<(Seq<char>, Seq<char>)>),
            >::empty());
            assert(oa.take(0) =~= Seq::<GXTInternalTABLEntry>::empty());
        }
        while k < naux
            invariant
                fmt == format,
                fmt != GXTFileFormat::Three,
                spec_detect_format(data@) == Some(fmt),
                cust == *custom_table,
                list == spec_name_list_view(*name_list),
                tp as int == (if fmt.spec_uses_text_names() {
                    0int
                } else {
                    4int
                }),
                count == spec_le_u32_at(data@, tp as int + 4) as int / 12,
                raw == spec_tabl_entries(data@, tp as int + 8, count),
                oa == spec_apply_tabl_ordering(*ordering, raw.skip(1)),
                oa == ordered_aux@,
                naux == oa.len(),
                k <= naux,
                spec_aux_pairs_view(aux_tables@) == spec_aux_fold(
                    data@,
                    fmt,
                    *ordering,
                    cust,
                    list,
                    oa.take(k as int),
                ),
                forall|j: int|
                    0 <= j < k ==> spec_table_block_views(
                        data@,
                        fmt,
                        (#[trigger] oa[j]).offset as int,
                        true,
                        *ordering,
                        cust,
                        list,
                    ) is Some,
                forall|j: int|
                    0 <= j < aux_tables@.len() ==> (#[trigger] aux_tables@[j]).1.wf(),
                forall|a: int, b: int|
                    0 <= a < b < aux_tables@.len() ==> (#[trigger] aux_tables@[a]).0@ != (
                    #[trigger] aux_tables@[b]).0@,
            decreases naux - k,
        {
            let e = ordered_aux[k];
            proof {
                assert(oa.take(k as int + 1).drop_last() =~= oa.take(k as int));
                assert(oa.take(k as int + 1).last() == oa[k as int]);
            }
            let e_tkey = match gxt_read_tkey(
                data,
                &format,
                Some(e.name),
                Some(e.offset),
                ordering,
            ) {
                Ok(t) => t,
                Err(err) => {
                    proof {
                        assert(!spec_tkey_ok(data@, e.offset as int, true, fmt));
                        assert(spec_table_block_views(
                            data@,
                            fmt,
                            oa[k as int].offset as int,
                            true,
                            *ordering,
                            cust,
                            list,
                        ) is None);
                        if spec_parse_multi_ok(data@, fmt, *ordering, cust, list) {
                            lemma_multi_ok_block(data@, fmt, *ordering, cust, list, k as int);
                            assert(false);
                        }
                        assert(!spec_parse_multi_ok(data@, fmt, *ordering, cust, list));
                        assert(!spec_parse_ok(data@, *ordering, cust, list));
                    }
                    return Err(err);
                },
            };
            let name_string = string_from_name(&GXTStringName::Text(e.name), name_list);
            let tbl = match gxt_read_tdat(
                data,
                &e_tkey,
                Some(e.offset),
                &format,
                ordering,
                custom_table,
                name_list,
            ) {
                Ok(t) => t,
                Err(err) => {
                    proof {
                        lemma_block_views_bridge(
                            data@,
                            fmt,
                            e.offset as int,
                            true,
                            *ordering,
                            cust,
                            list,
                            e_tkey,
                            Some(e.offset),
                        );
                    }
                    assert(spec_table_block_views(
                        data@,
                        fmt,
                        oa[k as int].offset as int,
                        true,
                        *ordering,
                        cust,
                        list,
                    ) is None);
                    proof {
                        if spec_parse_multi_ok(data@, fmt, *ordering, cust, list) {
                            lemma_multi_ok_block(data@, fmt, *ordering, cust, list, k as int);
                            assert(false);
                        }
                        assert(!spec_parse_multi_ok(data@, fmt, *ordering, cust, list));
                        assert(!spec_parse_ok(data@, *ordering, cust, list));
                    }
                    let mut msg = String::new();
                    msg.append("Error while parsing table (");
                    msg.append(name_string.as_str());
                    msg.append("): ");
                    msg.append(err.describe().as_str());
                    return Err(GXTError::ParsingError(msg));
                },
            };
            proof {
                lemma_block_views_bridge(
                    data@,
                    fmt,
                    e.offset as int,
                    true,
                    *ordering,
                    cust,
                    list,
                    e_tkey,
                    Some(e.offset),
                );
            }
            aux_list_insert(&mut aux_tables, name_string, tbl);
            k = k + 1;
        }
        proof {
            assert(oa.take(naux as int) =~= oa);
        }
        Ok(GXTFile { format, main_table, aux_tables })
    }
}

/// The struct-level data-block conditions of a key index read by the parser
/// match the byte-level block conditions.
proof fn lemma_block_views_bridge(
    data: Seq<u8>,
    format: GXTFileFormat,
    base: int,
    named: bool,
    ordering: Option<ImportOrdering>,
    custom: Option<GXTCharacterTable>,
    list: Option<Seq<(u32, String)>>,
    tkey: GXTInternalTKEY,
    tkey_offset: Option<u32>,
)
    requires
        spec_tkey_ok(data, base, named, format),
        base == (match tkey_offset {
            Some(o) => o as int,
            None => 0int,
        }),
        named <==> tkey.name is Some,
        tkey.size == spec_le_u32_at(
            data,
            base + (if named {
                8int
            } else {
                0int
            }) + 4,
        ),
        tkey.entries@ == spec_apply_entry_ordering(
            ordering,
            spec_tkey_entries(
                data,
                base + (if named {
                    8int
                } else {
                    0int
                }) + 8,
                spec_le_u32_at(
                    data,
                    base + (if named {
                        8int
                    } else {
                        0int
                    }) + 4,
                ) as int / format.spec_key_entry_size() as int,
                format,
            ),
        ),
    ensures
        spec_table_block_views(data, format, base, named, ordering, custom, list) == (if (
        spec_tdat_base(tkey, tkey_offset) + 8 <= data.len() && data.subrange(
            spec_tdat_base(tkey, tkey_offset),
            spec_tdat_base(tkey, tkey_offset) + 4,
        ) == spec_magic_tdat()) {
            spec_tdat_views(
                data,
                tkey.entries@,
                spec_tdat_base(tkey, tkey_offset) + 8,
                format,
                custom,
                list,
            )
        } else {
            None
        }),
        spec_table_block_views(data, format, base, named, ordering, custom, list) is Some
            <==> spec_tdat_ok(data, tkey, tkey_offset, format, custom, list),
{
    assert(spec_tdat_base(tkey, tkey_offset) == base + tkey.size + 8 + (if named {
        8int
    } else {
        0int
    }));
}

} // verus!
