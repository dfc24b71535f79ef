//! The binary compiler: rebuilds the chained three-section layout from the
//! in-memory document — per-table data blocks with content-addressed
//! deduplication, key indexes sorted by name token, and the table of contents
//! with sequentially computed section offsets.

use vstd::prelude::*;
use vstd::string::StringSliceAdditionalSpecFns;
use vstd::utf8::encode_utf8;
use crate::charcodec::GXTCharacterTable;
use crate::charcodec::encode_string;
use crate::charcodec::spec_encode_string;
use crate::error::GXTError;
use crate::format::GXTFileFormat;
use crate::model::GXTStringTable;
use crate::bytes::append_magic_tabl;
use crate::bytes::append_magic_tdat;
use crate::bytes::append_magic_tkey;
use crate::bytes::append_main_name;
use crate::bytes::append_name8;
use crate::bytes::append_u16_le;
use crate::bytes::append_u32_le;
use crate::bytes::spec_magic_tkey;
use crate::bytes::spec_magic_tdat;
use crate::bytes::spec_u32_le_bytes;
use crate::model::GXTFile;
use crate::bytes::spec_name8_at;
use crate::bytes::spec_u16_le_bytes;
use crate::bytes::spec_main_name;
use crate::bytes::spec_magic_tabl;
use crate::names::GXTStringName;
use crate::names::spec_string_to_hash;
use crate::names::lemma_token_le_total;
use crate::names::lemma_token_le_trans;
use crate::names::spec_is_name_of;
use crate::names::spec_name_ok;
use crate::names::spec_pad8;
use crate::names::spec_token_le;
use crate::names::string_to_name;
use crate::names::string_to_name_basic;
use crate::names::token_le;
use crate::strutil::str_eq;

verus! {

/// One key-index entry: the string's data offset and its name token.
#[derive(Clone, Copy, Debug)]
pub struct GXTInternalTKEYEntry {
    /// Data-block offset of the string value, relative to the first byte
    /// after the data-block header.
    pub offset: u32,
    /// Name token of the text entry.
    pub name: GXTStringName,
}

/// One key-index block, before or after it is laid out in the file.
#[derive(Clone, Debug)]
pub struct GXTInternalTKEY {
    /// The raw 8-byte table name; `None` for the single-table variant and for
    /// the main block of the multi-table variants.
    pub name: Option<[u8; 8]>,
    /// Absolute file offset of this block.
    pub offset: u32,
    /// Size of the entry array in bytes (not the number of entries).
    pub size: u32,
    /// The entries, in table order.
    pub entries: Vec<GXTInternalTKEYEntry>,
}

/// A data block under construction: the byte buffer, and the offset at which
/// each already-written string value starts, keyed by the value itself.
pub struct GXTCompilationTDAT {
    /// The growing data-block contents.
    pub buffer: Vec<u8>,
    /// Offsets of already-encoded values; the keys are string values, not
    /// string names.
    pub offset_map: Vec<(String, usize)>,
}

/// Whether some entry of the table carries string value `v`.
pub open spec fn spec_values_contain(entries: Seq<(String, String)>, v: Seq<char>) -> bool {
    exists|i: int| 0 <= i < entries.len() && (#[trigger] entries[i]).1@ == v
}

/// The deduplicated data-block contents of a table, without final padding:
/// each value's encoding appears once, at its first occurrence, in table
/// order.  `None` when some value cannot be encoded.
pub open spec fn spec_table_data(
    entries: Seq<(String, String)>,
    format: GXTFileFormat,
    custom: Option<GXTCharacterTable>,
) -> Option<Seq<u8>>
    decreases entries.len(),
{
    if entries.len() == 0 {
        Some(Seq::<u8>::empty())
    } else {
        match spec_table_data(entries.drop_last(), format, custom) {
            None => None,
            Some(buf) => if spec_values_contain(entries.drop_last(), entries.last().1@) {
                Some(buf)
            } else {
                match spec_encode_string(format, custom, entries.last().1@) {
                    None => None,
                    Some(b) => Some(buf + b),
                }
            },
        }
    }
}

/// The data-block offset at which value `v` is stored: the length of the
/// deduplicated data of everything before its first occurrence.
pub open spec fn spec_data_offset(
    entries: Seq<(String, String)>,
    format: GXTFileFormat,
    custom: Option<GXTCharacterTable>,
    v: Seq<char>,
) -> int
    decreases entries.len(),
{
    if entries.len() == 0 {
        0
    } else if spec_values_contain(entries.drop_last(), v) {
        spec_data_offset(entries.drop_last(), format, custom, v)
    } else if entries.last().1@ == v {
        match spec_table_data(entries.drop_last(), format, custom) {
            Some(d) => d.len() as int,
            None => 0,
        }
    } else {
        0
    }
}

/// The length of the zero padding appended after a data block: hash-keyed
/// variants align every block on a 4-byte boundary.
pub open spec fn spec_pad_len(format: GXTFileFormat, len: nat) -> nat {
    if !format.spec_uses_text_names() && len % 4 != 0 {
        (4 - len % 4) as nat
    } else {
        0
    }
}

/// The finished data block: the deduplicated data plus alignment padding.
pub open spec fn spec_padded_table_data(
    entries: Seq<(String, String)>,
    format: GXTFileFormat,
    custom: Option<GXTCharacterTable>,
) -> Option<Seq<u8>> {
    match spec_table_data(entries, format, custom) {
        None => None,
        Some(d) => Some(d + Seq::<u8>::new(spec_pad_len(format, d.len()), |i: int| 0u8)),
    }
}

/// Every value of a table whose data block exists is encodable.
proof fn lemma_table_data_all_encodable(
    entries: Seq<(String, String)>,
    format: GXTFileFormat,
    custom: Option<GXTCharacterTable>,
    i: int,
)
    requires
        spec_table_data(entries, format, custom) is Some,
        0 <= i < entries.len(),
    ensures
        spec_encode_string(format, custom, entries[i].1@) is Some,
    decreases entries.len(),
{
    if i == entries.len() - 1 {
        if spec_values_contain(entries.drop_last(), entries.last().1@) {
            let j = choose|j: int|
                0 <= j < entries.drop_last().len() && (#[trigger] entries.drop_last()[j]).1@
                    == entries.last().1@;
            lemma_table_data_all_encodable(entries.drop_last(), format, custom, j);
        }
    } else {
        lemma_table_data_all_encodable(entries.drop_last(), format, custom, i);
    }
}

/// A prefix of a table whose data block exists also has one, no longer than
/// the whole.
proof fn lemma_table_data_prefix(
    entries: Seq<(String, String)>,
    format: GXTFileFormat,
    custom: Option<GXTCharacterTable>,
    k: int,
)
    requires
        spec_table_data(entries, format, custom) is Some,
        0 <= k <= entries.len(),
    ensures
        spec_table_data(entries.take(k), format, custom) is Some,
        spec_table_data(entries.take(k), format, custom).unwrap().len() <= spec_table_data(
            entries,
            format,
            custom,
        ).unwrap().len(),
    decreases entries.len(),
{
    if k == entries.len() {
        assert(entries.take(k) =~= entries);
    } else {
        assert(entries.drop_last() =~= entries.take(entries.len() - 1));
        assert(entries.take(k) =~= entries.drop_last().take(k));
        lemma_table_data_prefix(entries.drop_last(), format, custom, k);
    }
}

/// Content-addressed storage: the deduplicated data block holds each
/// contained value's encoding at that value's single data offset — the
/// offset every entry carrying the value records.
pub proof fn lemma_data_at_offset(
    entries: Seq<(String, String)>,
    format: GXTFileFormat,
    custom: Option<GXTCharacterTable>,
    v: Seq<char>,
)
    requires
        spec_table_data(entries, format, custom) is Some,
        spec_values_contain(entries, v),
    ensures
        spec_encode_string(format, custom, v) is Some,
        ({
            let d = spec_table_data(entries, format, custom).unwrap();
            let enc = spec_encode_string(format, custom, v).unwrap();
            let off = spec_data_offset(entries, format, custom, v);
            &&& 0 <= off
            &&& off + enc.len() <= d.len()
            &&& d.subrange(off, off + enc.len() as int) == enc
        }),
    decreases entries.len(),
{
    let i = choose|i: int| 0 <= i < entries.len() && (#[trigger] entries[i]).1@ == v;
    lemma_table_data_all_encodable(entries, format, custom, i);
    let d = spec_table_data(entries, format, custom).unwrap();
    let enc = spec_encode_string(format, custom, v).unwrap();
    let front = entries.drop_last();
    if spec_values_contain(front, v) {
        lemma_data_at_offset(front, format, custom, v);
        let d0 = spec_table_data(front, format, custom).unwrap();
        let off = spec_data_offset(front, format, custom, v);
        assert(d.subrange(off, off + enc.len() as int) =~= d0.subrange(
            off,
            off + enc.len() as int,
        ));
    } else {
        assert(entries.last().1@ == v) by {
            if entries[i].1@ == v && i < entries.len() - 1 {
                assert(front[i].1@ == v);
            }
        }
        let d0 = spec_table_data(front, format, custom).unwrap();
        if spec_encode_string(format, custom, entries.last().1@) is Some {
            assert(d == d0 + enc);
            assert(d.subrange(d0.len() as int, d0.len() + enc.len() as int) =~= enc);
        }
    }
}

/// The offset that the compilation map gives to value `v`: the offset of the
/// first pair carrying that value, if any.
pub open spec fn spec_offset_map_find(pairs: Seq<(String, usize)>, v: Seq<char>) -> Option<usize>
    decreases pairs.len(),
{
    if pairs.len() == 0 {
        None
    } else if pairs[0].0@ == v {
        Some(pairs[0].1)
    } else {
        spec_offset_map_find(pairs.drop_first(), v)
    }
}

/// Appending a pair with a fresh value leaves other lookups unchanged and
/// makes the new value found.
proof fn lemma_offset_map_push(pairs: Seq<(String, usize)>, p: (String, usize), v: Seq<char>)
    ensures
        spec_offset_map_find(pairs.push(p), v) == (match spec_offset_map_find(pairs, v) {
            Some(o) => Some(o),
            None => if p.0@ == v {
                Some(p.1)
            } else {
                None::<usize>
            },
        }),
    decreases pairs.len(),
{
    if pairs.len() == 0 {
        assert(pairs.push(p)[0] == p);
        assert(pairs.push(p).drop_first() =~= Seq::<(String, usize)>::empty());
        assert(spec_offset_map_find(Seq::<(String, usize)>::empty(), v) is None);
    } else {
        assert(pairs.push(p)[0] == pairs[0]);
        assert(pairs.push(p).drop_first() =~= pairs.drop_first().push(p));
        lemma_offset_map_push(pairs.drop_first(), p, v);
    }
}

/// First-match lookup of a value in the compilation offset map.
fn offset_map_find(pairs: &Vec<(String, usize)>, v: &str) -> (r: Option<usize>)
    ensures
        r == spec_offset_map_find(pairs@, v@),
{
    let n = pairs.len();
    let mut i: usize = 0;
    proof {
        assert(pairs@.skip(0) =~= pairs@);
    }
    while i < n
        invariant
            n == pairs@.len(),
            i <= n,
            spec_offset_map_find(pairs@.skip(i as int), v@) == spec_offset_map_find(pairs@, v@),
        decreases n - i,
    {
        let pair = &pairs[i];
        proof {
            assert(pairs@.skip(i as int)[0] == pairs@[i as int]);
            assert(pairs@.skip(i as int).drop_first() =~= pairs@.skip(i as int + 1));
        }
        if str_eq(pair.0.as_str(), v) {
            return Some(pair.1);
        }
        i = i + 1;
    }
    proof {
        assert(pairs@.skip(n as int) =~= Seq::<(String, usize)>::empty());
    }
    None
}

/// Everything that must hold of a table for its key index and data block to
/// compile: the optional block name and every entry name must be storable
/// under the variant, every value must be encodable, and the entry array and
/// padded data block must fit their 32-bit size fields.
pub open spec fn spec_create_ok(
    entries: Seq<(String, String)>,
    format: GXTFileFormat,
    custom: Option<GXTCharacterTable>,
    table_name: Option<Seq<char>>,
) -> bool {
    &&& (match table_name {
        Some(nm) => encode_utf8(nm).len() <= 8,
        None => true,
    })
    &&& (forall|i: int|
        0 <= i < entries.len() ==> spec_name_ok((#[trigger] entries[i]).0@, format))
    &&& spec_table_data(entries, format, custom) is Some
    &&& entries.len() * format.spec_key_entry_size() <= 0xFFFFFFFF
    &&& (match spec_padded_table_data(entries, format, custom) {
        Some(d) => d.len() <= 0xFFFFFFFF,
        None => true,
    })
}

/// An element of a list is found in any list with the same contents.
proof fn lemma_entry_in_multiset(
    a: Seq<GXTInternalTKEYEntry>,
    b: Seq<GXTInternalTKEYEntry>,
    i: int,
)
    requires
        0 <= i < a.len(),
        a.to_multiset() == b.to_multiset(),
    ensures
        exists|w: int| 0 <= w < b.len() && b[w] == a[i],
{
    broadcast use vstd::seq_lib::group_to_multiset_ensures;

    assert(a.contains(a[i]));
    assert(a.to_multiset().count(a[i]) > 0);
    assert(b.contains(a[i]));
    let w = choose|w: int| 0 <= w < b.len() && b[w] == a[i];
    assert(0 <= w < b.len() && b[w] == a[i]);
}

/// Stable insertion of an entry into a token-sorted entry list: the entry goes
/// after every entry whose token is less than or equal to its own.
pub open spec fn spec_sorted_insert(
    s: Seq<GXTInternalTKEYEntry>,
    e: GXTInternalTKEYEntry,
) -> Seq<GXTInternalTKEYEntry>
    decreases s.len(),
{
    if s.len() == 0 {
        seq![e]
    } else if spec_token_le(s.last().name, e.name) {
        s.push(e)
    } else {
        spec_sorted_insert(s.drop_last(), e).push(s.last())
    }
}

/// The key-index entries in emitted order: stably sorted ascending by name
/// token.
pub open spec fn spec_sort_entries(s: Seq<GXTInternalTKEYEntry>) -> Seq<GXTInternalTKEYEntry>
    decreases s.len(),
{
    if s.len() == 0 {
        Seq::<GXTInternalTKEYEntry>::empty()
    } else {
        spec_sorted_insert(spec_sort_entries(s.drop_last()), s.last())
    }
}

/// Whether an entry list is sorted ascending by name token.
pub open spec fn spec_entries_sorted(s: Seq<GXTInternalTKEYEntry>) -> bool {
    forall|i: int, j: int|
        0 <= i < j < s.len() ==> spec_token_le((#[trigger] s[i]).name, (#[trigger] s[j]).name)
}

/// Inserting into a sorted list keeps it sorted, adds the entry to the
/// contents, and grows it by one.
proof fn lemma_sorted_insert_props(s: Seq<GXTInternalTKEYEntry>, e: GXTInternalTKEYEntry)
    requires
        spec_entries_sorted(s),
    ensures
        spec_entries_sorted(spec_sorted_insert(s, e)),
        spec_sorted_insert(s, e).to_multiset() == s.to_multiset().insert(e),
        spec_sorted_insert(s, e).len() == s.len() + 1,
    decreases s.len(),
{
    broadcast use vstd::seq_lib::group_to_multiset_ensures;

    if s.len() == 0 {
        assert(seq![e] =~= Seq::<GXTInternalTKEYEntry>::empty().push(e));
        assert(seq![e].to_multiset() =~= s.to_multiset().insert(e));
    } else if spec_token_le(s.last().name, e.name) {
        let r = s.push(e);
        assert forall|i: int, j: int| 0 <= i < j < r.len() implies spec_token_le(
            (#[trigger] r[i]).name,
            (#[trigger] r[j]).name,
        ) by {
            if j == r.len() - 1 {
                if i < s.len() - 1 {
                    lemma_token_le_trans(s[i].name, s.last().name, e.name);
                }
            }
        }
    } else {
        lemma_token_le_total(s.last().name, e.name);
        assert(spec_token_le(e.name, s.last().name));
        assert(spec_entries_sorted(s.drop_last()));
        lemma_sorted_insert_props(s.drop_last(), e);
        let rec = spec_sorted_insert(s.drop_last(), e);
        let r = rec.push(s.last());
        assert forall|i: int| 0 <= i < rec.len() implies spec_token_le(
            (#[trigger] rec[i]).name,
            s.last().name,
        ) by {
            assert(rec.contains(rec[i]));
            assert(rec.to_multiset().count(rec[i]) > 0);
            if rec[i] == e {
            } else {
                assert(s.drop_last().to_multiset().count(rec[i]) > 0);
                assert(s.drop_last().contains(rec[i]));
                let w = choose|w: int|
                    0 <= w < s.drop_last().len() && s.drop_last()[w] == rec[i];
                assert(s[w] == rec[i]);
                assert(spec_token_le(s[w].name, s.last().name));
            }
        }
        assert forall|i: int, j: int| 0 <= i < j < r.len() implies spec_token_le(
            (#[trigger] r[i]).name,
            (#[trigger] r[j]).name,
        ) by {
            if j < r.len() - 1 {
                assert(spec_token_le(rec[i].name, rec[j].name));
            }
        }
        assert(r.to_multiset() =~= s.to_multiset().insert(e)) by {
            assert(rec.to_multiset() == s.drop_last().to_multiset().insert(e));
            assert(r.to_multiset() == rec.to_multiset().insert(s.last()));
            assert(s =~= s.drop_last().push(s.last()));
            assert(s.to_multiset() == s.drop_last().to_multiset().insert(s.last()));
        }
    }
}

/// The sorted entry list is sorted and holds exactly the input entries.
pub proof fn lemma_sort_entries_props(s: Seq<GXTInternalTKEYEntry>)
    ensures
        spec_entries_sorted(spec_sort_entries(s)),
        spec_sort_entries(s).to_multiset() == s.to_multiset(),
        spec_sort_entries(s).len() == s.len(),
    decreases s.len(),
{
    broadcast use vstd::seq_lib::group_to_multiset_ensures;

    if s.len() == 0 {
    } else {
        lemma_sort_entries_props(s.drop_last());
        lemma_sorted_insert_props(spec_sort_entries(s.drop_last()), s.last());
        assert(s =~= s.drop_last().push(s.last()));
        assert(s.to_multiset() == s.drop_last().to_multiset().insert(s.last()));
    }
}

/// With pairwise distinct name tokens the emitted order is strictly
/// ascending: each token is at most the next and never equal to it, as the
/// engines' load-time binary search requires.
pub proof fn lemma_sort_entries_strict(s: Seq<GXTInternalTKEYEntry>)
    requires
        forall|a: int, b: int|
            0 <= a < b < s.len() ==> (#[trigger] s[a]).name != (#[trigger] s[b]).name,
    ensures
        forall|a: int, b: int|
            0 <= a < b < spec_sort_entries(s).len() ==> spec_token_le(
                (#[trigger] spec_sort_entries(s)[a]).name,
                (#[trigger] spec_sort_entries(s)[b]).name,
            ) && spec_sort_entries(s)[a].name != spec_sort_entries(s)[b].name,
{
    lemma_sort_entries_props(s);
    let r = spec_sort_entries(s);
    assert(s.no_duplicates()) by {
        assert forall|i: int, j: int|
            0 <= i < s.len() && 0 <= j < s.len() && i != j implies s[i] != s[j] by {
            if i < j {
                assert(s[i].name != s[j].name);
            } else {
                assert(s[j].name != s[i].name);
            }
        }
    }
    s.lemma_multiset_has_no_duplicates();
    assert forall|x: GXTInternalTKEYEntry|
        r.to_multiset().contains(x) implies r.to_multiset().count(x) == 1 by {
        assert(s.to_multiset().contains(x) ==> s.to_multiset().count(x) == 1);
    }
    r.lemma_multiset_has_no_duplicates_conv();
    assert forall|a: int, b: int| 0 <= a < b < r.len() implies spec_token_le(
        (#[trigger] r[a]).name,
        (#[trigger] r[b]).name,
    ) && r[a].name != r[b].name by {
        if r[a].name == r[b].name {
            assert(r[a] != r[b]);
            lemma_entry_in_multiset(r, s, a);
            let wa = choose|w: int| 0 <= w < s.len() && s[w] == r[a];
            lemma_entry_in_multiset(r, s, b);
            let wb = choose|w: int| 0 <= w < s.len() && s[w] == r[b];
            assert(wa != wb);
            if wa < wb {
                assert(s[wa].name != s[wb].name);
            } else {
                assert(s[wb].name != s[wa].name);
            }
        }
    }
}

/// Inserting at the position found by a backwards scan matches the stable
/// insertion.
proof fn lemma_sorted_insert_at(s: Seq<GXTInternalTKEYEntry>, e: GXTInternalTKEYEntry, pos: int)
    requires
        0 <= pos <= s.len(),
        forall|k: int| pos <= k < s.len() ==> !spec_token_le((#[trigger] s[k]).name, e.name),
        pos > 0 ==> spec_token_le(s[pos - 1].name, e.name),
    ensures
        spec_sorted_insert(s, e) == s.take(pos).push(e) + s.skip(pos),
    decreases s.len(),
{
    if pos == s.len() {
        if s.len() == 0 {
            assert(seq![e] =~= s.take(0).push(e) + s.skip(0));
        } else {
            assert(spec_token_le(s.last().name, e.name));
            assert(s.push(e) =~= s.take(pos).push(e) + s.skip(pos));
        }
    } else {
        assert(!spec_token_le(s.last().name, e.name));
        lemma_sorted_insert_at(s.drop_last(), e, pos);
        assert(s.drop_last().take(pos) =~= s.take(pos));
        assert(spec_sorted_insert(s, e) == spec_sorted_insert(s.drop_last(), e).push(s.last()));
        assert((s.drop_last().take(pos).push(e) + s.drop_last().skip(pos)).push(s.last()) =~= s.take(
            pos,
        ).push(e) + s.skip(pos));
    }
}

/// Returns the entries stably sorted ascending by name token.
pub(crate) fn sort_entries(entries: &Vec<GXTInternalTKEYEntry>) -> (r: Vec<GXTInternalTKEYEntry>)
    ensures
        r@ == spec_sort_entries(entries@),
{
    let n = entries.len();
    let mut out: Vec<GXTInternalTKEYEntry> = Vec::new();
    let mut i: usize = 0;
    proof {
        assert(entries@.take(0) =~= Seq::<GXTInternalTKEYEntry>::empty());
    }
    while i < n
        invariant
            n == entries@.len(),
            i <= n,
            out@ == spec_sort_entries(entries@.take(i as int)),
        decreases n - i,
    {
        let e = entries[i];
        proof {
            assert(entries@.take(i as int + 1).drop_last() =~= entries@.take(i as int));
            assert(entries@.take(i as int + 1).last() == entries@[i as int]);
        }
        let mut pos: usize = out.len();
        while pos > 0 && !token_le(&out[pos - 1].name, &e.name)
            invariant
                pos <= out@.len(),
                e == entries@[i as int],
                forall|k: int|
                    pos <= k < out@.len() ==> !spec_token_le((#[trigger] out@[k]).name, e.name),
            decreases pos,
        {
            pos = pos - 1;
        }
        proof {
            lemma_sorted_insert_at(out@, e, pos as int);
            assert(out@.insert(pos as int, e) =~= out@.take(pos as int).push(e) + out@.skip(
                pos as int,
            ));
        }
        out.insert(pos, e);
        i = i + 1;
    }
    proof {
        assert(entries@.take(n as int) =~= entries@);
    }
    out
}

/// The emitted bytes of one key-index entry: the 4-byte data offset, then the
/// name token — 8 raw bytes for a text token, 4 little-endian bytes for a
/// hash.
pub open spec fn spec_entry_bytes(e: GXTInternalTKEYEntry) -> Seq<u8> {
    spec_u32_le_bytes(e.offset) + (match e.name {
        GXTStringName::Text(t) => t@,
        GXTStringName::CRC32(h) => spec_u32_le_bytes(h),
    })
}

/// The emitted bytes of an entry array, in order.
pub open spec fn spec_entries_bytes(s: Seq<GXTInternalTKEYEntry>) -> Seq<u8>
    decreases s.len(),
{
    if s.len() == 0 {
        Seq::<u8>::empty()
    } else {
        spec_entries_bytes(s.drop_last()) + spec_entry_bytes(s.last())
    }
}

/// Whether an entry's name token is of the kind that the variant stores.
pub open spec fn spec_entry_kind_ok(format: GXTFileFormat, e: GXTInternalTKEYEntry) -> bool {
    match e.name {
        GXTStringName::Text(_) => format.spec_uses_text_names(),
        GXTStringName::CRC32(_) => !format.spec_uses_text_names(),
    }
}

/// The full bytes of a key-index block: the optional 8-byte table name, the
/// `"TKEY"` magic, the 4-byte size, then the entries sorted by name token.
pub open spec fn spec_tkey_block_bytes(format: GXTFileFormat, tkey: GXTInternalTKEY) -> Seq<u8> {
    (match tkey.name {
        Some(t) => t@,
        None => Seq::<u8>::empty(),
    }) + spec_magic_tkey() + spec_u32_le_bytes(tkey.size) + spec_entries_bytes(
        spec_sort_entries(tkey.entries@),
    )
}

/// The bytes of a sorted entry array are one fixed-size record per entry.
pub proof fn lemma_entries_bytes_len(s: Seq<GXTInternalTKEYEntry>, format: GXTFileFormat)
    requires
        forall|k: int| 0 <= k < s.len() ==> spec_entry_kind_ok(format, #[trigger] s[k]),
    ensures
        spec_entries_bytes(s).len() == s.len() * format.spec_key_entry_size(),
    decreases s.len(),
{
    if s.len() > 0 {
        lemma_entries_bytes_len(s.drop_last(), format);
        assert((s.len() - 1) * format.spec_key_entry_size() + format.spec_key_entry_size()
            == s.len() * format.spec_key_entry_size()) by (nonlinear_arith);
    }
}

/// Size in bytes of one complete table block: the optional 8-byte name, the
/// 8-byte key-index header, the entry array, the 8-byte data header and the
/// padded data block.
pub open spec fn spec_block_len(
    entries: Seq<(String, String)>,
    format: GXTFileFormat,
    custom: Option<GXTCharacterTable>,
    named: bool,
) -> int {
    let d = spec_padded_table_data(entries, format, custom).unwrap();
    (if named {
        8int
    } else {
        0int
    }) + 8 + entries.len() * format.spec_key_entry_size() + 8 + d.len()
}

/// Combined size of the auxiliary table blocks, in table order.
pub open spec fn spec_aux_blocks_len(
    auxes: Seq<(String, GXTStringTable)>,
    format: GXTFileFormat,
    custom: Option<GXTCharacterTable>,
) -> int
    decreases auxes.len(),
{
    if auxes.len() == 0 {
        0
    } else {
        spec_aux_blocks_len(auxes.drop_last(), format, custom) + spec_block_len(
            auxes.last().1.data@,
            format,
            custom,
            true,
        )
    }
}

/// Size of everything before the main table block: nothing for the
/// single-table variant; the table of contents for the others, preceded by the
/// 4-byte version header under the hash-keyed variants.
pub open spec fn spec_front_len(format: GXTFileFormat, naux: int) -> int {
    match format {
        GXTFileFormat::Three => 0,
        GXTFileFormat::Vice => 8 + 12 * (1 + naux),
        GXTFileFormat::San8 | GXTFileFormat::San16 => 4 + 8 + 12 * (1 + naux),
    }
}

/// Total size of the compiled file.
pub open spec fn spec_file_len(doc: GXTFile, custom: Option<GXTCharacterTable>) -> int {
    spec_front_len(doc.format, doc.aux_tables@.len() as int) + spec_block_len(
        doc.main_table.data@,
        doc.format,
        custom,
        false,
    ) + spec_aux_blocks_len(doc.aux_tables@, doc.format, custom)
}

/// Everything that must hold of a document for compilation to succeed: every
/// table must compile on its own, and the laid-out file must fit the 32-bit
/// offset fields.
pub open spec fn spec_compile_ok(doc: GXTFile, custom: Option<GXTCharacterTable>) -> bool {
    &&& spec_create_ok(doc.main_table.data@, doc.format, custom, None)
    &&& (forall|k: int|
        0 <= k < doc.aux_tables@.len() ==> spec_create_ok(
            (#[trigger] doc.aux_tables@[k]).1.data@,
            doc.format,
            custom,
            Some(doc.aux_tables@[k].0@),
        ))
    &&& spec_file_len(doc, custom) <= 0xFFFFFFFF
}

/// The name token that a display name compiles to, as a spec-level value:
/// the zero-padded 8 bytes of the name under a text-keyed variant, its hash
/// under a hash-keyed one.
pub open spec fn spec_doc_token(name: Seq<char>, format: GXTFileFormat) -> GXTStringName {
    if format.spec_uses_text_names() {
        GXTStringName::Text(spec_name8_at(spec_pad8(encode_utf8(name)), 0))
    } else {
        GXTStringName::CRC32(spec_string_to_hash(name))
    }
}

/// The key-index entries that a table compiles to, in table order, before
/// sorting: each entry pairs the name's token with its value's deduplicated
/// data offset.
pub open spec fn spec_doc_entries(
    entries: Seq<(String, String)>,
    format: GXTFileFormat,
    custom: Option<GXTCharacterTable>,
) -> Seq<GXTInternalTKEYEntry> {
    Seq::new(
        entries.len(),
        |i: int|
            GXTInternalTKEYEntry {
                offset: spec_data_offset(entries, format, custom, entries[i].1@) as u32,
                name: spec_doc_token(entries[i].0@, format),
            },
    )
}

/// Dedup determinism: two entries whose names map to an identical string
/// value record the same data offset in the compiled key index.
pub proof fn lemma_dedup_entry_offsets(
    entries: Seq<(String, String)>,
    format: GXTFileFormat,
    custom: Option<GXTCharacterTable>,
    a: int,
    b: int,
)
    requires
        0 <= a < entries.len(),
        0 <= b < entries.len(),
        entries[a].1@ == entries[b].1@,
    ensures
        spec_doc_entries(entries, format, custom)[a].offset == spec_doc_entries(
            entries,
            format,
            custom,
        )[b].offset,
{
}

/// The complete bytes of one compiled table block: the optional 8-byte name,
/// the key index sorted ascending by name token, then the data block with
/// its header and the deduplicated, padded data.
pub open spec fn spec_doc_block_bytes(
    entries: Seq<(String, String)>,
    format: GXTFileFormat,
    custom: Option<GXTCharacterTable>,
    name: Option<Seq<char>>,
) -> Seq<u8> {
    let d = spec_padded_table_data(entries, format, custom).unwrap();
    (match name {
        Some(nm) => spec_pad8(encode_utf8(nm)),
        None => Seq::<u8>::empty(),
    }) + spec_magic_tkey() + spec_u32_le_bytes(
        (entries.len() * format.spec_key_entry_size()) as u32,
    ) + spec_entries_bytes(spec_sort_entries(spec_doc_entries(entries, format, custom)))
        + spec_magic_tdat() + spec_u32_le_bytes(d.len() as u32) + d
}

/// The table-of-contents records for the first `k` auxiliary tables: each
/// holds the padded 8-byte table name and the absolute offset of its block,
/// computed as the running sum of everything before it.
pub open spec fn spec_toc_aux_bytes(
    doc: GXTFile,
    custom: Option<GXTCharacterTable>,
    k: int,
) -> Seq<u8>
    decreases k,
{
    if k <= 0 {
        Seq::<u8>::empty()
    } else {
        spec_toc_aux_bytes(doc, custom, k - 1) + spec_pad8(
            encode_utf8(doc.aux_tables@[k - 1].0@),
        ) + spec_u32_le_bytes(
            (spec_front_len(doc.format, doc.aux_tables@.len() as int) + spec_block_len(
                doc.main_table.data@,
                doc.format,
                custom,
                false,
            ) + spec_aux_blocks_len(doc.aux_tables@.take(k - 1), doc.format, custom)) as u32,
        )
    }
}

/// Everything before the main table block: nothing under the single-table
/// variant; otherwise the version header of the hash-keyed variants, the
/// `"TABL"` section led by the `"MAIN"` record, and one record per auxiliary
/// table.
pub open spec fn spec_header_bytes(doc: GXTFile, custom: Option<GXTCharacterTable>) -> Seq<u8> {
    let naux = doc.aux_tables@.len() as int;
    match doc.format {
        GXTFileFormat::Three => Seq::<u8>::empty(),
        GXTFileFormat::Vice | GXTFileFormat::San8 | GXTFileFormat::San16 => (if doc.format
            == GXTFileFormat::San8 {
            spec_u16_le_bytes(4) + spec_u16_le_bytes(8)
        } else if doc.format == GXTFileFormat::San16 {
            spec_u16_le_bytes(4) + spec_u16_le_bytes(16)
        } else {
            Seq::<u8>::empty()
        }) + spec_magic_tabl() + spec_u32_le_bytes((12 * (1 + naux)) as u32) + spec_main_name()
            + spec_u32_le_bytes(spec_front_len(doc.format, naux) as u32) + spec_toc_aux_bytes(
            doc,
            custom,
            naux,
        ),
    }
}

/// The blocks of the first `k` auxiliary tables, in table-of-contents order.
pub open spec fn spec_aux_blocks_bytes(
    doc: GXTFile,
    custom: Option<GXTCharacterTable>,
    k: int,
) -> Seq<u8>
    decreases k,
{
    if k <= 0 {
        Seq::<u8>::empty()
    } else {
        spec_aux_blocks_bytes(doc, custom, k - 1) + spec_doc_block_bytes(
            doc.aux_tables@[k - 1].1.data@,
            doc.format,
            custom,
            Some(doc.aux_tables@[k - 1].0@),
        )
    }
}

/// The complete compiled file: the front matter and table of contents, the
/// main table block, then each auxiliary table block in order.
pub open spec fn spec_file_bytes(doc: GXTFile, custom: Option<GXTCharacterTable>) -> Seq<u8> {
    spec_header_bytes(doc, custom) + spec_doc_block_bytes(
        doc.main_table.data@,
        doc.format,
        custom,
        None,
    ) + spec_aux_blocks_bytes(doc, custom, doc.aux_tables@.len() as int)
}

/// A block of a compilable table is at least as long as its fixed parts and
/// never negative.
proof fn lemma_block_len_nonneg(
    entries: Seq<(String, String)>,
    format: GXTFileFormat,
    custom: Option<GXTCharacterTable>,
    named: bool,
)
    requires
        spec_table_data(entries, format, custom) is Some,
    ensures
        spec_block_len(entries, format, custom, named) >= 16,
{
    assert(entries.len() * format.spec_key_entry_size() >= 0) by (nonlinear_arith)
        requires
            entries.len() >= 0 && format.spec_key_entry_size() >= 0,
    ;
}

/// Auxiliary blocks of compilable tables have nonnegative combined size, and
/// every prefix is no longer than the whole.
proof fn lemma_aux_blocks_len_prefix(
    auxes: Seq<(String, GXTStringTable)>,
    format: GXTFileFormat,
    custom: Option<GXTCharacterTable>,
    k: int,
)
    requires
        0 <= k <= auxes.len(),
        forall|j: int|
            0 <= j < auxes.len() ==> spec_table_data(
                (#[trigger] auxes[j]).1.data@,
                format,
                custom,
            ) is Some,
    ensures
        spec_aux_blocks_len(auxes.take(k), format, custom) <= spec_aux_blocks_len(
            auxes,
            format,
            custom,
        ),
        spec_aux_blocks_len(auxes.take(k), format, custom) >= 0,
    decreases auxes.len(),
{
    if auxes.len() == 0 {
        assert(auxes.take(k) =~= auxes);
    } else if k == auxes.len() {
        assert(auxes.take(k) =~= auxes);
        assert(auxes.drop_last() =~= auxes.take(auxes.len() - 1));
        lemma_aux_blocks_len_prefix(auxes.drop_last(), format, custom, auxes.len() - 1);
        lemma_block_len_nonneg(auxes.last().1.data@, format, custom, true);
    } else {
        assert(auxes.take(k) =~= auxes.drop_last().take(k));
        assert(auxes.drop_last() =~= auxes.take(auxes.len() - 1));
        lemma_aux_blocks_len_prefix(auxes.drop_last(), format, custom, k);
        lemma_block_len_nonneg(auxes.last().1.data@, format, custom, true);
    }
}

/// A key index and data buffer built from a table emit exactly the
/// document-level block bytes.
proof fn lemma_doc_block_bridge(
    format: GXTFileFormat,
    custom: Option<GXTCharacterTable>,
    entries: Seq<(String, String)>,
    name: Option<Seq<char>>,
    tkey: GXTInternalTKEY,
    buffer: Seq<u8>,
)
    requires
        tkey.entries@ == spec_doc_entries(entries, format, custom),
        tkey.size == entries.len() * format.spec_key_entry_size(),
        match name {
            Some(nm) => tkey.name matches Some(t) && t@ == spec_pad8(encode_utf8(nm)),
            None => tkey.name is None,
        },
        Some(buffer) == spec_padded_table_data(entries, format, custom),
    ensures
        spec_tkey_block_bytes(format, tkey) + spec_magic_tdat() + spec_u32_le_bytes(
            buffer.len() as u32,
        ) + buffer == spec_doc_block_bytes(entries, format, custom, name),
{
    assert(spec_tkey_block_bytes(format, tkey) + spec_magic_tdat() + spec_u32_le_bytes(
        buffer.len() as u32,
    ) + buffer =~= spec_doc_block_bytes(entries, format, custom, name));
}

impl crate::model::GXTFile {
    /// Writes one complete table block: the key index, then the data block
    /// with its header.
    fn write_block(&self, out: &mut Vec<u8>, tkey: &GXTInternalTKEY, buffer: &Vec<u8>) -> (r:
        Result<(), GXTError>)
        requires
            buffer@.len() <= 0xFFFFFFFF,
        ensures
            r is Ok <==> (forall|j: int|
                0 <= j < tkey.entries@.len() ==> spec_entry_kind_ok(
                    self.format,
                    #[trigger] tkey.entries@[j],
                )),
            r matches Ok(_) ==> final(out)@ == old(out)@ + spec_tkey_block_bytes(
                self.format,
                *tkey,
            ) + spec_magic_tdat() + spec_u32_le_bytes(buffer@.len() as u32) + buffer@,
            r matches Err(e) ==> e is CompilationError,
    {
        match self.write_tkey_to_gxt(out, tkey) {
            Ok(u) => u,
            Err(e) => {
                return Err(e);
            },
        };
        append_magic_tdat(out);
        append_u32_le(out, buffer.len() as u32);
        out.extend_from_slice(buffer.as_slice());
        proof {
            assert(final(out)@ =~= old(out)@ + spec_tkey_block_bytes(self.format, *tkey)
                + spec_magic_tdat() + spec_u32_le_bytes(buffer@.len() as u32) + buffer@);
        }
        Ok(())
    }

    /// Writes one key-index block.
    ///
    /// Entries are emitted sorted ascending by name token: the engines run a
    /// binary search over this array at load time, so unsorted output would be
    /// a correctness bug.  A token of the wrong kind for the variant is a
    /// compilation error.
    fn write_tkey_to_gxt(&self, out: &mut Vec<u8>, tkey: &GXTInternalTKEY) -> (r: Result<
        (),
        GXTError,
    >)
        ensures
            r is Ok <==> (forall|j: int|
                0 <= j < tkey.entries@.len() ==> spec_entry_kind_ok(
                    self.format,
                    #[trigger] tkey.entries@[j],
                )),
            r matches Ok(_) ==> final(out)@ == old(out)@ + spec_tkey_block_bytes(
                self.format,
                *tkey,
            ),
            r matches Err(e) ==> e is CompilationError,
    {
        let ghost fmt = self.format;
        match &tkey.name {
            None => {},
            Some(t) => {
                append_name8(out, t);
            },
        }
        append_magic_tkey(out);
        append_u32_le(out, tkey.size);
        let ghost header = old(out)@ + (match tkey.name {
            Some(t) => t@,
            None => Seq::<u8>::empty(),
        }) + spec_magic_tkey() + spec_u32_le_bytes(tkey.size);
        proof {
            assert(out@ =~= header);
        }
        let entries_sorted = sort_entries(&tkey.entries);
        let ghost sorted = spec_sort_entries(tkey.entries@);
        proof {
            lemma_sort_entries_props(tkey.entries@);
        }
        let m = entries_sorted.len();
        let mut j: usize = 0;
        proof {
            assert(spec_entries_bytes(sorted.take(0)) =~= Seq::<u8>::empty());
            assert(header + Seq::<u8>::empty() =~= header);
        }
        while j < m
            invariant
                m == sorted.len(),
                entries_sorted@ == sorted,
                fmt == self.format,
                j <= m,
                out@ == header + spec_entries_bytes(sorted.take(j as int)),
                sorted.to_multiset() == tkey.entries@.to_multiset(),
                forall|k: int|
                    0 <= k < j ==> spec_entry_kind_ok(fmt, #[trigger] sorted[k]),
            decreases m - j,
        {
            let e = entries_sorted[j];
            proof {
                assert(sorted.take(j as int + 1).drop_last() =~= sorted.take(j as int));
                assert(sorted.take(j as int + 1).last() == sorted[j as int]);
            }
            append_u32_le(out, e.offset);
            match &e.name {
                GXTStringName::Text(t) => {
                    if !self.format.uses_text_names() {
                        proof {
                            lemma_entry_in_multiset(sorted, tkey.entries@, j as int);
                            let w = choose|w: int|
                                0 <= w < tkey.entries@.len() && tkey.entries@[w] == sorted[j as int];
                            assert(!spec_entry_kind_ok(fmt, tkey.entries@[w]));
                        }
                        let mut msg = String::new();
                        msg.append("File of this format cannot have text-based string names");
                        return Err(GXTError::CompilationError(msg));
                    }
                    append_name8(out, t);
                },
                GXTStringName::CRC32(h) => {
                    if self.format.uses_text_names() {
                        proof {
                            lemma_entry_in_multiset(sorted, tkey.entries@, j as int);
                            let w = choose|w: int|
                                0 <= w < tkey.entries@.len() && tkey.entries@[w] == sorted[j as int];
                            assert(!spec_entry_kind_ok(fmt, tkey.entries@[w]));
                        }
                        let mut msg = String::new();
                        msg.append("File of this format cannot have CRC32-based string names");
                        return Err(GXTError::CompilationError(msg));
                    }
                    append_u32_le(out, *h);
                },
            }
            proof {
                assert(out@ =~= header + spec_entries_bytes(sorted.take(j as int + 1)));
            }
            j = j + 1;
        }
        proof {
            assert(sorted.take(m as int) =~= sorted);
            assert forall|k: int| 0 <= k < tkey.entries@.len() implies spec_entry_kind_ok(
                fmt,
                #[trigger] tkey.entries@[k],
            ) by {
                lemma_entry_in_multiset(tkey.entries@, sorted, k);
                let w = choose|w: int| 0 <= w < sorted.len() && sorted[w] == tkey.entries@[k];
                assert(spec_entry_kind_ok(fmt, sorted[w]));
            }
        }
        Ok(())
    }

    /// Compiles the document and appends the complete binary file to `file`.
    ///
    /// The output is all-or-nothing: on error, `file` is left untouched.
    /// Compilation fails exactly when some table cannot compile (a name too
    /// long for a text token, an unencodable character) or the laid-out file
    /// would not fit the format's 32-bit size and offset fields.
    #[verifier::rlimit(100)]
    pub fn write_to_gxt(&self, file: &mut Vec<u8>, custom_table: &Option<GXTCharacterTable>) -> (r:
        Result<(), GXTError>)
        requires
            self.wf(),
        ensures
            r is Ok <==> spec_compile_ok(*self, *custom_table),
            r matches Ok(_) ==> final(file)@ == old(file)@ + spec_file_bytes(
                *self,
                *custom_table,
            ),
            r matches Err(e) ==> final(file)@ == old(file)@ && e is CompilationError,
    {
        let ghost fmt = self.format;
        let ghost cust = *custom_table;
        let ghost es = fmt.spec_key_entry_size();
        let (main_tkey, main_tdat) = match self.create_tkey(&self.main_table, None, custom_table) {
            Ok(p) => p,
            Err(e) => {
                return Err(e);
            },
        };
        proof {
            assert forall|j: int| 0 <= j < main_tkey.entries@.len() implies spec_entry_kind_ok(
                fmt,
                #[trigger] main_tkey.entries@[j],
            ) by {
                assert(spec_is_name_of(main_tkey.entries@[j].name, self.main_table.data@[j].0@, fmt));
            }
        }
        let mut aux_data: Vec<(GXTInternalTKEY, GXTCompilationTDAT)> = Vec::new();
        let naux = self.aux_tables.len();
        let mut k: usize = 0;
        while k < naux
            invariant
                naux == self.aux_tables@.len(),
                fmt == self.format,
                cust == *custom_table,
                k <= naux,
                aux_data@.len() == k,
                forall|j: int|
                    0 <= j < k ==> spec_create_ok(
                        (#[trigger] self.aux_tables@[j]).1.data@,
                        fmt,
                        cust,
                        Some(self.aux_tables@[j].0@),
                    ),
                forall|j: int|
                    0 <= j < k ==> (#[trigger] aux_data@[j]).0.size == self.aux_tables@[j].1.data@.len()
                        * fmt.spec_key_entry_size(),
                forall|j: int|
                    0 <= j < k ==> (#[trigger] aux_data@[j]).0.entries@.len()
                        == self.aux_tables@[j].1.data@.len(),
                forall|j: int| 0 <= j < k ==> (#[trigger] aux_data@[j]).0.name is Some,
                forall|j: int|
                    0 <= j < k ==> ((#[trigger] aux_data@[j]).0.name matches Some(t) && t@
                        == spec_pad8(encode_utf8(self.aux_tables@[j].0@))),
                forall|j: int|
                    0 <= j < k ==> (#[trigger] aux_data@[j]).0.entries@ == spec_doc_entries(
                        self.aux_tables@[j].1.data@,
                        fmt,
                        cust,
                    ),
                forall|j: int|
                    0 <= j < k ==> Some((#[trigger] aux_data@[j]).1.buffer@)
                        == spec_padded_table_data(self.aux_tables@[j].1.data@, fmt, cust),
                forall|j: int, q: int|
                    0 <= j < k && 0 <= q < aux_data@[j].0.entries@.len() ==> spec_entry_kind_ok(
                        fmt,
                        (#[trigger] aux_data@[j].0.entries@[q]),
                    ),
            decreases naux - k,
        {
            let pair = &self.aux_tables[k];
            match self.create_tkey(&pair.1, Some(pair.0.as_str()), custom_table) {
                Err(e) => {
                    return Err(e);
                },
                Ok(p) => {
                    proof {
                        assert forall|q: int| 0 <= q < p.0.entries@.len() implies spec_entry_kind_ok(
                            fmt,
                            #[trigger] p.0.entries@[q],
                        ) by {
                            assert(spec_is_name_of(p.0.entries@[q].name, pair.1.data@[q].0@, fmt));
                        }
                    }
                    aux_data.push(p);
                },
            }
            k = k + 1;
        }
        proof {
            assert forall|j: int| 0 <= j < naux implies spec_table_data(
                (#[trigger] self.aux_tables@[j]).1.data@,
                fmt,
                cust,
            ) is Some by {
                assert(spec_create_ok(
                    self.aux_tables@[j].1.data@,
                    fmt,
                    cust,
                    Some(self.aux_tables@[j].0@),
                ));
            }
            lemma_block_len_nonneg(self.main_table.data@, fmt, cust, false);
            lemma_aux_blocks_len_prefix(self.aux_tables@, fmt, cust, naux as int);
            assert(self.aux_tables@.take(naux as int) =~= self.aux_tables@);
        }
        let ghost main_block = spec_block_len(self.main_table.data@, fmt, cust, false);
        let ghost aux_full = spec_aux_blocks_len(self.aux_tables@, fmt, cust);
        if naux > 357913940 {
            proof {
                assert(naux > 0);
                assert(fmt != GXTFileFormat::Three);
                assert(spec_front_len(fmt, naux as int) >= 12 + 12 * (naux as int));
                assert(main_block >= 16);
                assert(aux_full >= 0);
                assert(naux as int >= 357913941);
                assert(12 * (naux as int) >= 4294967292) by (nonlinear_arith)
                    requires
                        naux as int >= 357913941,
                ;
                let fl = spec_file_len(*self, cust);
                assert(fl >= 28 + 12 * (naux as int));
                assert(28 + 12 * (naux as int) >= 4294967320int);
                assert(fl > 0xFFFFFFFF);
                assert(!spec_compile_ok(*self, cust));
            }
            let mut msg = String::new();
            msg.append("Table of contents exceeds the 32-bit size field of the GXT format");
            return Err(GXTError::CompilationError(msg));
        }
        let front: u64 = match self.format {
            GXTFileFormat::Three => 0,
            GXTFileFormat::Vice => 8 + 12 * (naux as u64 + 1),
            GXTFileFormat::San8 | GXTFileFormat::San16 => 12 + 12 * (naux as u64 + 1),
        };
        proof {
            assert(front == spec_front_len(fmt, naux as int));
        }
        let mut total: u64 = front + 8 + (main_tkey.size as u64) + 8 + (
        main_tdat.buffer.len() as u64);
        proof {
            assert(total == front + main_block);
            assert(spec_aux_blocks_len(self.aux_tables@.take(0), fmt, cust) == 0);
        }
        if total > 0xFFFFFFFF {
            proof {
                assert(spec_file_len(*self, cust) > 0xFFFFFFFF);
            }
            let mut msg = String::new();
            msg.append("File layout exceeds the 32-bit offset fields of the GXT format");
            return Err(GXTError::CompilationError(msg));
        }
        let mut k: usize = 0;
        while k < naux
            invariant
                naux == self.aux_tables@.len(),
                fmt == self.format,
                cust == *custom_table,
                k <= naux,
                aux_data@.len() == naux,
                total == front + main_block + spec_aux_blocks_len(
                    self.aux_tables@.take(k as int),
                    fmt,
                    cust,
                ),
                total <= 0xFFFFFFFF,
                front == spec_front_len(fmt, naux as int),
                main_block == spec_block_len(self.main_table.data@, fmt, cust, false),
                aux_full == spec_aux_blocks_len(self.aux_tables@, fmt, cust),
                forall|j: int|
                    0 <= j < naux ==> spec_create_ok(
                        (#[trigger] self.aux_tables@[j]).1.data@,
                        fmt,
                        cust,
                        Some(self.aux_tables@[j].0@),
                    ),
                forall|j: int|
                    0 <= j < naux ==> (#[trigger] aux_data@[j]).0.size == self.aux_tables@[j].1.data@.len()
                        * fmt.spec_key_entry_size(),
                forall|j: int|
                    0 <= j < naux ==> Some((#[trigger] aux_data@[j]).1.buffer@)
                        == spec_padded_table_data(self.aux_tables@[j].1.data@, fmt, cust),
            decreases naux - k,
        {
            let block: u64 = 8 + 8 + (aux_data[k].0.size as u64) + 8 + (
            aux_data[k].1.buffer.len() as u64);
            proof {
                assert(self.aux_tables@.take(k as int + 1).drop_last() =~= self.aux_tables@.take(
                    k as int,
                ));
                assert(self.aux_tables@.take(k as int + 1).last() == self.aux_tables@[k as int]);
                assert(block == spec_block_len(
                    self.aux_tables@[k as int].1.data@,
                    fmt,
                    cust,
                    true,
                ));
            }
            total = total + block;
            if total > 0xFFFFFFFF {
                proof {
                    assert forall|j: int| 0 <= j < naux implies spec_table_data(
                        (#[trigger] self.aux_tables@[j]).1.data@,
                        fmt,
                        cust,
                    ) is Some by {
                        assert(spec_create_ok(
                            self.aux_tables@[j].1.data@,
                            fmt,
                            cust,
                            Some(self.aux_tables@[j].0@),
                        ));
                    }
                    lemma_aux_blocks_len_prefix(self.aux_tables@, fmt, cust, k as int + 1);
                    assert(spec_file_len(*self, cust) > 0xFFFFFFFF);
                }
                let mut msg = String::new();
                msg.append("File layout exceeds the 32-bit offset fields of the GXT format");
                return Err(GXTError::CompilationError(msg));
            }
            k = k + 1;
        }
        proof {
            assert(self.aux_tables@.take(naux as int) =~= self.aux_tables@);
            assert(total == spec_file_len(*self, cust));
            assert(spec_compile_ok(*self, cust));
        }
        let mut out_buf: Vec<u8> = Vec::new();
        match self.format {
            GXTFileFormat::Three => {
                match self.write_block(&mut out_buf, &main_tkey, &main_tdat.buffer) {
                    Ok(u) => u,
                    Err(e) => {
                        return Err(e);
                    },
                };
                proof {
                    lemma_doc_block_bridge(
                        fmt,
                        cust,
                        self.main_table.data@,
                        None,
                        main_tkey,
                        main_tdat.buffer@,
                    );
                    assert(spec_header_bytes(*self, cust) == Seq::<u8>::empty());
                    assert(spec_aux_blocks_bytes(*self, cust, 0) == Seq::<u8>::empty());
                    assert(out_buf@ =~= spec_file_bytes(*self, cust));
                }
            },
            GXTFileFormat::Vice | GXTFileFormat::San8 | GXTFileFormat::San16 => {
                let narrow_header = !self.format.uses_text_names();
                if narrow_header {
                    append_u16_le(&mut out_buf, 4);
                    match self.format {
                        GXTFileFormat::San8 => append_u16_le(&mut out_buf, 8),
                        _ => append_u16_le(&mut out_buf, 16),
                    };
                }
                append_magic_tabl(&mut out_buf);
                let tabl_size: u32 = (12 * (naux as u64 + 1)) as u32;
                append_u32_le(&mut out_buf, tabl_size);
                append_main_name(&mut out_buf);
                let mut table_offset: u64 = front;
                append_u32_le(&mut out_buf, table_offset as u32);
                table_offset = table_offset + 8 + (main_tkey.size as u64) + 8 + (
                main_tdat.buffer.len() as u64);
                let ghost header_front = (if fmt == GXTFileFormat::San8 {
                    spec_u16_le_bytes(4) + spec_u16_le_bytes(8)
                } else if fmt == GXTFileFormat::San16 {
                    spec_u16_le_bytes(4) + spec_u16_le_bytes(16)
                } else {
                    Seq::<u8>::empty()
                }) + spec_magic_tabl() + spec_u32_le_bytes((12 * (1 + naux as int)) as u32)
                    + spec_main_name() + spec_u32_le_bytes(
                    spec_front_len(fmt, naux as int) as u32,
                );
                proof {
                    assert(out_buf@ =~= header_front);
                    assert(out_buf@ =~= header_front + spec_toc_aux_bytes(*self, cust, 0));
                    assert(spec_aux_blocks_len(self.aux_tables@.take(0), fmt, cust) == 0);
                }
                let mut k: usize = 0;
                while k < naux
                    invariant
                        naux == self.aux_tables@.len(),
                        fmt == self.format,
                        cust == *custom_table,
                        k <= naux,
                        aux_data@.len() == naux,
                        out_buf@ == header_front + spec_toc_aux_bytes(*self, cust, k as int),
                        header_front == (if fmt == GXTFileFormat::San8 {
                            spec_u16_le_bytes(4) + spec_u16_le_bytes(8)
                        } else if fmt == GXTFileFormat::San16 {
                            spec_u16_le_bytes(4) + spec_u16_le_bytes(16)
                        } else {
                            Seq::<u8>::empty()
                        }) + spec_magic_tabl() + spec_u32_le_bytes((12 * (1 + naux as int)) as u32)
                            + spec_main_name() + spec_u32_le_bytes(
                            spec_front_len(fmt, naux as int) as u32,
                        ),
                        table_offset == front + main_block + spec_aux_blocks_len(
                            self.aux_tables@.take(k as int),
                            fmt,
                            cust,
                        ),
                        total == spec_file_len(*self, cust),
                        total <= 0xFFFFFFFF,
                        front == spec_front_len(fmt, naux as int),
                        main_block == spec_block_len(self.main_table.data@, fmt, cust, false),
                        forall|j: int|
                            0 <= j < naux ==> spec_create_ok(
                                (#[trigger] self.aux_tables@[j]).1.data@,
                                fmt,
                                cust,
                                Some(self.aux_tables@[j].0@),
                            ),
                        forall|j: int|
                            0 <= j < naux ==> (#[trigger] aux_data@[j]).0.size == self.aux_tables@[j].1.data@.len()
                                * fmt.spec_key_entry_size(),
                        forall|j: int|
                            0 <= j < naux ==> Some((#[trigger] aux_data@[j]).1.buffer@)
                                == spec_padded_table_data(self.aux_tables@[j].1.data@, fmt, cust),
                        forall|j: int| 0 <= j < naux ==> (#[trigger] aux_data@[j]).0.name is Some,
                        forall|j: int|
                            0 <= j < naux ==> ((#[trigger] aux_data@[j]).0.name matches Some(t)
                                && t@ == spec_pad8(encode_utf8(self.aux_tables@[j].0@))),
                    decreases naux - k,
                {
                    proof {
                        assert forall|j: int| 0 <= j < naux implies spec_table_data(
                            (#[trigger] self.aux_tables@[j]).1.data@,
                            fmt,
                            cust,
                        ) is Some by {
                            assert(spec_create_ok(
                                self.aux_tables@[j].1.data@,
                                fmt,
                                cust,
                                Some(self.aux_tables@[j].0@),
                            ));
                        }
                        lemma_aux_blocks_len_prefix(self.aux_tables@, fmt, cust, k as int);
                        assert(table_offset <= total);
                    }
                    match &aux_data[k].0.name {
                        Some(t) => {
                            append_name8(&mut out_buf, t);
                        },
                        None => {
                            let mut msg = String::new();
                            msg.append("Auxiliary tables must have a name");
                            return Err(GXTError::CompilationError(msg));
                        },
                    }
                    append_u32_le(&mut out_buf, table_offset as u32);
                    proof {
                        assert(self.aux_tables@.take(k as int + 1).drop_last()
                            =~= self.aux_tables@.take(k as int));
                        assert(self.aux_tables@.take(k as int + 1).last() == self.aux_tables@[k as int]);
                        assert(out_buf@ =~= header_front + spec_toc_aux_bytes(
                            *self,
                            cust,
                            k as int + 1,
                        ));
                    }
                    table_offset = table_offset + 8 + 8 + (aux_data[k].0.size as u64) + 8 + (
                    aux_data[k].1.buffer.len() as u64);
                    k = k + 1;
                }
                proof {
                    assert(out_buf@ =~= spec_header_bytes(*self, cust));
                }
                match self.write_block(&mut out_buf, &main_tkey, &main_tdat.buffer) {
                    Ok(u) => u,
                    Err(e) => {
                        return Err(e);
                    },
                };
                proof {
                    lemma_doc_block_bridge(
                        fmt,
                        cust,
                        self.main_table.data@,
                        None,
                        main_tkey,
                        main_tdat.buffer@,
                    );
                    assert(out_buf@ =~= spec_header_bytes(*self, cust) + spec_doc_block_bytes(
                        self.main_table.data@,
                        fmt,
                        cust,
                        None,
                    ));
                    assert(spec_aux_blocks_len(self.aux_tables@.take(0), fmt, cust) == 0);
                }
                let mut k: usize = 0;
                while k < naux
                    invariant
                        naux == self.aux_tables@.len(),
                        fmt == self.format,
                        cust == *custom_table,
                        k <= naux,
                        aux_data@.len() == naux,
                        out_buf@ == spec_header_bytes(*self, cust) + spec_doc_block_bytes(
                            self.main_table.data@,
                            fmt,
                            cust,
                            None,
                        ) + spec_aux_blocks_bytes(*self, cust, k as int),
                        total == spec_file_len(*self, cust),
                        total <= 0xFFFFFFFF,
                        front == spec_front_len(fmt, naux as int),
                        main_block == spec_block_len(self.main_table.data@, fmt, cust, false),
                        forall|j: int|
                            0 <= j < naux ==> spec_create_ok(
                                (#[trigger] self.aux_tables@[j]).1.data@,
                                fmt,
                                cust,
                                Some(self.aux_tables@[j].0@),
                            ),
                        forall|j: int|
                            0 <= j < naux ==> (#[trigger] aux_data@[j]).0.size == self.aux_tables@[j].1.data@.len()
                                * fmt.spec_key_entry_size(),
                        forall|j: int|
                            0 <= j < naux ==> (#[trigger] aux_data@[j]).0.entries@.len()
                                == self.aux_tables@[j].1.data@.len(),
                        forall|j: int|
                            0 <= j < naux ==> Some((#[trigger] aux_data@[j]).1.buffer@)
                                == spec_padded_table_data(self.aux_tables@[j].1.data@, fmt, cust),
                        forall|j: int| 0 <= j < naux ==> (#[trigger] aux_data@[j]).0.name is Some,
                        forall|j: int|
                            0 <= j < naux ==> ((#[trigger] aux_data@[j]).0.name matches Some(t)
                                && t@ == spec_pad8(encode_utf8(self.aux_tables@[j].0@))),
                        forall|j: int|
                            0 <= j < naux ==> (#[trigger] aux_data@[j]).0.entries@
                                == spec_doc_entries(self.aux_tables@[j].1.data@, fmt, cust),
                        forall|j: int, q: int|
                            0 <= j < naux && 0 <= q < aux_data@[j].0.entries@.len()
                                ==> spec_entry_kind_ok(fmt, (#[trigger] aux_data@[j].0.entries@[q])),
                    decreases naux - k,
                {
                    let ghost before = out_buf@;
                    let entry = &aux_data[k];
                    proof {
                        assert(spec_create_ok(
                            self.aux_tables@[k as int].1.data@,
                            fmt,
                            cust,
                            Some(self.aux_tables@[k as int].0@),
                        ));
                        assert(entry.1.buffer@.len() <= 0xFFFFFFFF);
                    }
                    match self.write_block(&mut out_buf, &entry.0, &entry.1.buffer) {
                        Ok(u) => u,
                        Err(e) => {
                            return Err(e);
                        },
                    };
                    proof {
                        lemma_doc_block_bridge(
                            fmt,
                            cust,
                            self.aux_tables@[k as int].1.data@,
                            Some(self.aux_tables@[k as int].0@),
                            entry.0,
                            entry.1.buffer@,
                        );
                        assert(out_buf@ =~= spec_header_bytes(*self, cust) + spec_doc_block_bytes(
                            self.main_table.data@,
                            fmt,
                            cust,
                            None,
                        ) + spec_aux_blocks_bytes(*self, cust, k as int + 1));
                    }
                    k = k + 1;
                }
                proof {
                    assert(out_buf@ =~= spec_file_bytes(*self, cust));
                }
            },
        }
        proof {
            assert(out_buf@ == spec_file_bytes(*self, cust));
        }
        let ghost old_file = file@;
        file.append(&mut out_buf);
        proof {
            assert(final(file)@ =~= old_file + spec_file_bytes(*self, *custom_table));
        }
        Ok(())
    }

    /// Builds one table's key index and deduplicated data block.
    ///
    /// Values are encoded in table order; a value already written (even under
    /// a different name) reuses its existing offset, which reference binaries
    /// depend on for exact byte match.  Hash-keyed variants pad the block to a
    /// 4-byte boundary.
    fn create_tkey(
        &self,
        table: &GXTStringTable,
        table_name: Option<&str>,
        custom_table: &Option<GXTCharacterTable>,
    ) -> (r: Result<(GXTInternalTKEY, GXTCompilationTDAT), GXTError>)
        ensures
            match r {
                Ok(p) => {
                    let tkey = p.0;
                    let tdat = p.1;
                    &&& spec_create_ok(
                        table.data@,
                        self.format,
                        *custom_table,
                        match table_name {
                            Some(s) => Some(s@),
                            None => None,
                        },
                    )
                    &&& tkey.offset == 0
                    &&& (match table_name {
                        None => tkey.name is None,
                        Some(s) => tkey.name matches Some(t) && t@ == spec_pad8(encode_utf8(s@)),
                    })
                    &&& tkey.entries@.len() == table.data@.len()
                    &&& (forall|j: int|
                        0 <= j < table.data@.len() ==> spec_is_name_of(
                            (#[trigger] tkey.entries@[j]).name,
                            table.data@[j].0@,
                            self.format,
                        ))
                    &&& (forall|j: int|
                        0 <= j < table.data@.len() ==> (#[trigger] tkey.entries@[j]).offset as int
                            == spec_data_offset(
                            table.data@,
                            self.format,
                            *custom_table,
                            table.data@[j].1@,
                        ))
                    &&& (forall|a: int, b: int|
                        0 <= a < table.data@.len() && 0 <= b < table.data@.len() && (
                        #[trigger] table.data@[a]).1@ == (#[trigger] table.data@[b]).1@
                            ==> tkey.entries@[a].offset == tkey.entries@[b].offset)
                    &&& Some(tdat.buffer@) == spec_padded_table_data(
                        table.data@,
                        self.format,
                        *custom_table,
                    )
                    &&& tkey.size == table.data@.len() * self.format.spec_key_entry_size()
                    &&& tkey.entries@ == spec_doc_entries(table.data@, self.format, *custom_table)
                },
                Err(e) => !spec_create_ok(
                    table.data@,
                    self.format,
                    *custom_table,
                    match table_name {
                        Some(s) => Some(s@),
                        None => None,
                    },
                ) && e is CompilationError,
            },
    {
        let format = &self.format;
        let ghost fmt = self.format;
        let ghost cust = *custom_table;
        let ghost full = table.data@;
        let mut tdat = GXTCompilationTDAT { buffer: Vec::new(), offset_map: Vec::new() };
        let tkey_name: Option<[u8; 8]> = match table_name {
            None => None,
            Some(s) => {
                match string_to_name_basic(s) {
                    Ok(t) => Some(t),
                    Err(e) => {
                        return Err(e);
                    },
                }
            },
        };
        let mut entries: Vec<GXTInternalTKEYEntry> = Vec::new();
        let mut size: u32 = 0;
        let es: u32 = format.key_entry_size();
        let n = table.data.len();
        let mut i: usize = 0;
        proof {
            assert(full.take(0) =~= Seq::<(String, String)>::empty());
        }
        while i < n
            invariant
                n == full.len(),
                full == table.data@,
                fmt == self.format,
                cust == *custom_table,
                *format == fmt,
                es == fmt.spec_key_entry_size(),
                i <= n,
                spec_table_data(full.take(i as int), fmt, cust) == Some(tdat.buffer@),
                tdat.buffer@.len() <= 0xFFFFFFFF,
                entries@.len() == i,
                forall|j: int|
                    0 <= j < i ==> spec_is_name_of(
                        (#[trigger] entries@[j]).name,
                        full[j].0@,
                        fmt,
                    ),
                forall|j: int|
                    0 <= j < i ==> (#[trigger] entries@[j]).offset as int == spec_data_offset(
                        full.take(i as int),
                        fmt,
                        cust,
                        full[j].1@,
                    ),
                size == i * es,
                forall|v: Seq<char>|
                    spec_values_contain(full.take(i as int), v) ==> ((
                    #[trigger] spec_offset_map_find(tdat.offset_map@, v)) matches Some(o) && o
                        as int == spec_data_offset(full.take(i as int), fmt, cust, v)),
                forall|v: Seq<char>|
                    !spec_values_contain(full.take(i as int), v)
                        ==> #[trigger] spec_offset_map_find(tdat.offset_map@, v) is None,
            decreases n - i,
        {
            let ghost prefix = full.take(i as int);
            let ghost prefix1 = full.take(i as int + 1);
            proof {
                assert(prefix1.drop_last() =~= prefix);
                assert(prefix1.last() == full[i as int]);
            }
            let pair = &table.data[i];
            let value_str = pair.1.as_str();
            proof {
                assert(*pair == full[i as int]);
                assert(value_str@ == pair.1@);
                assert(prefix1.last().1@ == value_str@);
            }
            let hit = offset_map_find(&tdat.offset_map, value_str);
            let entry_offset: usize = match hit {
                Some(o) => {
                    proof {
                        assert(spec_values_contain(prefix, pair.1@));
                        assert(spec_table_data(prefix1, fmt, cust) == Some(tdat.buffer@));
                        lemma_data_at_offset(prefix, fmt, cust, pair.1@);
                        assert(o <= 0xFFFFFFFF);
                    }
                    o
                },
                None => {
                    proof {
                        assert(!spec_values_contain(prefix, pair.1@));
                    }
                    let cur_pos: usize = tdat.buffer.len();
                    match encode_string(value_str, format, custom_table) {
                        Err(e) => {
                            proof {
                                assert(spec_encode_string(fmt, cust, value_str@) is None);
                                assert(spec_encode_string(fmt, cust, prefix1.last().1@) is None);
                                assert(spec_table_data(prefix1, fmt, cust) is None);
                                if spec_table_data(full, fmt, cust) is Some {
                                    lemma_table_data_prefix(full, fmt, cust, i as int + 1);
                                }
                            }
                            return Err(e);
                        },
                        Ok(enc) => {
                            let mut enc = enc;
                            let ghost encv = enc@;
                            tdat.buffer.append(&mut enc);
                            proof {
                                assert(spec_table_data(prefix1, fmt, cust) == Some(tdat.buffer@));
                            }
                            if tdat.buffer.len() > 0xFFFFFFFF {
                                proof {
                                    if spec_table_data(full, fmt, cust) is Some {
                                        lemma_table_data_prefix(full, fmt, cust, i as int + 1);
                                        let d = spec_table_data(full, fmt, cust).unwrap();
                                        assert(d.len() >= tdat.buffer@.len());
                                        assert(spec_padded_table_data(
                                            full,
                                            fmt,
                                            cust,
                                        ).unwrap().len() >= d.len());
                                    }
                                }
                                let mut msg = String::new();
                                msg.append(
                                    "Data block exceeds the 32-bit size field of the GXT format",
                                );
                                return Err(GXTError::CompilationError(msg));
                            }
                            let ghost oldmap = tdat.offset_map@;
                            tdat.offset_map.push((pair.1.clone(), cur_pos));
                            proof {
                                let p = tdat.offset_map@.last();
                                assert(tdat.offset_map@.drop_last() =~= oldmap);
                                assert(tdat.offset_map@ =~= oldmap.push(p));
                                assert(p.0@ == pair.1@ && p.1 == cur_pos);
                                assert forall|v: Seq<char>| #[trigger]
                                    spec_offset_map_find(tdat.offset_map@, v) == (
                                match spec_offset_map_find(oldmap, v) {
                                    Some(o) => Some(o),
                                    None => if p.0@ == v {
                                        Some(p.1)
                                    } else {
                                        None::<usize>
                                    },
                                }) by {
                                    lemma_offset_map_push(oldmap, p, v);
                                }
                            }
                            cur_pos
                        },
                    }
                },
            };
            let name_tok = match string_to_name(pair.0.as_str(), format) {
                Ok(t) => t,
                Err(e) => {
                    return Err(e);
                },
            };
            if size > 0xFFFFFFFFu32 - es {
                proof {
                    assert((i as int + 1) * es <= n * es) by (nonlinear_arith)
                        requires
                            0 <= i as int + 1 <= n,
                            es >= 0,
                    ;
                }
                let mut msg = String::new();
                msg.append("Key index exceeds the 32-bit size field of the GXT format");
                return Err(GXTError::CompilationError(msg));
            }
            entries.push(GXTInternalTKEYEntry { offset: entry_offset as u32, name: name_tok });
            size = size + es;
            proof {
                assert forall|v: Seq<char>| spec_values_contain(prefix1, v) implies (
                spec_values_contain(prefix, v) || v == full[i as int].1@) by {
                    let w = choose|w: int|
                        0 <= w < prefix1.len() && (#[trigger] prefix1[w]).1@ == v;
                    if w < i as int {
                        assert(prefix[w].1@ == v);
                    }
                }
                assert(spec_values_contain(prefix1, full[i as int].1@));
                assert forall|v: Seq<char>| spec_values_contain(prefix, v) implies (
                spec_values_contain(prefix1, v) && spec_data_offset(prefix1, fmt, cust, v)
                    == spec_data_offset(prefix, fmt, cust, v)) by {
                    let w = choose|w: int| 0 <= w < prefix.len() && (#[trigger] prefix[w]).1@ == v;
                    assert(prefix1[w].1@ == v);
                }
                assert(entries@[i as int].offset as int == spec_data_offset(
                    prefix1,
                    fmt,
                    cust,
                    full[i as int].1@,
                ));
                assert forall|j: int| 0 <= j < i implies (#[trigger] entries@[j]).offset as int
                    == spec_data_offset(prefix1, fmt, cust, full[j].1@) by {
                    assert(prefix[j] == full[j]);
                    assert(spec_values_contain(prefix, full[j].1@));
                    assert(spec_data_offset(prefix1, fmt, cust, full[j].1@) == spec_data_offset(
                        prefix,
                        fmt,
                        cust,
                        full[j].1@,
                    ));
                }
            }
            i = i + 1;
        }
        proof {
            assert(full.take(n as int) =~= full);
        }
        let ghost data = tdat.buffer@;
        if !format.uses_text_names() {
            let len = tdat.buffer.len();
            let filler: usize = if len % 4 != 0 {
                4 - len % 4
            } else {
                0
            };
            let mut k: usize = 0;
            proof {
                assert(data + Seq::<u8>::new(0, |q: int| 0u8) =~= data);
            }
            while k < filler
                invariant
                    k <= filler,
                    filler <= 3,
                    tdat.buffer@ == data + Seq::<u8>::new(k as nat, |q: int| 0u8),
                decreases filler - k,
            {
                tdat.buffer.push(0);
                proof {
                    assert(tdat.buffer@ =~= data + Seq::<u8>::new(k as nat + 1, |q: int| 0u8));
                }
                k = k + 1;
            }
            proof {
                assert(filler == spec_pad_len(fmt, data.len()));
            }
        } else {
            proof {
                assert(spec_pad_len(fmt, data.len()) == 0);
                assert(data + Seq::<u8>::new(0, |q: int| 0u8) =~= data);
            }
        }
        if tdat.buffer.len() > 0xFFFFFFFF {
            let mut msg = String::new();
            msg.append("Data block exceeds the 32-bit size field of the GXT format");
            return Err(GXTError::CompilationError(msg));
        }
        let tkey = GXTInternalTKEY { name: tkey_name, offset: 0, size, entries };
        proof {
            assert forall|j: int| 0 <= j < full.len() implies spec_name_ok(
                (#[trigger] full[j]).0@,
                fmt,
            ) by {
                assert(spec_is_name_of(tkey.entries@[j].name, full[j].0@, fmt));
            }
            assert forall|a: int, b: int|
                0 <= a < full.len() && 0 <= b < full.len() && (#[trigger] full[a]).1@ == (
            #[trigger] full[b]).1@ implies tkey.entries@[a].offset == tkey.entries@[b].offset by {
                assert(tkey.entries@[a].offset as int == spec_data_offset(
                    full,
                    fmt,
                    cust,
                    full[a].1@,
                ));
                assert(tkey.entries@[b].offset as int == spec_data_offset(
                    full,
                    fmt,
                    cust,
                    full[b].1@,
                ));
            }
            broadcast use vstd::array::group_array_axioms;

            assert forall|j: int| 0 <= j < full.len() implies tkey.entries@[j]
                == spec_doc_entries(full, fmt, cust)[j] by {
                let e = tkey.entries@[j];
                let d = spec_doc_entries(full, fmt, cust)[j];
                assert(e.offset as int == spec_data_offset(full, fmt, cust, full[j].1@));
                assert(spec_is_name_of(e.name, full[j].0@, fmt));
                match e.name {
                    GXTStringName::Text(t) => {
                        let padded = spec_pad8(encode_utf8(full[j].0@));
                        let arr = spec_name8_at(padded, 0);
                        assert(arr@ =~= padded);
                        assert(t@ == padded);
                        assert(t =~= arr) by {
                            assert(forall|q: int| 0 <= q < 8 ==> t@[q] == arr@[q]);
                        }
                    },
                    GXTStringName::CRC32(h) => {
                        assert(h == spec_string_to_hash(full[j].0@));
                    },
                }
            }
            assert(tkey.entries@ =~= spec_doc_entries(full, fmt, cust));
        }
        Ok((tkey, tdat))
    }
}

} // verus!

