//! The name codec: conversion between display names and the raw tokens stored
//! in a key index — fixed 8-byte text tokens for the text-keyed variants, and
//! JAMCRC hashes for the hash-keyed ones, with `#XXXXXXXX` hash literals for
//! hashes whose original name is unknown.

use vstd::prelude::*;
use vstd::string::StringSliceAdditionalSpecFns;
use vstd::utf8::encode_utf8;
use crate::error::GXTError;
use crate::format::GXTFileFormat;
use crate::hashing::crc32_jamcrc;
use crate::hashing::name_list_find;
use crate::hashing::spec_name_hash;
use crate::hashing::spec_name_list_find;
use crate::strutil::append_hex_u32_upper;
use crate::strutil::append_hex_u8_lower;
use crate::strutil::spec_hex_u32_upper;
use crate::strutil::spec_hex_u8_lower;

verus! {

/// Describes how a string's name is encoded in the GXT file.
#[derive(Clone, Copy, PartialEq, Eq, Debug)]
pub enum GXTStringName {
    /// Fixed-width 8-byte text token, zero padded (text-keyed variants).
    Text([u8; 8]),
    /// JAMCRC hash of the name (hash-keyed variants).
    CRC32(u32),
}

/// `t` with every trailing zero byte removed.
pub open spec fn spec_trim_trailing_zeros(t: Seq<u8>) -> Seq<u8>
    decreases t.len(),
{
    if t.len() == 0 {
        t
    } else if t.last() == 0 {
        spec_trim_trailing_zeros(t.drop_last())
    } else {
        t
    }
}

/// Whether a token byte may stand for itself in a display name: printable
/// ASCII except `=`, `[` and `]` (reserved by the text form) and `\` (the
/// escape character itself).
pub open spec fn spec_name_byte_plain(b: u8) -> bool {
    32 <= b && b < 127 && b != ('=' as u8) && b != ('[' as u8) && b != (']' as u8) && b != (
    '\\' as u8)
}

/// The display characters for one token byte: the byte itself when printable,
/// a doubled backslash for the backslash, and a two-digit lowercase hex escape
/// for everything else.
pub open spec fn spec_escape_name_byte(b: u8) -> Seq<char> {
    if b == ('\\' as u8) {
        seq!['\\', '\\']
    } else if spec_name_byte_plain(b) {
        seq![b as char]
    } else {
        seq!['\\', 'x'] + spec_hex_u8_lower(b)
    }
}

/// The display characters for a whole token, byte by byte.
pub open spec fn spec_name_chars(t: Seq<u8>) -> Seq<char>
    decreases t.len(),
{
    if t.len() == 0 {
        Seq::<char>::empty()
    } else {
        spec_escape_name_byte(t[0]) + spec_name_chars(t.drop_first())
    }
}

/// Rendering one more byte appends that byte's characters.
proof fn lemma_name_chars_push(t: Seq<u8>, b: u8)
    ensures
        spec_name_chars(t.push(b)) == spec_name_chars(t) + spec_escape_name_byte(b),
    decreases t.len(),
{
    if t.len() == 0 {
        assert(t.push(b)[0] == b);
        assert(t.push(b).drop_first() =~= Seq::<u8>::empty());
        assert(spec_name_chars(Seq::<u8>::empty()) == Seq::<char>::empty());
        assert(spec_name_chars(t.push(b)) == spec_escape_name_byte(b) + spec_name_chars(
            t.push(b).drop_first(),
        ));
        assert(spec_escape_name_byte(b) + Seq::<char>::empty() =~= spec_escape_name_byte(b));
        assert(Seq::<char>::empty() + spec_escape_name_byte(b) =~= spec_escape_name_byte(b));
    } else {
        assert(t.push(b)[0] == t[0]);
        assert(t.push(b).drop_first() =~= t.drop_first().push(b));
        lemma_name_chars_push(t.drop_first(), b);
        assert(spec_escape_name_byte(t[0]) + (spec_name_chars(t.drop_first())
            + spec_escape_name_byte(b)) =~= (spec_escape_name_byte(t[0]) + spec_name_chars(
            t.drop_first(),
        )) + spec_escape_name_byte(b));
    }
}

/// The `#XXXXXXXX` rendering of a hash with no known name.
pub open spec fn spec_hash_name_chars(h: u32) -> Seq<char> {
    seq!['#'] + spec_hex_u32_upper(h, 8)
}

/// The view of an optional name list, for use in contracts.
pub open spec fn spec_name_list_view(list: Option<Vec<(u32, String)>>) -> Option<
    Seq<(u32, String)>,
> {
    match list {
        Some(v) => Some(v@),
        None => None,
    }
}

/// The display name recovered from a raw token.  A text token is trimmed of
/// trailing zeros and escaped byte by byte.  A hash token is looked up in the
/// name list when one is supplied; an unknown hash is rendered as a
/// `#XXXXXXXX` literal.
pub open spec fn spec_string_from_name(
    name: GXTStringName,
    list: Option<Seq<(u32, String)>>,
) -> Seq<char> {
    match name {
        GXTStringName::Text(t) => spec_name_chars(spec_trim_trailing_zeros(t@)),
        GXTStringName::CRC32(h) => match list {
            Some(l) => match spec_name_list_find(l, h) {
                Some(s) => s,
                None => spec_hash_name_chars(h),
            },
            None => spec_hash_name_chars(h),
        },
    }
}

/// Returns a sanitized display name recovered from a raw token name.
pub fn string_from_name(name: &GXTStringName, name_list: &Option<Vec<(u32, String)>>) -> (r:
    String)
    ensures
        r@ == spec_string_from_name(*name, spec_name_list_view(*name_list)),
{
    match name {
        GXTStringName::Text(t) => {
            let mut l: usize = 8;
            proof {
                assert(t@.take(8) =~= t@);
            }
            while l > 0 && t[l - 1] == 0
                invariant
                    l <= 8,
                    spec_trim_trailing_zeros(t@.take(l as int)) == spec_trim_trailing_zeros(t@),
                decreases l,
            {
                proof {
                    assert(t@.take(l as int).drop_last() =~= t@.take(l as int - 1));
                }
                l = l - 1;
            }
            let ghost trimmed = spec_trim_trailing_zeros(t@);
            proof {
                if l == 0 {
                    assert(t@.take(0) =~= Seq::<u8>::empty());
                }
                assert(trimmed == t@.take(l as int));
            }
            let mut out = String::new();
            let mut i: usize = 0;
            proof {
                assert(trimmed.take(0) =~= Seq::<u8>::empty());
            }
            while i < l
                invariant
                    i <= l,
                    l <= 8,
                    trimmed == spec_trim_trailing_zeros(t@),
                    trimmed == t@.take(l as int),
                    out@ == spec_name_chars(trimmed.take(i as int)),
                decreases l - i,
            {
                let b = t[i];
                proof {
                    assert(trimmed.take(i as int).push(b) =~= trimmed.take(i as int + 1));
                    lemma_name_chars_push(trimmed.take(i as int), b);
                }
                if b == 92 {
                    out.push('\\');
                    out.push('\\');
                } else if b >= 32 && b < 127 && b != 61 && b != 91 && b != 93 {
                    let c = char::from_u32(b as u32).unwrap();
                    proof {
                        vstd::utf8::char_u32_cast(c, b as u32);
                        assert(c == (b as char));
                    }
                    out.push(c);
                } else {
                    out.push('\\');
                    out.push('x');
                    append_hex_u8_lower(&mut out, b);
                }
                i = i + 1;
            }
            proof {
                assert(trimmed.take(l as int) =~= trimmed);
            }
            out
        },
        GXTStringName::CRC32(h) => {
            match name_list {
                Some(list) => {
                    match name_list_find(list, *h) {
                        Some(s) => s.clone(),
                        None => hash_literal_string(*h),
                    }
                },
                None => hash_literal_string(*h),
            }
        },
    }
}

/// Renders a hash as its `#XXXXXXXX` literal.
fn hash_literal_string(h: u32) -> (r: String)
    ensures
        r@ == spec_hash_name_chars(h),
{
    let mut out = String::new();
    out.push('#');
    append_hex_u32_upper(&mut out, h, 8);
    proof {
        assert(out@ =~= spec_hash_name_chars(h));
    }
    out
}

/// A byte sequence padded with zeros to exactly 8 bytes.
pub open spec fn spec_pad8(s: Seq<u8>) -> Seq<u8> {
    Seq::new(
        8,
        |i: int|
            if i < s.len() {
                s[i]
            } else {
                0u8
            },
    )
}

/// Converts a display name to a raw 8-byte token, used for both text-variant
/// string names and table names.  A name longer than 8 bytes cannot be stored.
pub fn string_to_name_basic(string: &str) -> (r: Result<[u8; 8], GXTError>)
    ensures
        match r {
            Ok(t) => string.spec_bytes().len() <= 8 && t@ == spec_pad8(string.spec_bytes()),
            Err(e) => string.spec_bytes().len() > 8 && e is CompilationError,
        },
{
    let bytes = string.as_bytes();
    let len = bytes.len();
    if len > 8 {
        let mut msg = String::new();
        msg.append("String name (");
        msg.append(string);
        msg.append(") can't be longer than 8 bytes");
        return Err(GXTError::CompilationError(msg));
    }
    let b0: u8 = if len > 0 { bytes[0] } else { 0 };
    let b1: u8 = if len > 1 { bytes[1] } else { 0 };
    let b2: u8 = if len > 2 { bytes[2] } else { 0 };
    let b3: u8 = if len > 3 { bytes[3] } else { 0 };
    let b4: u8 = if len > 4 { bytes[4] } else { 0 };
    let b5: u8 = if len > 5 { bytes[5] } else { 0 };
    let b6: u8 = if len > 6 { bytes[6] } else { 0 };
    let b7: u8 = if len > 7 { bytes[7] } else { 0 };
    let t: [u8; 8] = [b0, b1, b2, b3, b4, b5, b6, b7];
    proof {
        assert(t@ =~= spec_pad8(string.spec_bytes()));
    }
    Ok(t)
}

/// Whether a character is an uppercase hexadecimal digit.
pub open spec fn spec_is_upper_hex_digit(c: char) -> bool {
    (('0' as u32) <= c as u32 && c as u32 <= ('9' as u32)) || (('A' as u32) <= c as u32 && c as u32
        <= ('F' as u32))
}

/// The value of an uppercase hexadecimal digit.
pub open spec fn spec_upper_hex_digit_val(c: char) -> nat {
    if c as u32 <= ('9' as u32) {
        (c as u32 - ('0' as u32)) as nat
    } else {
        (c as u32 - ('A' as u32) + 10) as nat
    }
}

/// The value of a string of uppercase hexadecimal digits, most significant
/// first.
pub open spec fn spec_hex_chars_val(s: Seq<char>) -> nat
    decreases s.len(),
{
    if s.len() == 0 {
        0
    } else {
        spec_hex_chars_val(s.drop_last()) * 16 + spec_upper_hex_digit_val(s.last())
    }
}

/// Powers of 16.
pub open spec fn pow16(n: nat) -> nat
    decreases n,
{
    if n == 0 {
        1
    } else {
        16 * pow16((n - 1) as nat)
    }
}

/// A string of hexadecimal digits stays below the corresponding power of 16.
proof fn lemma_hex_chars_val_bound(s: Seq<char>)
    requires
        forall|i: int| 0 <= i < s.len() ==> spec_is_upper_hex_digit(#[trigger] s[i]),
    ensures
        spec_hex_chars_val(s) < pow16(s.len() as nat),
    decreases s.len(),
{
    if s.len() > 0 {
        lemma_hex_chars_val_bound(s.drop_last());
        assert(spec_upper_hex_digit_val(s.last()) <= 15);
    }
}

/// Whether a display name is an explicit hash literal: `#` followed by exactly
/// 8 uppercase hexadecimal digits.
pub open spec fn spec_is_hash_literal(s: Seq<char>) -> bool {
    s.len() == 9 && s[0] == '#' && forall|i: int|
        1 <= i < 9 ==> spec_is_upper_hex_digit(#[trigger] s[i])
}

/// The hash value that a hash literal denotes.
pub open spec fn spec_hash_literal_val(s: Seq<char>) -> u32 {
    spec_hex_chars_val(s.subrange(1, 9)) as u32
}

/// Recognizes an explicit hash literal and reads its value.
fn parse_hash_literal(string: &str) -> (r: Option<u32>)
    ensures
        match r {
            Some(v) => spec_is_hash_literal(string@) && v == spec_hash_literal_val(string@),
            None => !spec_is_hash_literal(string@),
        },
{
    let n = string.unicode_len();
    if n != 9 {
        return None;
    }
    if string.get_char(0) != '#' {
        return None;
    }
    let mut acc: u32 = 0;
    let mut j: usize = 1;
    proof {
        assert(string@.subrange(1, 1) =~= Seq::<char>::empty());
    }
    while j < 9
        invariant
            1 <= j <= 9,
            string@.len() == 9,
            acc as nat == spec_hex_chars_val(string@.subrange(1, j as int)),
            forall|i: int| 1 <= i < j ==> spec_is_upper_hex_digit(#[trigger] string@[i]),
        decreases 9 - j,
    {
        let c = string.get_char(j);
        let u = c as u32;
        let d: u32 = if u >= ('0' as u32) && u <= ('9' as u32) {
            u - ('0' as u32)
        } else if u >= ('A' as u32) && u <= ('F' as u32) {
            u - ('A' as u32) + 10
        } else {
            return None;
        };
        proof {
            let prefix = string@.subrange(1, j as int);
            let next = string@.subrange(1, j as int + 1);
            assert(next.drop_last() =~= prefix);
            assert(next.last() == string@[j as int]);
            lemma_hex_chars_val_bound(prefix);
            assert(pow16(8) == 0x100000000) by {
                assert(pow16(0) == 1);
                assert(pow16(1) == 16);
                assert(pow16(2) == 256);
                assert(pow16(3) == 4096);
                assert(pow16(4) == 0x10000);
                assert(pow16(5) == 0x100000);
                assert(pow16(6) == 0x1000000);
                assert(pow16(7) == 0x10000000);
            }
            assert(pow16((j - 1) as nat) <= pow16(7)) by {
                lemma_pow16_increases((j - 1) as nat, 7);
            }
        }
        acc = acc * 16 + d;
        j = j + 1;
    }
    proof {
        assert(string@.subrange(1, 9) =~= string@.subrange(1, 9));
    }
    Some(acc)
}

/// Powers of 16 grow with the exponent.
proof fn lemma_pow16_increases(a: nat, b: nat)
    requires
        a <= b,
    ensures
        pow16(a) <= pow16(b),
    decreases b,
{
    if a < b {
        lemma_pow16_increases(a, (b - 1) as nat);
    }
}

/// The hash that a display name denotes under a hash-keyed variant: the value
/// of an explicit `#XXXXXXXX` literal, and the JAMCRC of the name's UTF-8
/// bytes for every other string.
pub open spec fn spec_string_to_hash(s: Seq<char>) -> u32 {
    if spec_is_hash_literal(s) {
        spec_hash_literal_val(s)
    } else {
        spec_name_hash(s)
    }
}

/// Converts a display name to the hash stored in a hash-keyed key index.
fn string_to_name_crc32(string: &str) -> (r: u32)
    ensures
        r == spec_string_to_hash(string@),
{
    match parse_hash_literal(string) {
        Some(v) => v,
        None => crc32_jamcrc(string.as_bytes()),
    }
}

/// Whether a display name can be stored as a token under this variant: a
/// text-keyed variant cannot store a name of more than 8 bytes; a hash-keyed
/// variant can hash any name.
pub open spec fn spec_name_ok(s: Seq<char>, format: GXTFileFormat) -> bool {
    format.spec_uses_text_names() ==> encode_utf8(s).len() <= 8
}

/// Whether `n` is exactly the token that display name `s` converts to under
/// `format`.
pub open spec fn spec_is_name_of(n: GXTStringName, s: Seq<char>, format: GXTFileFormat) -> bool {
    match n {
        GXTStringName::Text(t) => format.spec_uses_text_names() && encode_utf8(s).len() <= 8 && t@
            == spec_pad8(encode_utf8(s)),
        GXTStringName::CRC32(h) => !format.spec_uses_text_names() && h == spec_string_to_hash(s),
    }
}

/// Lexicographic order on equal-length byte sequences.
pub open spec fn spec_bytes_le(x: Seq<u8>, y: Seq<u8>) -> bool
    decreases x.len(),
{
    if x.len() == 0 || y.len() == 0 {
        true
    } else if x[0] < y[0] {
        true
    } else if x[0] > y[0] {
        false
    } else {
        spec_bytes_le(x.drop_first(), y.drop_first())
    }
}

/// The total order on name tokens that key indexes are sorted by: text tokens
/// lexicographically by their raw bytes, hashes numerically, and text tokens
/// before hashes.
pub open spec fn spec_token_le(a: GXTStringName, b: GXTStringName) -> bool {
    match (a, b) {
        (GXTStringName::Text(x), GXTStringName::Text(y)) => spec_bytes_le(x@, y@),
        (GXTStringName::CRC32(x), GXTStringName::CRC32(y)) => x <= y,
        (GXTStringName::Text(_), GXTStringName::CRC32(_)) => true,
        (GXTStringName::CRC32(_), GXTStringName::Text(_)) => false,
    }
}

/// The byte order is total.
pub proof fn lemma_bytes_le_total(x: Seq<u8>, y: Seq<u8>)
    ensures
        spec_bytes_le(x, y) || spec_bytes_le(y, x),
    decreases x.len(),
{
    if x.len() != 0 && y.len() != 0 && x[0] == y[0] {
        lemma_bytes_le_total(x.drop_first(), y.drop_first());
    }
}

/// The byte order is transitive on equal-length sequences.
pub proof fn lemma_bytes_le_trans(x: Seq<u8>, y: Seq<u8>, z: Seq<u8>)
    requires
        x.len() == y.len(),
        y.len() == z.len(),
        spec_bytes_le(x, y),
        spec_bytes_le(y, z),
    ensures
        spec_bytes_le(x, z),
    decreases x.len(),
{
    if x.len() != 0 {
        if x[0] == y[0] && y[0] == z[0] {
            lemma_bytes_le_trans(x.drop_first(), y.drop_first(), z.drop_first());
        }
    }
}

/// The byte order is antisymmetric on equal-length sequences.
pub proof fn lemma_bytes_le_antisym(x: Seq<u8>, y: Seq<u8>)
    requires
        x.len() == y.len(),
        spec_bytes_le(x, y),
        spec_bytes_le(y, x),
    ensures
        x == y,
    decreases x.len(),
{
    if x.len() == 0 {
        assert(x =~= y);
    } else {
        lemma_bytes_le_antisym(x.drop_first(), y.drop_first());
        assert(x =~= seq![x[0]] + x.drop_first());
        assert(y =~= seq![y[0]] + y.drop_first());
    }
}

/// The token order is total.
pub proof fn lemma_token_le_total(a: GXTStringName, b: GXTStringName)
    ensures
        spec_token_le(a, b) || spec_token_le(b, a),
{
    match (a, b) {
        (GXTStringName::Text(x), GXTStringName::Text(y)) => {
            lemma_bytes_le_total(x@, y@);
        },
        _ => {},
    }
}

/// The token order is transitive.
pub proof fn lemma_token_le_trans(a: GXTStringName, b: GXTStringName, c: GXTStringName)
    requires
        spec_token_le(a, b),
        spec_token_le(b, c),
    ensures
        spec_token_le(a, c),
{
    match (a, b, c) {
        (GXTStringName::Text(x), GXTStringName::Text(y), GXTStringName::Text(z)) => {
            lemma_bytes_le_trans(x@, y@, z@);
        },
        _ => {},
    }
}

/// Tokens ordered both ways are equal.
pub proof fn lemma_token_le_antisym(a: GXTStringName, b: GXTStringName)
    requires
        spec_token_le(a, b),
        spec_token_le(b, a),
    ensures
        a == b,
{
    match (a, b) {
        (GXTStringName::Text(x), GXTStringName::Text(y)) => {
            lemma_bytes_le_antisym(x@, y@);
            assert(x =~= y);
        },
        _ => {},
    }
}

/// Compares two name tokens in key-index sort order.
pub fn token_le(a: &GXTStringName, b: &GXTStringName) -> (r: bool)
    ensures
        r == spec_token_le(*a, *b),
{
    match (a, b) {
        (GXTStringName::Text(x), GXTStringName::Text(y)) => {
            let mut i: usize = 0;
            proof {
                assert(*a == GXTStringName::Text(*x));
                assert(*b == GXTStringName::Text(*y));
                assert(x@.skip(0) =~= x@);
                assert(y@.skip(0) =~= y@);
            }
            while i < 8
                invariant
                    i <= 8,
                    spec_token_le(*a, *b) == spec_bytes_le(x@, y@),
                    spec_bytes_le(x@.skip(i as int), y@.skip(i as int)) == spec_bytes_le(x@, y@),
                    forall|j: int| 0 <= j < i ==> x@[j] == y@[j],
                decreases 8 - i,
            {
                proof {
                    assert(x@.skip(i as int)[0] == x@[i as int]);
                    assert(y@.skip(i as int)[0] == y@[i as int]);
                    assert(x@.skip(i as int).drop_first() =~= x@.skip(i as int + 1));
                    assert(y@.skip(i as int).drop_first() =~= y@.skip(i as int + 1));
                }
                if x[i] < y[i] {
                    return true;
                }
                if x[i] > y[i] {
                    return false;
                }
                i = i + 1;
            }
            proof {
                assert(x@.skip(8) =~= Seq::<u8>::empty());
            }
            true
        },
        (GXTStringName::CRC32(x), GXTStringName::CRC32(y)) => *x <= *y,
        (GXTStringName::Text(_), GXTStringName::CRC32(_)) => true,
        (GXTStringName::CRC32(_), GXTStringName::Text(_)) => false,
    }
}

/// Converts a display name to the raw token stored in a key index under the
/// given variant.
pub fn string_to_name(string: &str, format: &GXTFileFormat) -> (r: Result<GXTStringName, GXTError>)
    ensures
        r is Ok <==> spec_name_ok(string@, *format),
        match r {
            Ok(n) => spec_is_name_of(n, string@, *format),
            Err(e) => e is CompilationError,
        },
{
    if format.uses_text_names() {
        match string_to_name_basic(string) {
            Ok(t) => Ok(GXTStringName::Text(t)),
            Err(e) => Err(e),
        }
    } else {
        Ok(GXTStringName::CRC32(string_to_name_crc32(string)))
    }
}

} // verus!
