//! The character codec: per-variant mapping between 16-bit code units stored
//! in a GXT data block and display characters, with an optional custom table
//! layered over the default one, and a reserved escape band that gives every
//! code unit a reversible representation even when no glyph exists.

use vstd::prelude::*;
use crate::error::GXTError;
use crate::format::GXTFileFormat;
use crate::strutil::append_hex_u32_upper;
use crate::tables::default_table;
use crate::tables::spec_default_char;
use crate::tables::spec_default_table;

verus! {

/// A custom character table used to convert between GXT data and text for
/// versions of the games whose fonts replace the default glyphs.
///
/// The decode table maps a code unit to the character written into the text
/// form.  The encode table maps characters back to code units; it is kept
/// separate because unofficial translations sometimes reuse one code unit for
/// two similar-looking characters, and both spellings should then resolve to
/// the same code unit when compiling.  When no encode table is supplied, one
/// is derived from the decode table by inversion, first writer wins.
#[derive(Clone, Debug)]
pub struct GXTCharacterTable {
    /// Pairs of code unit and display character, consulted when decoding.
    pub decode_table: Vec<(u16, char)>,
    /// Pairs of display character and code unit, consulted when encoding.
    pub encode_table: Vec<(char, u16)>,
}

/// The encode table derived from a decode table by inversion: each decode
/// pair contributes its character, first writer wins on collision.
pub open spec fn spec_invert_decode(pairs: Seq<(u16, char)>) -> Seq<(char, u16)>
    decreases pairs.len(),
{
    if pairs.len() == 0 {
        Seq::<(char, u16)>::empty()
    } else {
        let front = spec_invert_decode(pairs.drop_last());
        if exists|j: int|
            0 <= j < pairs.len() - 1 && (#[trigger] pairs[j]).1 == pairs.last().1 {
            front
        } else {
            front.push((pairs.last().1, pairs.last().0))
        }
    }
}

impl GXTCharacterTable {
    /// Builds the encode table from the decode table by inversion when none
    /// was supplied, first writer wins on collision; a supplied encode table
    /// is left untouched.
    pub fn fill_encode_table(&mut self)
        ensures
            final(self).decode_table@ == old(self).decode_table@,
            old(self).encode_table@.len() > 0 ==> final(self).encode_table@ == old(
                self,
            ).encode_table@,
            old(self).encode_table@.len() == 0 ==> final(self).encode_table@
                == spec_invert_decode(old(self).decode_table@),
    {
        if self.encode_table.len() > 0 {
            return ;
        }
        let ghost dec = self.decode_table@;
        let n = self.decode_table.len();
        let mut i: usize = 0;
        proof {
            assert(dec.take(0) =~= Seq::<(u16, char)>::empty());
        }
        while i < n
            invariant
                dec == self.decode_table@,
                n == dec.len(),
                i <= n,
                self.encode_table@ == spec_invert_decode(dec.take(i as int)),
                forall|c: char|
                    (#[trigger] spec_custom_encode_raw(self.encode_table@, c)) is Some <==> (
                    exists|j: int| 0 <= j < i && (#[trigger] dec[j]).1 == c),
            decreases n - i,
        {
            let pair = self.decode_table[i];
            proof {
                assert(dec.take(i as int + 1).drop_last() =~= dec.take(i as int));
                assert(dec.take(i as int + 1).last() == dec[i as int]);
            }
            let hit = custom_encode_lookup(&self.encode_table, pair.1);
            let ghost before = self.encode_table@;
            match hit {
                Some(_) => {
                    proof {
                        let j = choose|j: int| 0 <= j < i && (#[trigger] dec[j]).1 == pair.1;
                        assert(dec.take(i as int + 1)[j].1 == dec.take(i as int + 1).last().1);
                    }
                },
                None => {
                    self.encode_table.push((pair.1, pair.0));
                    proof {
                        assert(self.encode_table@ =~= before.push((pair.1, pair.0)));
                        assert forall|j: int| 0 <= j < i implies (#[trigger] dec[j]).1 != pair.1 by {
                            if dec[j].1 == pair.1 {
                                assert(spec_custom_encode_raw(before, pair.1) is Some);
                            }
                        }
                        assert forall|c: char| #[trigger]
                            spec_custom_encode_raw(self.encode_table@, c) == (
                        match spec_custom_encode_raw(before, c) {
                            Some(o) => Some(o),
                            None => if pair.1 == c {
                                Some(pair.0)
                            } else {
                                None::<u16>
                            },
                        }) by {
                            lemma_custom_encode_push(before, (pair.1, pair.0), c);
                        }
                    }
                },
            }
            i = i + 1;
        }
        proof {
            assert(dec.take(n as int) =~= dec);
        }
    }
}

/// Appending a pair leaves earlier lookups unchanged and makes the new
/// character found when it was not already.
proof fn lemma_custom_encode_push(pairs: Seq<(char, u16)>, p: (char, u16), c: char)
    ensures
        spec_custom_encode_raw(pairs.push(p), c) == (match spec_custom_encode_raw(pairs, c) {
            Some(o) => Some(o),
            None => if p.0 == c {
                Some(p.1)
            } else {
                None::<u16>
            },
        }),
    decreases pairs.len(),
{
    if pairs.len() == 0 {
        assert(pairs.push(p)[0] == p);
        assert(pairs.push(p).drop_first() =~= Seq::<(char, u16)>::empty());
        assert(spec_custom_encode_raw(Seq::<(char, u16)>::empty(), c) is None);
    } else {
        assert(pairs.push(p)[0] == pairs[0]);
        assert(pairs.push(p).drop_first() =~= pairs.drop_first().push(p));
        lemma_custom_encode_push(pairs.drop_first(), p, c);
    }
}

/// The code points that `char` can hold: everything below the surrogate range
/// plus everything above it, up to the last Unicode code point.
pub open spec fn valid_unicode_scalar(u: u32) -> bool {
    u < 0xD800 || (0xE000 <= u && u <= 0x10FFFF)
}

/// Relies on char::from_u32 of std: it returns Some exactly for valid Unicode
/// scalar values, and the returned character has the requested code point.
pub assume_specification[ char::from_u32 ](u: u32) -> (r: Option<char>)
    ensures
        r is Some <==> valid_unicode_scalar(u),
        r matches Some(c) ==> c as u32 == u,
;

/// The mapping that a custom decode table gives to code unit `cv`: the value
/// of the first pair with that code unit, if any.
pub open spec fn spec_custom_decode(pairs: Seq<(u16, char)>, cv: u16) -> Option<char>
    decreases pairs.len(),
{
    if pairs.len() == 0 {
        None
    } else if pairs[0].0 == cv {
        Some(pairs[0].1)
    } else {
        spec_custom_decode(pairs.drop_first(), cv)
    }
}

/// The raw mapping that a custom encode table gives to character `c`: the code
/// unit of the first pair with that character, if any.  A pair whose code unit
/// is zero disables the custom mapping, so the caller falls through to the
/// default table.
pub open spec fn spec_custom_encode_raw(pairs: Seq<(char, u16)>, c: char) -> Option<u16>
    decreases pairs.len(),
{
    if pairs.len() == 0 {
        None
    } else if pairs[0].0 == c {
        Some(pairs[0].1)
    } else {
        spec_custom_encode_raw(pairs.drop_first(), c)
    }
}

/// The code point of the reserved escape character for code unit `cv`:
/// one private-use band for code units below 256, a second, disjoint band for
/// the rest, so that every unit has a unique, reversible representation.
pub open spec fn spec_escape_code(cv: u16) -> u32 {
    if cv >= 256 {
        (0xFEF00 + cv) as u32
    } else {
        (0xE000 + cv) as u32
    }
}

/// The character that code unit `cv` decodes to, in priority order: code units
/// below 32 pass through verbatim; then a custom decode mapping wins; then the
/// per-variant default table; and a unit with no mapping at all becomes its
/// reserved escape character.
pub open spec fn spec_decode_char(
    format: GXTFileFormat,
    custom: Option<GXTCharacterTable>,
    cv: u16,
) -> char {
    if cv < 32 {
        (cv as u32) as char
    } else {
        let custom_hit = match custom {
            Some(t) => spec_custom_decode(t.decode_table@, cv),
            None => None,
        };
        match custom_hit {
            Some(c) => c,
            None => {
                let d = spec_default_char(format, cv);
                if d != '\0' {
                    d
                } else {
                    spec_escape_code(cv) as char
                }
            },
        }
    }
}

/// The code unit that the default table of `format` gives to character `c`:
/// 32 plus the first table index holding `c`, if any, scanning from `i`.
pub open spec fn spec_table_find(t: Seq<char>, c: char, i: int) -> Option<u16>
    decreases 224 - i,
{
    if i < 0 || i >= 224 {
        None
    } else if t[i] == c {
        Some((32 + i) as u16)
    } else {
        spec_table_find(t, c, i + 1)
    }
}

/// The code unit that character `c` encodes to, in priority order: characters
/// below code point 32 pass through verbatim; a character inside either
/// reserved escape band turns back into its original code unit; then a
/// non-zero custom encode mapping wins; then the first matching slot of the
/// per-variant default table; a character found nowhere is unencodable.
pub open spec fn spec_encode_char(
    format: GXTFileFormat,
    custom: Option<GXTCharacterTable>,
    c: char,
) -> Option<u16> {
    let u = c as u32;
    if u < 32 {
        Some(u as u16)
    } else if 0xE020 <= u && u <= 0xE0FF {
        Some((u - 0xE000) as u16)
    } else if 0xFF000 <= u && u <= 0x10EEFF {
        Some((u - 0xFEF00) as u16)
    } else {
        let custom_hit = match custom {
            Some(t) => spec_custom_encode_raw(t.encode_table@, c),
            None => None,
        };
        match custom_hit {
            Some(code) => if code != 0 {
                Some(code)
            } else {
                spec_table_find(spec_default_table(format), c, 0)
            },
            None => spec_table_find(spec_default_table(format), c, 0),
        }
    }
}

/// The bytes that one code unit occupies in a data block: a single byte under
/// the 8-bit variant, and a little-endian byte pair otherwise.
pub open spec fn spec_unit_bytes(format: GXTFileFormat, v: u16) -> Seq<u8> {
    if format.spec_uses_narrow_chars() {
        seq![(v % 256) as u8]
    } else {
        seq![(v % 256) as u8, (v / 256) as u8]
    }
}

/// The terminator that ends every encoded string: one zero byte under the
/// 8-bit variant, two otherwise.
pub open spec fn spec_terminator(format: GXTFileFormat) -> Seq<u8> {
    if format.spec_uses_narrow_chars() {
        seq![0u8]
    } else {
        seq![0u8, 0u8]
    }
}

/// Whether an encoded code unit cannot be stored under this variant: the
/// 8-bit variant can only hold units below 256.
pub open spec fn spec_unit_too_wide(format: GXTFileFormat, v: u16) -> bool {
    format.spec_uses_narrow_chars() && v >= 256
}

/// The data-block bytes of a string's characters, without the terminator;
/// `None` when some character cannot be encoded or is too wide to store.
pub open spec fn spec_encode_units(
    format: GXTFileFormat,
    custom: Option<GXTCharacterTable>,
    s: Seq<char>,
) -> Option<Seq<u8>>
    decreases s.len(),
{
    if s.len() == 0 {
        Some(Seq::<u8>::empty())
    } else {
        match spec_encode_char(format, custom, s[0]) {
            None => None,
            Some(v) => if spec_unit_too_wide(format, v) {
                None
            } else {
                match spec_encode_units(format, custom, s.drop_first()) {
                    None => None,
                    Some(rest) => Some(spec_unit_bytes(format, v) + rest),
                }
            },
        }
    }
}

/// The complete data-block bytes of a string: its encoded code units followed
/// by the null terminator, or `None` when the string cannot be encoded.
pub open spec fn spec_encode_string(
    format: GXTFileFormat,
    custom: Option<GXTCharacterTable>,
    s: Seq<char>,
) -> Option<Seq<u8>> {
    match spec_encode_units(format, custom, s) {
        None => None,
        Some(units) => Some(units + spec_terminator(format)),
    }
}

/// Encoding a string one character longer appends that character's unit bytes,
/// and fails exactly when the prefix or the character fails.
proof fn lemma_encode_units_push(
    format: GXTFileFormat,
    custom: Option<GXTCharacterTable>,
    s: Seq<char>,
    c: char,
)
    ensures
        spec_encode_units(format, custom, s.push(c)) == (match spec_encode_char(
            format,
            custom,
            c,
        ) {
            None => None::<Seq<u8>>,
            Some(v) => if spec_unit_too_wide(format, v) {
                None::<Seq<u8>>
            } else {
                match spec_encode_units(format, custom, s) {
                    None => None::<Seq<u8>>,
                    Some(units) => Some(units + spec_unit_bytes(format, v)),
                }
            },
        }),
    decreases s.len(),
{
    if s.len() == 0 {
        assert(s.push(c)[0] == c);
        assert(s.push(c).drop_first() =~= Seq::<char>::empty());
        match spec_encode_char(format, custom, c) {
            None => {},
            Some(v) => {
                if !spec_unit_too_wide(format, v) {
                    assert(spec_unit_bytes(format, v) + Seq::<u8>::empty() =~= spec_unit_bytes(
                        format,
                        v,
                    ));
                    assert(Seq::<u8>::empty() + spec_unit_bytes(format, v) =~= spec_unit_bytes(
                        format,
                        v,
                    ));
                }
            },
        }
    } else {
        assert(s.push(c)[0] == s[0]);
        assert(s.push(c).drop_first() =~= s.drop_first().push(c));
        lemma_encode_units_push(format, custom, s.drop_first(), c);
        match spec_encode_char(format, custom, s[0]) {
            None => {},
            Some(v0) => {
                if !spec_unit_too_wide(format, v0) {
                    match spec_encode_char(format, custom, c) {
                        None => {},
                        Some(v) => {
                            if !spec_unit_too_wide(format, v) {
                                match spec_encode_units(format, custom, s.drop_first()) {
                                    None => {},
                                    Some(rest) => {
                                        assert(spec_unit_bytes(format, v0) + (rest
                                            + spec_unit_bytes(format, v)) =~= (spec_unit_bytes(
                                            format,
                                            v0,
                                        ) + rest) + spec_unit_bytes(format, v));
                                    },
                                }
                            }
                        },
                    }
                }
            },
        }
    }
}

/// A string with an unencodable character anywhere has no encoding.
proof fn lemma_encode_units_fail(
    format: GXTFileFormat,
    custom: Option<GXTCharacterTable>,
    s: Seq<char>,
    i: int,
)
    requires
        0 <= i < s.len(),
        match spec_encode_char(format, custom, s[i]) {
            None => true,
            Some(v) => spec_unit_too_wide(format, v),
        },
    ensures
        spec_encode_units(format, custom, s) is None,
    decreases i,
{
    if i > 0 {
        lemma_encode_units_fail(format, custom, s.drop_first(), i - 1);
    }
}

/// First-match lookup in a custom decode table.
fn custom_decode_lookup(pairs: &Vec<(u16, char)>, cv: u16) -> (r: Option<char>)
    ensures
        r == spec_custom_decode(pairs@, cv),
{
    let n = pairs.len();
    let mut i: usize = 0;
    proof {
        assert(pairs@.skip(0) =~= pairs@);
    }
    while i < n
        invariant
            n == pairs@.len(),
            i <= n,
            spec_custom_decode(pairs@.skip(i as int), cv) == spec_custom_decode(pairs@, cv),
        decreases n - i,
    {
        let pair = pairs[i];
        proof {
            assert(pairs@.skip(i as int)[0] == pairs@[i as int]);
            assert(pairs@.skip(i as int).drop_first() =~= pairs@.skip(i as int + 1));
        }
        if pair.0 == cv {
            return Some(pair.1);
        }
        i = i + 1;
    }
    proof {
        assert(pairs@.skip(n as int) =~= Seq::<(u16, char)>::empty());
    }
    None
}

/// First-match lookup in a custom encode table.
fn custom_encode_lookup(pairs: &Vec<(char, u16)>, c: char) -> (r: Option<u16>)
    ensures
        r == spec_custom_encode_raw(pairs@, c),
{
    let n = pairs.len();
    let mut i: usize = 0;
    proof {
        assert(pairs@.skip(0) =~= pairs@);
    }
    while i < n
        invariant
            n == pairs@.len(),
            i <= n,
            spec_custom_encode_raw(pairs@.skip(i as int), c) == spec_custom_encode_raw(pairs@, c),
        decreases n - i,
    {
        let pair = pairs[i];
        proof {
            assert(pairs@.skip(i as int)[0] == pairs@[i as int]);
            assert(pairs@.skip(i as int).drop_first() =~= pairs@.skip(i as int + 1));
        }
        if pair.0 == c {
            return Some(pair.1);
        }
        i = i + 1;
    }
    proof {
        assert(pairs@.skip(n as int) =~= Seq::<(char, u16)>::empty());
    }
    None
}

/// Scans the default table for the first slot holding `c`.
fn table_find(t: &str, c: char) -> (r: Option<u16>)
    requires
        t@.len() == 224,
    ensures
        r == spec_table_find(t@, c, 0),
{
    let mut i: usize = 0;
    while i < 224
        invariant
            t@.len() == 224,
            i <= 224,
            spec_table_find(t@, c, i as int) == spec_table_find(t@, c, 0),
        decreases 224 - i,
    {
        if t.get_char(i) == c {
            return Some(32 + i as u16);
        }
        i = i + 1;
    }
    None
}

/// Decodes one code unit into the character written to the text form.
pub fn decode_character(
    character_value: u16,
    format: &GXTFileFormat,
    custom_table: &Option<GXTCharacterTable>,
) -> (r: char)
    ensures
        r == spec_decode_char(*format, *custom_table, character_value),
{
    let cv = character_value;
    if cv < 32 {
        let c = char::from_u32(cv as u32).unwrap();
        proof {
            vstd::utf8::char_u32_cast(c, cv as u32);
        }
        c
    } else {
        match custom_table {
            Some(t) => {
                match custom_decode_lookup(&t.decode_table, cv) {
                    Some(c) => {
                        return c;
                    },
                    None => {},
                }
            },
            None => {},
        }
        if cv < 256 {
            let table = default_table(format);
            let d = table.get_char((cv - 32) as usize);
            if d != '\0' {
                return d;
            }
        }
        let code: u32 = if cv >= 256 {
            0xFEF00 + cv as u32
        } else {
            0xE000 + cv as u32
        };
        let c = char::from_u32(code).unwrap();
        proof {
            vstd::utf8::char_u32_cast(c, code);
            assert(code == spec_escape_code(cv));
        }
        c
    }
}

/// Encodes one character into a code unit, or fails naming the offending code
/// point when the character has no representation under this variant.
pub fn encode_character(
    character: char,
    format: &GXTFileFormat,
    custom_table: &Option<GXTCharacterTable>,
) -> (r: Result<u16, GXTError>)
    ensures
        match r {
            Ok(v) => spec_encode_char(*format, *custom_table, character) == Some(v),
            Err(e) => spec_encode_char(*format, *custom_table, character) is None
                && e is CompilationError,
        },
{
    let char_code = character as u32;
    if char_code < 32 {
        Ok(char_code as u16)
    } else if 0xE020 <= char_code && char_code <= 0xE0FF {
        Ok((char_code - 0xE000) as u16)
    } else if 0xFF000 <= char_code && char_code <= 0x10EEFF {
        Ok((char_code - 0xFEF00) as u16)
    } else {
        match custom_table {
            Some(t) => {
                match custom_encode_lookup(&t.encode_table, character) {
                    Some(code) => {
                        if code != 0 {
                            return Ok(code);
                        }
                    },
                    None => {},
                }
            },
            None => {},
        }
        let table = default_table(format);
        match table_find(table, character) {
            Some(code) => Ok(code),
            None => {
                let mut msg = String::new();
                msg.append("Codepoint with incompatible value U+");
                append_hex_u32_upper(&mut msg, char_code, 4);
                msg.append(" found");
                Err(GXTError::CompilationError(msg))
            },
        }
    }
}

/// Encodes a whole string into data-block bytes, terminator included.
///
/// Fails when some character has no representation, or, under the 8-bit
/// variant, when its code unit does not fit in one byte.
pub fn encode_string(
    string: &str,
    format: &GXTFileFormat,
    custom_table: &Option<GXTCharacterTable>,
) -> (r: Result<Vec<u8>, GXTError>)
    ensures
        match r {
            Ok(v) => spec_encode_string(*format, *custom_table, string@) == Some(v@),
            Err(e) => spec_encode_string(*format, *custom_table, string@) is None
                && e is CompilationError,
        },
{
    let mut res: Vec<u8> = Vec::new();
    let n = string.unicode_len();
    let mut i: usize = 0;
    proof {
        assert(string@.take(0) =~= Seq::<char>::empty());
    }
    while i < n
        invariant
            n == string@.len(),
            i <= n,
            spec_encode_units(*format, *custom_table, string@.take(i as int)) == Some(res@),
        decreases n - i,
    {
        let c = string.get_char(i);
        proof {
            assert(string@.take(i as int).push(c) =~= string@.take(i as int + 1));
        }
        match encode_character(c, format, custom_table) {
            Err(e) => {
                proof {
                    lemma_encode_units_fail(*format, *custom_table, string@, i as int);
                }
                return Err(e);
            },
            Ok(widechar) => {
                proof {
                    lemma_encode_units_push(*format, *custom_table, string@.take(i as int), c);
                }
                if format.uses_narrow_chars() {
                    if widechar >= 256 {
                        proof {
                            lemma_encode_units_fail(*format, *custom_table, string@, i as int);
                        }
                        let mut msg = String::new();
                        msg.append("Character U+");
                        append_hex_u32_upper(&mut msg, c as u32, 4);
                        msg.append(" is to be encoded as ");
                        append_hex_u32_upper(&mut msg, widechar as u32, 4);
                        msg.append(
                            ", but the 8-bit format GXT file can only encode characters below 255.",
                        );
                        return Err(GXTError::CompilationError(msg));
                    }
                    let ghost before = res@;
                    res.push((widechar % 256) as u8);
                    proof {
                        assert(res@ =~= before + spec_unit_bytes(*format, widechar));
                    }
                } else {
                    let ghost before = res@;
                    res.push((widechar % 256) as u8);
                    res.push((widechar / 256) as u8);
                    proof {
                        assert(res@ =~= before + spec_unit_bytes(*format, widechar));
                    }
                }
            },
        }
        i = i + 1;
    }
    proof {
        assert(string@.take(n as int) =~= string@);
    }
    let ghost units = res@;
    if format.uses_narrow_chars() {
        res.push(0);
    } else {
        res.push(0);
        res.push(0);
    }
    proof {
        assert(res@ =~= units + spec_terminator(*format));
    }
    Ok(res)
}

} // verus!
