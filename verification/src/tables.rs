//! The per-variant default character tables: static read-only data mapping a
//! 16-bit code unit in the range 32..256 to a display character.  Each table
//! is stored as one 224-character string, indexed by code unit minus 32; a
//! NUL slot means "no default mapping": such a code unit must be represented
//! by a reserved escape-band character instead.
//!
//! The tables largely match ASCII, then add accented characters for western
//! European text, or replace certain characters with icons.  The third table
//! is the CP1252 code page, shared by both hash-keyed variants.

use vstd::prelude::*;
use crate::format::GXTFileFormat;

verus! {

/// Default character table of the single-table format.
pub const GTA3_DEFAULT_CHARACTER_TABLE: &'static str = " !\"#$%&'()*+,-./0123456789:;<=>?™ABCDEFGHIJKLMNOPQRSTUVWXYZ[\\]^°`abcdefghijklmnopqrstuvwxyz❤◯\0~\0ÀÁÂÄÆÇÈÉÊËÌÍÎÏÒÓÔÖÙÚÛÜßàáâäæçèéêëìíîïòóôöùúûüÑñ¿¡\0\0\0\0\0\0\0\0\0\0\0\0\0\0\0\0\0\0\0\0\0\0\0\0\0\0\0\0\0\0\0\0\0\0\0\0\0\0\0\0\0\0\0\0\0\0\0\0\0\0\0\0\0\0\0\0\0\0\0\0\0\0\0\0\0\0\0\0\0\0\0\0\0\0\0\0\0\0\0";

/// Default character table of the second text-keyed format.
pub const VICE_DEFAULT_CHARACTER_TABLE: &'static str = " !\"#$%&'()*+,-./0123456789:;🛡=★?™ABCDEFGHIJKLMNOPQRSTUVWXYZ[\\]¡°`abcdefghijklmnopqrstuvwxyz❤|}~\0ÀÁÂÄÆÇÈÉÊËÌÍÎÏÒÓÔÖÙÚÛÜßàáâäæçèéêëìíîïòóôöùúûüÑñ¿\0\0\0\0\0\0\0\0\0\0\0\0\0\0\0\0\0\0\0\0\0\0\0\0\0\0\0\0\0\0\0\0\0\0\0\0\0\0\0\0\0\0\0\0\0\0\0\0\0\0\0\0\0\0\0\0\0\0\0\0\0\0\0\0\0\0\0\0\0\0\0\0\0\0\0\0\0\0\0\0";

/// Default character table of the hash-keyed formats (the CP1252 code page).
pub const SAN_DEFAULT_CHARACTER_TABLE: &'static str = " !\"#$%&'()*+,-./0123456789:;<=>?@ABCDEFGHIJKLMNOPQRSTUVWXYZ[\\]^_`abcdefghijklmnopqrstuvwxyz{|}~\0€\0‚ƒ„…†‡ˆ‰Š‹Œ\0Ž\0\0‘’“”•–—˜™š›œ\0žŸ ¡¢£¤¥¦§¨©ª«¬­®¯°±²³´µ¶·¸¹º»¼½¾¿ÀÁÂÃÄÅÆÇÈÉÊËÌÍÎÏÐÑÒÓÔÕÖ×ØÙÚÛÜÝÞßàáâãäåæçèéêëìíîïðñòóôõö÷øùúûüýþÿ";

/// The default table that a format variant selects.
pub open spec fn spec_default_table(format: GXTFileFormat) -> Seq<char> {
    match format {
        GXTFileFormat::Three => GTA3_DEFAULT_CHARACTER_TABLE@,
        GXTFileFormat::Vice => VICE_DEFAULT_CHARACTER_TABLE@,
        GXTFileFormat::San8 | GXTFileFormat::San16 => SAN_DEFAULT_CHARACTER_TABLE@,
    }
}

/// The default display character for code unit `cv`, or `'\0'` if the table
/// has no mapping for it.  Code units outside 32..256 never have one.
pub open spec fn spec_default_char(format: GXTFileFormat, cv: u16) -> char {
    if 32 <= cv < 256 {
        spec_default_table(format)[cv - 32]
    } else {
        '\0'
    }
}

/// Every default table holds exactly one character per code unit from 32
/// to 255.
pub proof fn lemma_default_table_len(format: GXTFileFormat)
    ensures
        spec_default_table(format).len() == 224,
{
    reveal_strlit(" !\"#$%&'()*+,-./0123456789:;<=>?™ABCDEFGHIJKLMNOPQRSTUVWXYZ[\\]^°`abcdefghijklmnopqrstuvwxyz❤◯\0~\0ÀÁÂÄÆÇÈÉÊËÌÍÎÏÒÓÔÖÙÚÛÜßàáâäæçèéêëìíîïòóôöùúûüÑñ¿¡\0\0\0\0\0\0\0\0\0\0\0\0\0\0\0\0\0\0\0\0\0\0\0\0\0\0\0\0\0\0\0\0\0\0\0\0\0\0\0\0\0\0\0\0\0\0\0\0\0\0\0\0\0\0\0\0\0\0\0\0\0\0\0\0\0\0\0\0\0\0\0\0\0\0\0\0\0\0\0");
    reveal_strlit(" !\"#$%&'()*+,-./0123456789:;🛡=★?™ABCDEFGHIJKLMNOPQRSTUVWXYZ[\\]¡°`abcdefghijklmnopqrstuvwxyz❤|}~\0ÀÁÂÄÆÇÈÉÊËÌÍÎÏÒÓÔÖÙÚÛÜßàáâäæçèéêëìíîïòóôöùúûüÑñ¿\0\0\0\0\0\0\0\0\0\0\0\0\0\0\0\0\0\0\0\0\0\0\0\0\0\0\0\0\0\0\0\0\0\0\0\0\0\0\0\0\0\0\0\0\0\0\0\0\0\0\0\0\0\0\0\0\0\0\0\0\0\0\0\0\0\0\0\0\0\0\0\0\0\0\0\0\0\0\0\0");
    reveal_strlit(" !\"#$%&'()*+,-./0123456789:;<=>?@ABCDEFGHIJKLMNOPQRSTUVWXYZ[\\]^_`abcdefghijklmnopqrstuvwxyz{|}~\0€\0‚ƒ„…†‡ˆ‰Š‹Œ\0Ž\0\0‘’“”•–—˜™š›œ\0žŸ ¡¢£¤¥¦§¨©ª«¬­®¯°±²³´µ¶·¸¹º»¼½¾¿ÀÁÂÃÄÅÆÇÈÉÊËÌÍÎÏÐÑÒÓÔÕÖ×ØÙÚÛÜÝÞßàáâãäåæçèéêëìíîïðñòóôõö÷øùúûüýþÿ");
}

/// Returns the default table selected by `format`.
pub fn default_table(format: &GXTFileFormat) -> (r: &'static str)
    ensures
        r@ == spec_default_table(*format),
        r@.len() == 224,
{
    proof {
        lemma_default_table_len(*format);
    }
    match format {
        GXTFileFormat::Three => GTA3_DEFAULT_CHARACTER_TABLE,
        GXTFileFormat::Vice => VICE_DEFAULT_CHARACTER_TABLE,
        GXTFileFormat::San8 | GXTFileFormat::San16 => SAN_DEFAULT_CHARACTER_TABLE,
    }
}

} // verus!
