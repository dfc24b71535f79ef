//! Small verified helpers for building strings: appending single characters
//! and rendering fixed-width uppercase or lowercase hexadecimal.

use vstd::prelude::*;

verus! {

/// Relies on String::push of std: it appends exactly the given character.
pub assume_specification[ String::push ](s: &mut String, c: char)
    ensures
        final(s)@ == old(s)@.push(c),
;

/// The uppercase hexadecimal digit for a value below 16.
pub open spec fn spec_hex_digit_upper(n: u32) -> char {
    if n < 10 {
        (('0' as u32) + n) as char
    } else {
        (('A' as u32) + (n - 10)) as char
    }
}

/// The lowercase hexadecimal digit for a value below 16.
pub open spec fn spec_hex_digit_lower(n: u32) -> char {
    if n < 10 {
        (('0' as u32) + n) as char
    } else {
        (('a' as u32) + (n - 10)) as char
    }
}

/// `v` rendered as exactly `digits` uppercase hexadecimal digits, most
/// significant first (the low digits of `v` if it does not fit).
pub open spec fn spec_hex_u32_upper(v: u32, digits: nat) -> Seq<char>
    decreases digits,
{
    if digits == 0 {
        Seq::<char>::empty()
    } else {
        spec_hex_u32_upper(v / 16, (digits - 1) as nat).push(spec_hex_digit_upper(v % 16))
    }
}

/// Appends the uppercase hexadecimal digit for `n`.
fn push_hex_digit_upper(out: &mut String, n: u32)
    requires
        n < 16,
    ensures
        final(out)@ == old(out)@.push(spec_hex_digit_upper(n)),
{
    let code: u32 = if n < 10 {
        ('0' as u32) + n
    } else {
        ('A' as u32) + (n - 10)
    };
    let c = char::from_u32(code).unwrap();
    proof {
        vstd::utf8::char_u32_cast(c, code);
        assert(c == spec_hex_digit_upper(n));
    }
    out.push(c);
}

/// Appends `v` as exactly `digits` uppercase hexadecimal digits, most
/// significant first.
pub fn append_hex_u32_upper(out: &mut String, v: u32, digits: usize)
    ensures
        final(out)@ == old(out)@ + spec_hex_u32_upper(v, digits as nat),
    decreases digits,
{
    if digits == 0 {
        proof {
            assert(old(out)@ + spec_hex_u32_upper(v, 0) =~= old(out)@);
        }
        return ;
    }
    append_hex_u32_upper(out, v / 16, digits - 1);
    push_hex_digit_upper(out, v % 16);
    proof {
        assert(old(out)@ + spec_hex_u32_upper(v, digits as nat) =~= (old(out)@
            + spec_hex_u32_upper(v / 16, (digits - 1) as nat)).push(
            spec_hex_digit_upper(v % 16),
        ));
    }
}

/// The lowercase two-digit hexadecimal rendering of a byte.
pub open spec fn spec_hex_u8_lower(b: u8) -> Seq<char> {
    seq![spec_hex_digit_lower((b / 16) as u32), spec_hex_digit_lower((b % 16) as u32)]
}

/// Appends a byte as exactly two lowercase hexadecimal digits.
pub fn append_hex_u8_lower(out: &mut String, b: u8)
    ensures
        final(out)@ == old(out)@ + spec_hex_u8_lower(b),
{
    let hi: u32 = (b / 16) as u32;
    let lo: u32 = (b % 16) as u32;
    let hc: u32 = if hi < 10 {
        ('0' as u32) + hi
    } else {
        ('a' as u32) + (hi - 10)
    };
    let lc: u32 = if lo < 10 {
        ('0' as u32) + lo
    } else {
        ('a' as u32) + (lo - 10)
    };
    let h = char::from_u32(hc).unwrap();
    let l = char::from_u32(lc).unwrap();
    proof {
        vstd::utf8::char_u32_cast(h, hc);
        vstd::utf8::char_u32_cast(l, lc);
        assert(h == spec_hex_digit_lower((b / 16) as u32));
        assert(l == spec_hex_digit_lower((b % 16) as u32));
    }
    out.push(h);
    out.push(l);
    proof {
        assert(final(out)@ =~= old(out)@ + spec_hex_u8_lower(b));
    }
}

/// Lexicographic order on character sequences, by code point; a prefix sorts
/// before its extensions.  This is the order of Rust's string comparison.
pub open spec fn spec_chars_le(a: Seq<char>, b: Seq<char>) -> bool
    decreases a.len(),
{
    if a.len() == 0 {
        true
    } else if b.len() == 0 {
        false
    } else if (a[0] as u32) < (b[0] as u32) {
        true
    } else if (a[0] as u32) > (b[0] as u32) {
        false
    } else {
        spec_chars_le(a.drop_first(), b.drop_first())
    }
}

/// Lexicographic string comparison, specified over the views.
pub fn str_le(a: &str, b: &str) -> (r: bool)
    ensures
        r == spec_chars_le(a@, b@),
{
    let na = a.unicode_len();
    let nb = b.unicode_len();
    let mut i: usize = 0;
    proof {
        assert(a@.skip(0) =~= a@);
        assert(b@.skip(0) =~= b@);
    }
    loop
        invariant
            na == a@.len(),
            nb == b@.len(),
            i <= na,
            i <= nb,
            spec_chars_le(a@.skip(i as int), b@.skip(i as int)) == spec_chars_le(a@, b@),
        decreases na - i,
    {
        if i >= na {
            return true;
        }
        if i >= nb {
            return false;
        }
        let ca = a.get_char(i);
        let cb = b.get_char(i);
        proof {
            assert(a@.skip(i as int)[0] == a@[i as int]);
            assert(b@.skip(i as int)[0] == b@[i as int]);
            assert(a@.skip(i as int).drop_first() =~= a@.skip(i as int + 1));
            assert(b@.skip(i as int).drop_first() =~= b@.skip(i as int + 1));
        }
        if (ca as u32) < (cb as u32) {
            return true;
        }
        if (ca as u32) > (cb as u32) {
            return false;
        }
        i = i + 1;
    }
}

/// Character-by-character string equality, specified over the views.
pub fn str_eq(a: &str, b: &str) -> (r: bool)
    ensures
        r == (a@ == b@),
{
    let na = a.unicode_len();
    let nb = b.unicode_len();
    if na != nb {
        return false;
    }
    let mut i: usize = 0;
    while i < na
        invariant
            na == a@.len(),
            na == b@.len(),
            i <= na,
            forall|j: int| 0 <= j < i ==> a@[j] == b@[j],
        decreases na - i,
    {
        if a.get_char(i) != b.get_char(i) {
            return false;
        }
        i = i + 1;
    }
    proof {
        assert(a@ =~= b@);
    }
    true
}

} // verus!
