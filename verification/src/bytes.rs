//! Little-endian byte helpers shared by the parser and the compiler, and the
//! four-byte magic tags that open each section.

use vstd::prelude::*;

verus! {

/// The value of four little-endian bytes.
pub open spec fn spec_le_u32(b0: u8, b1: u8, b2: u8, b3: u8) -> u32 {
    (b0 + b1 * 0x100 + b2 * 0x10000 + b3 * 0x1000000) as u32
}

/// The value of two little-endian bytes.
pub open spec fn spec_le_u16(b0: u8, b1: u8) -> u16 {
    (b0 + b1 * 0x100) as u16
}

/// The four little-endian bytes of a 32-bit value.
pub open spec fn spec_u32_le_bytes(v: u32) -> Seq<u8> {
    seq![
        (v % 0x100) as u8,
        ((v / 0x100) % 0x100) as u8,
        ((v / 0x10000) % 0x100) as u8,
        ((v / 0x1000000) % 0x100) as u8,
    ]
}

/// The two little-endian bytes of a 16-bit value.
pub open spec fn spec_u16_le_bytes(v: u16) -> Seq<u8> {
    seq![(v % 0x100) as u8, (v / 0x100) as u8]
}

/// The section magic `"TKEY"`, as bytes.
pub open spec fn spec_magic_tkey() -> Seq<u8> {
    seq![84u8, 75u8, 69u8, 89u8]
}

/// The section magic `"TDAT"`, as bytes.
pub open spec fn spec_magic_tdat() -> Seq<u8> {
    seq![84u8, 68u8, 65u8, 84u8]
}

/// The section magic `"TABL"`, as bytes.
pub open spec fn spec_magic_tabl() -> Seq<u8> {
    seq![84u8, 65u8, 66u8, 76u8]
}

/// The fixed first table-of-contents name `"MAIN"`, zero padded to 8 bytes.
pub open spec fn spec_main_name() -> Seq<u8> {
    seq![77u8, 65u8, 73u8, 78u8, 0u8, 0u8, 0u8, 0u8]
}

/// Reads a 32-bit little-endian value.
pub fn read_u32_le(data: &[u8], pos: usize) -> (r: u32)
    requires
        pos + 4 <= data@.len(),
    ensures
        r == spec_le_u32(
            data@[pos as int],
            data@[pos as int + 1],
            data@[pos as int + 2],
            data@[pos as int + 3],
        ),
{
    let b0 = data[pos] as u32;
    let b1 = data[pos + 1] as u32;
    let b2 = data[pos + 2] as u32;
    let b3 = data[pos + 3] as u32;
    b0 + b1 * 0x100 + b2 * 0x10000 + b3 * 0x1000000
}

/// Reads a 16-bit little-endian value.
pub fn read_u16_le(data: &[u8], pos: usize) -> (r: u16)
    requires
        pos + 2 <= data@.len(),
    ensures
        r == spec_le_u16(data@[pos as int], data@[pos as int + 1]),
{
    let b0 = data[pos] as u16;
    let b1 = data[pos + 1] as u16;
    b0 + b1 * 0x100
}

/// Appends a 32-bit value as four little-endian bytes.
pub fn append_u32_le(out: &mut Vec<u8>, v: u32)
    ensures
        final(out)@ == old(out)@ + spec_u32_le_bytes(v),
{
    out.push((v % 0x100) as u8);
    out.push(((v / 0x100) % 0x100) as u8);
    out.push(((v / 0x10000) % 0x100) as u8);
    out.push(((v / 0x1000000) % 0x100) as u8);
    proof {
        assert(final(out)@ =~= old(out)@ + spec_u32_le_bytes(v));
    }
}

/// Appends a 16-bit value as two little-endian bytes.
pub fn append_u16_le(out: &mut Vec<u8>, v: u16)
    ensures
        final(out)@ == old(out)@ + spec_u16_le_bytes(v),
{
    out.push((v % 0x100) as u8);
    out.push((v / 0x100) as u8);
    proof {
        assert(final(out)@ =~= old(out)@ + spec_u16_le_bytes(v));
    }
}

/// Appends the `"TKEY"` magic.
pub fn append_magic_tkey(out: &mut Vec<u8>)
    ensures
        final(out)@ == old(out)@ + spec_magic_tkey(),
{
    out.push(84);
    out.push(75);
    out.push(69);
    out.push(89);
    proof {
        assert(final(out)@ =~= old(out)@ + spec_magic_tkey());
    }
}

/// Appends the `"TDAT"` magic.
pub fn append_magic_tdat(out: &mut Vec<u8>)
    ensures
        final(out)@ == old(out)@ + spec_magic_tdat(),
{
    out.push(84);
    out.push(68);
    out.push(65);
    out.push(84);
    proof {
        assert(final(out)@ =~= old(out)@ + spec_magic_tdat());
    }
}

/// Appends the `"TABL"` magic.
pub fn append_magic_tabl(out: &mut Vec<u8>)
    ensures
        final(out)@ == old(out)@ + spec_magic_tabl(),
{
    out.push(84);
    out.push(65);
    out.push(66);
    out.push(76);
    proof {
        assert(final(out)@ =~= old(out)@ + spec_magic_tabl());
    }
}

/// Appends the padded `"MAIN"` table-of-contents name.
pub fn append_main_name(out: &mut Vec<u8>)
    ensures
        final(out)@ == old(out)@ + spec_main_name(),
{
    out.push(77);
    out.push(65);
    out.push(73);
    out.push(78);
    out.push(0);
    out.push(0);
    out.push(0);
    out.push(0);
    proof {
        assert(final(out)@ =~= old(out)@ + spec_main_name());
    }
}

/// Appends all 8 bytes of a name token.
pub fn append_name8(out: &mut Vec<u8>, name: &[u8; 8])
    ensures
        final(out)@ == old(out)@ + name@,
{
    let mut i: usize = 0;
    proof {
        assert(old(out)@ + name@.take(0) =~= old(out)@);
    }
    while i < 8
        invariant
            i <= 8,
            out@ == old(out)@ + name@.take(i as int),
        decreases 8 - i,
    {
        proof {
            assert(old(out)@ + name@.take(i as int + 1) =~= (old(out)@ + name@.take(i as int)).push(
                name@[i as int],
            ));
        }
        out.push(name[i]);
        i = i + 1;
    }
    proof {
        assert(name@.take(8) =~= name@);
    }
}

/// The 8 bytes of `s` starting at `p`, as a fixed-size name token.
pub open spec fn spec_name8_at(s: Seq<u8>, p: int) -> [u8; 8] {
    [
        s[p] as u8,
        s[p + 1] as u8,
        s[p + 2] as u8,
        s[p + 3] as u8,
        s[p + 4] as u8,
        s[p + 5] as u8,
        s[p + 6] as u8,
        s[p + 7] as u8,
    ]
}

/// The 32-bit little-endian value at position `p`.
pub open spec fn spec_le_u32_at(s: Seq<u8>, p: int) -> u32 {
    spec_le_u32(s[p], s[p + 1], s[p + 2], s[p + 3])
}

/// The 16-bit little-endian value at position `p`.
pub open spec fn spec_le_u16_at(s: Seq<u8>, p: int) -> u16 {
    spec_le_u16(s[p], s[p + 1])
}

/// Reads the 8 bytes of a name token.
pub fn read_name8(data: &[u8], pos: usize) -> (r: [u8; 8])
    requires
        pos + 8 <= data@.len(),
    ensures
        r == spec_name8_at(data@, pos as int),
{
    [
        data[pos],
        data[pos + 1],
        data[pos + 2],
        data[pos + 3],
        data[pos + 4],
        data[pos + 5],
        data[pos + 6],
        data[pos + 7],
    ]
}

/// Checks four bytes of `data` at `pos` against a four-byte tag.
pub fn match_tag4(data: &[u8], pos: usize, t0: u8, t1: u8, t2: u8, t3: u8) -> (r: bool)
    requires
        pos + 4 <= data@.len(),
    ensures
        r == (data@.subrange(pos as int, pos as int + 4) == seq![t0, t1, t2, t3]),
{
    let hit = data[pos] == t0 && data[pos + 1] == t1 && data[pos + 2] == t2 && data[pos + 3] == t3;
    proof {
        if hit {
            assert(data@.subrange(pos as int, pos as int + 4) =~= seq![t0, t1, t2, t3]);
        } else {
            assert(data@.subrange(pos as int, pos as int + 4) != seq![t0, t1, t2, t3]) by {
                let sub = data@.subrange(pos as int, pos as int + 4);
                if sub == seq![t0, t1, t2, t3] {
                    assert(sub[0] == t0 && sub[1] == t1 && sub[2] == t2 && sub[3] == t3);
                }
            }
        }
    }
    hit
}

} // verus!
