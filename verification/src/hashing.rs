//! Name hashing for the hash-keyed variants: the engine stores a string's
//! name as the bitwise complement of its standard CRC32 checksum (the "JAM
//! CRC" variant), and an optional name list maps such hashes back to the
//! human-readable names they came from.

use vstd::prelude::*;
use vstd::utf8::encode_utf8;

verus! {

/// The standard CRC32 checksum of a byte sequence, as the outside checksum
/// crate computes it: a function of the bytes alone.
pub uninterp spec fn crc32_of(data: Seq<u8>) -> u32;

/// Relies on crc32_light::crc32: the standard CRC32 checksum of the bytes,
/// depending on the bytes alone.
#[verifier::external_body]
fn crc32_checksum(bin_data: &[u8]) -> (r: u32)
    ensures
        r == crc32_of(bin_data@),
{
    crc32_light::crc32(bin_data)
}

/// The name hash of a byte sequence: the bitwise complement of its CRC32.
pub open spec fn spec_jamcrc(data: Seq<u8>) -> u32 {
    crc32_of(data) ^ 0xFFFFFFFFu32
}

/// The name hash of a display name, taken over its UTF-8 bytes.
pub open spec fn spec_name_hash(name: Seq<char>) -> u32 {
    spec_jamcrc(encode_utf8(name))
}

/// Returns the bitwise complement of the CRC32 checksum, matching the
/// CRC32-JAMCRC hash that the engine itself computes over string names.
pub fn crc32_jamcrc(bin_data: &[u8]) -> (r: u32)
    ensures
        r == spec_jamcrc(bin_data@),
{
    crc32_checksum(bin_data) ^ 0xFFFFFFFF
}

/// The name that a name list gives to hash `h`: the name of the first pair
/// carrying that hash, if any.
pub open spec fn spec_name_list_find(list: Seq<(u32, String)>, h: u32) -> Option<Seq<char>>
    decreases list.len(),
{
    if list.len() == 0 {
        None
    } else if list[0].0 == h {
        Some(list[0].1@)
    } else {
        spec_name_list_find(list.drop_first(), h)
    }
}

/// First-match lookup of a hash in a name list.
pub fn name_list_find(list: &Vec<(u32, String)>, h: u32) -> (r: Option<&String>)
    ensures
        match r {
            Some(s) => spec_name_list_find(list@, h) == Some(s@),
            None => spec_name_list_find(list@, h) is None,
        },
{
    let n = list.len();
    let mut i: usize = 0;
    proof {
        assert(list@.skip(0) =~= list@);
    }
    while i < n
        invariant
            n == list@.len(),
            i <= n,
            spec_name_list_find(list@.skip(i as int), h) == spec_name_list_find(list@, h),
        decreases n - i,
    {
        let pair = &list[i];
        proof {
            assert(list@.skip(i as int)[0] == list@[i as int]);
            assert(list@.skip(i as int).drop_first() =~= list@.skip(i as int + 1));
        }
        if pair.0 == h {
            return Some(&pair.1);
        }
        i = i + 1;
    }
    proof {
        assert(list@.skip(n as int) =~= Seq::<(u32, String)>::empty());
    }
    None
}

/// The name list after recording `name` under hash `h`: an existing pair
/// with that hash is replaced in place — so on a hash collision the later
/// name wins — and a fresh hash is appended.
pub open spec fn spec_name_list_insert(
    list: Seq<(u32, String)>,
    h: u32,
    name: String,
) -> Seq<(u32, String)>
    decreases list.len(),
{
    if list.len() == 0 {
        seq![(h, name)]
    } else if list[0].0 == h {
        seq![(h, name)] + list.drop_first()
    } else {
        seq![list[0]] + spec_name_list_insert(list.drop_first(), h, name)
    }
}

/// The reverse lookup list built from user-supplied names: each name keyed
/// by its JAMCRC hash, in list order, later names replacing earlier ones
/// when two names share a hash.
pub open spec fn spec_build_name_list(names: Seq<String>) -> Seq<(u32, String)>
    decreases names.len(),
{
    if names.len() == 0 {
        Seq::<(u32, String)>::empty()
    } else {
        spec_name_list_insert(
            spec_build_name_list(names.drop_last()),
            spec_name_hash(names.last()@),
            names.last(),
        )
    }
}

/// Recording a fresh hash appends it.
proof fn lemma_name_list_insert_miss(list: Seq<(u32, String)>, h: u32, name: String)
    requires
        forall|j: int| 0 <= j < list.len() ==> (#[trigger] list[j]).0 != h,
    ensures
        spec_name_list_insert(list, h, name) == list.push((h, name)),
    decreases list.len(),
{
    if list.len() == 0 {
        assert(seq![(h, name)] =~= list.push((h, name)));
    } else {
        lemma_name_list_insert_miss(list.drop_first(), h, name);
        assert(seq![list[0]] + list.drop_first().push((h, name)) =~= list.push((h, name)));
    }
}

/// Recording an existing hash replaces its pair in place.
proof fn lemma_name_list_insert_hit(list: Seq<(u32, String)>, h: u32, name: String, i: int)
    requires
        0 <= i < list.len(),
        list[i].0 == h,
        forall|j: int| 0 <= j < i ==> (#[trigger] list[j]).0 != h,
    ensures
        spec_name_list_insert(list, h, name) == list.update(i, (h, name)),
    decreases i,
{
    if i == 0 {
        assert(seq![(h, name)] + list.drop_first() =~= list.update(0, (h, name)));
    } else {
        lemma_name_list_insert_hit(list.drop_first(), h, name, i - 1);
        assert(seq![list[0]] + list.drop_first().update(i - 1, (h, name)) =~= list.update(
            i,
            (h, name),
        ));
    }
}

/// Looking up after recording finds the recorded name for its hash and
/// leaves every other hash's result unchanged.
proof fn lemma_name_list_find_insert(list: Seq<(u32, String)>, h: u32, name: String, h2: u32)
    ensures
        spec_name_list_find(spec_name_list_insert(list, h, name), h2) == (if h2 == h {
            Some(name@)
        } else {
            spec_name_list_find(list, h2)
        }),
    decreases list.len(),
{
    if list.len() == 0 {
        let r = seq![(h, name)];
        assert(r[0] == (h, name));
        assert(r.drop_first() =~= Seq::<(u32, String)>::empty());
        assert(spec_name_list_find(Seq::<(u32, String)>::empty(), h2) is None);
        assert(spec_name_list_find(r, h2) == (if h2 == h {
            Some(name@)
        } else {
            None::<Seq<char>>
        }));
    } else if list[0].0 == h {
        let r = seq![(h, name)] + list.drop_first();
        assert(r[0] == (h, name));
        assert(r.drop_first() =~= list.drop_first());
    } else {
        lemma_name_list_find_insert(list.drop_first(), h, name, h2);
        let r = seq![list[0]] + spec_name_list_insert(list.drop_first(), h, name);
        assert(r[0] == list[0]);
        assert(r.drop_first() =~= spec_name_list_insert(list.drop_first(), h, name));
    }
}

/// On a hash collision the later name wins: the built list resolves a hash
/// to the last listed name carrying it.
pub proof fn lemma_build_name_list_last_wins(names: Seq<String>, i: int)
    requires
        0 <= i < names.len(),
        forall|j: int|
            i < j < names.len() ==> spec_name_hash((#[trigger] names[j])@) != spec_name_hash(
                names[i]@,
            ),
    ensures
        spec_name_list_find(spec_build_name_list(names), spec_name_hash(names[i]@)) == Some(
            names[i]@,
        ),
    decreases names.len(),
{
    let front = spec_build_name_list(names.drop_last());
    let hl = spec_name_hash(names.last()@);
    let hi = spec_name_hash(names[i]@);
    lemma_name_list_find_insert(front, hl, names.last(), hi);
    if i < names.len() - 1 {
        assert(names[names.len() - 1] == names.last());
        assert(hl != hi);
        assert forall|j: int|
            i < j < names.drop_last().len() implies spec_name_hash(
            (#[trigger] names.drop_last()[j])@,
        ) != spec_name_hash(names.drop_last()[i]@) by {
            assert(names.drop_last()[j] == names[j]);
        }
        lemma_build_name_list_last_wins(names.drop_last(), i);
    }
}

/// Builds a reverse lookup list from user-supplied names: each name is keyed
/// by its JAMCRC hash, in the order given; a name whose hash was already
/// recorded replaces the earlier pair, so the later name wins.
pub fn build_name_list(names: &Vec<String>) -> (r: Vec<(u32, String)>)
    ensures
        r@ == spec_build_name_list(names@),
{
    let mut r: Vec<(u32, String)> = Vec::new();
    let n = names.len();
    let mut i: usize = 0;
    proof {
        assert(names@.take(0) =~= Seq::<String>::empty());
    }
    while i < n
        invariant
            n == names@.len(),
            i <= n,
            r@ == spec_build_name_list(names@.take(i as int)),
        decreases n - i,
    {
        let name = &names[i];
        let h = crc32_jamcrc(name.as_str().as_bytes());
        proof {
            assert(names@.take(i as int + 1).drop_last() =~= names@.take(i as int));
            assert(names@.take(i as int + 1).last() == names@[i as int]);
        }
        let m = r.len();
        let mut k: usize = 0;
        while k < m && r[k].0 != h
            invariant
                r@.len() == m,
                k <= m,
                forall|j: int| 0 <= j < k ==> (#[trigger] r@[j]).0 != h,
            decreases m - k,
        {
            k = k + 1;
        }
        if k < m {
            proof {
                lemma_name_list_insert_hit(r@, h, *name, k as int);
            }
            let ghost before = r@;
            r[k] = (h, name.clone());
            proof {
                assert(r@ =~= before.update(k as int, (h, names@[i as int])));
            }
        } else {
            proof {
                lemma_name_list_insert_miss(r@, h, *name);
            }
            r.push((h, name.clone()));
        }
        i = i + 1;
    }
    proof {
        assert(names@.take(n as int) =~= names@);
    }
    r
}

} // verus!
