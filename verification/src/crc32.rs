//! CRC-32/ISO-HDLC, the variant PNG and ZIP both use.

use vstd::prelude::*;

verus! {

/// One bit through the shift register of the reflected polynomial.
pub open spec fn shift(c: u32) -> u32 {
    if c & 1 != 0 {
        0xEDB8_8320 ^ (c >> 1)
    } else {
        c >> 1
    }
}

/// Eight bits through the shift register.
pub open spec fn shift8(c: u32) -> u32 {
    shift(shift(shift(shift(shift(shift(shift(shift(c))))))))
}

/// The register after one more byte.
pub open spec fn absorb(c: u32, b: u8) -> u32 {
    shift8(c ^ (b as u32))
}

/// The register after the bytes of `s`.
pub open spec fn absorb_all(c: u32, s: Seq<u8>) -> u32
    decreases s.len(),
{
    if s.len() == 0 {
        c
    } else {
        absorb(absorb_all(c, s.drop_last()), s.last())
    }
}

/// The checksum of `s`: bit by bit, from all ones, inverted at the end.
pub open spec fn checksum(s: Seq<u8>) -> u32 {
    absorb_all(0xFFFF_FFFF, s) ^ 0xFFFF_FFFF
}

/// The slices of `parts` end to end.
pub open spec fn joined(parts: Seq<&[u8]>) -> Seq<u8>
    decreases parts.len(),
{
    if parts.len() == 0 {
        Seq::empty()
    } else {
        joined(parts.drop_last()) + parts.last()@
    }
}

/// The register runs on across a split: absorbing `a` and then `b` is
/// absorbing `a + b`.
pub proof fn absorbing_splits(c: u32, a: Seq<u8>, b: Seq<u8>)
    ensures
        absorb_all(c, a + b) == absorb_all(absorb_all(c, a), b),
    decreases b.len(),
{
    if b.len() == 0 {
        assert(a + b =~= a);
    } else {
        assert((a + b).drop_last() =~= a + b.drop_last());
        absorbing_splits(c, a, b.drop_last());
    }
}

proof fn registers_stay_apart(a: u32, b: u32)
    requires
        a != b,
    ensures
        shift8(a) != shift8(b),
{
    shifts_stay_apart(a, b);
    let (a, b) = (shift(a), shift(b));
    shifts_stay_apart(a, b);
    let (a, b) = (shift(a), shift(b));
    shifts_stay_apart(a, b);
    let (a, b) = (shift(a), shift(b));
    shifts_stay_apart(a, b);
    let (a, b) = (shift(a), shift(b));
    shifts_stay_apart(a, b);
    let (a, b) = (shift(a), shift(b));
    shifts_stay_apart(a, b);
    let (a, b) = (shift(a), shift(b));
    shifts_stay_apart(a, b);
    let (a, b) = (shift(a), shift(b));
    shifts_stay_apart(a, b);
}

/// The top bit of the polynomial keeps the bit that is shifted out.
proof fn shifts_stay_apart(a: u32, b: u32)
    requires
        a != b,
    ensures
        shift(a) != shift(b),
{
    assert(a != b ==> shift(a) != shift(b)) by (bit_vector);
}

/// A byte that changed changes the register, whatever comes after it.
proof fn change_is_absorbed(c: u32, s: Seq<u8>, i: int, b: u8)
    requires
        0 <= i < s.len(),
        b != s[i],
    ensures
        absorb_all(c, s.update(i, b)) != absorb_all(c, s),
    decreases s.len(),
{
    let t = s.update(i, b);
    let x = absorb_all(c, s.drop_last());
    let y = absorb_all(c, t.drop_last());
    let p = s.last();
    let q = t.last();
    if i == s.len() - 1 {
        assert(t.drop_last() =~= s.drop_last());
        assert(p != q ==> x ^ (p as u32) != x ^ (q as u32)) by (bit_vector);
    } else {
        assert(t.drop_last() =~= s.drop_last().update(i, b));
        change_is_absorbed(c, s.drop_last(), i, b);
        assert(x != y ==> x ^ (p as u32) != y ^ (p as u32)) by (bit_vector);
    }
    registers_stay_apart(x ^ (p as u32), y ^ (q as u32));
}

/// A checksum tells one byte that changed.
pub proof fn one_byte_is_noticed(s: Seq<u8>, i: int, b: u8)
    requires
        0 <= i < s.len(),
        b != s[i],
    ensures
        checksum(s.update(i, b)) != checksum(s),
{
    change_is_absorbed(0xFFFF_FFFF, s, i, b);
    let x = absorb_all(0xFFFF_FFFF, s);
    let y = absorb_all(0xFFFF_FFFF, s.update(i, b));
    assert(x != y ==> x ^ 0xFFFF_FFFF != y ^ 0xFFFF_FFFF) by (bit_vector);
}

proof fn table_step(c: u32, b: u8)
    ensures
        absorb(c, b) == shift8((c ^ (b as u32)) & 0xFF) ^ (c >> 8),
{
    assert(shift8(c ^ (b as u32)) == shift8((c ^ (b as u32)) & 0xFF) ^ (c >> 8)) by (bit_vector);
}

fn table() -> (t: [u32; 256])
    ensures
        forall|i: int| 0 <= i < 256 ==> t@[i] == shift8(i as u32),
{
    let mut t: [u32; 256] = [0u32; 256];
    let mut i: usize = 0;
    while i < 256
        invariant
            i <= 256,
            forall|k: int| 0 <= k < i ==> t@[k] == shift8(k as u32),
        decreases 256 - i,
    {
        let mut c: u32 = i as u32;
        let mut n: u32 = 0;
        while n < 8
            invariant
                n <= 8,
                i < 256,
                n == 0 ==> c == i as u32,
                n == 1 ==> c == shift(i as u32),
                n == 2 ==> c == shift(shift(i as u32)),
                n == 3 ==> c == shift(shift(shift(i as u32))),
                n == 4 ==> c == shift(shift(shift(shift(i as u32)))),
                n == 5 ==> c == shift(shift(shift(shift(shift(i as u32))))),
                n == 6 ==> c == shift(shift(shift(shift(shift(shift(i as u32)))))),
                n == 7 ==> c == shift(shift(shift(shift(shift(shift(shift(i as u32))))))),
                n == 8 ==> c == shift8(i as u32),
            decreases 8 - n,
        {
            c = if c & 1 != 0 {
                0xEDB8_8320 ^ (c >> 1)
            } else {
                c >> 1
            };
            n += 1;
        }
        t[i] = c;
        i += 1;
    }
    t
}

fn crc32_continue(t: &[u32; 256], start: u32, data: &[u8]) -> (c: u32)
    requires
        forall|i: int| 0 <= i < 256 ==> t@[i] == shift8(i as u32),
    ensures
        c == absorb_all(start, data@),
{
    let mut c: u32 = start;
    let mut i: usize = 0;
    while i < data.len()
        invariant
            i <= data@.len(),
            c == absorb_all(start, data@.subrange(0, i as int)),
            forall|i: int| 0 <= i < 256 ==> t@[i] == shift8(i as u32),
        decreases data@.len() - i,
    {
        let b: u8 = data[i];
        let slot: u32 = (c ^ b as u32) & 0xFF;
        assert((c ^ b as u32) & 0xFF < 256) by (bit_vector);
        proof {
            table_step(c, b);
            let upto = data@.subrange(0, i + 1);
            assert(upto.drop_last() =~= data@.subrange(0, i as int));
            assert(upto.last() == b);
        }
        c = t[slot as usize] ^ (c >> 8);
        i += 1;
    }
    assert(data@.subrange(0, i as int) =~= data@);
    c
}

/// CRC-32 of `data`.
pub fn crc32(data: &[u8]) -> (c: u32)
    ensures
        c == checksum(data@),
{
    let t = table();
    crc32_continue(&t, 0xFFFF_FFFF, data) ^ 0xFFFF_FFFF
}

/// CRC-32 over several slices without concatenating them first.
pub fn crc32_parts(parts: &[&[u8]]) -> (c: u32)
    ensures
        c == checksum(joined(parts@)),
{
    let t = table();
    let mut c: u32 = 0xFFFF_FFFF;
    let mut i: usize = 0;
    while i < parts.len()
        invariant
            i <= parts@.len(),
            c == absorb_all(0xFFFF_FFFF, joined(parts@.subrange(0, i as int))),
            forall|i: int| 0 <= i < 256 ==> t@[i] == shift8(i as u32),
        decreases parts@.len() - i,
    {
        proof {
            let upto = parts@.subrange(0, i + 1);
            assert(upto.drop_last() =~= parts@.subrange(0, i as int));
            absorbing_splits(0xFFFF_FFFF, joined(upto.drop_last()), upto.last()@);
        }
        c = crc32_continue(&t, c, parts[i]);
        i += 1;
    }
    assert(parts@.subrange(0, i as int) =~= parts@);
    c ^ 0xFFFF_FFFF
}

} // verus!
