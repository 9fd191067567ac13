//! Reading integers out of a byte slice.
//!
//! The input is bytes off a damaged disk, so every reader answers `None` where
//! the slice is too short rather than failing.

use vstd::prelude::*;
use vstd::arithmetic::power2::*;
use vstd::bits::*;
use vstd::slice::*;

verus! {

pub open spec fn u16_be(d: Seq<u8>, at: int) -> int {
    d[at] * 0x100 + d[at + 1]
}

pub open spec fn u16_le(d: Seq<u8>, at: int) -> int {
    d[at] + d[at + 1] * 0x100
}

pub open spec fn u32_be(d: Seq<u8>, at: int) -> int {
    u16_be(d, at) * 0x1_0000 + u16_be(d, at + 2)
}

pub open spec fn u32_le(d: Seq<u8>, at: int) -> int {
    u16_le(d, at) + u16_le(d, at + 2) * 0x1_0000
}

pub open spec fn u64_be(d: Seq<u8>, at: int) -> int {
    u32_be(d, at) * 0x1_0000_0000 + u32_be(d, at + 4)
}

pub open spec fn u64_le(d: Seq<u8>, at: int) -> int {
    u32_le(d, at) + u32_le(d, at + 4) * 0x1_0000_0000
}

/// Two bytes in the byte order the file states.
pub open spec fn u16_in(d: Seq<u8>, at: int, big: bool) -> int {
    if big {
        u16_be(d, at)
    } else {
        u16_le(d, at)
    }
}

/// Four bytes in the byte order the file states.
pub open spec fn u32_in(d: Seq<u8>, at: int, big: bool) -> int {
    if big {
        u32_be(d, at)
    } else {
        u32_le(d, at)
    }
}

/// Eight bytes in the byte order the file states.
pub open spec fn u64_in(d: Seq<u8>, at: int, big: bool) -> int {
    if big {
        u64_be(d, at)
    } else {
        u64_le(d, at)
    }
}

/// Whether `n` bytes can be read at `at`.
pub open spec fn fits(d: Seq<u8>, at: int, n: int) -> bool {
    at + n <= d.len()
}

/// Whether `needle` stands in `d` at `at`.
pub open spec fn occurs_at(d: Seq<u8>, needle: Seq<u8>, at: int) -> bool {
    &&& 0 <= at
    &&& at + needle.len() <= d.len()
    &&& d.subrange(at, at + needle.len()) =~= needle
}

/// Whether the bytes of `d` at `at` are those of `mark`, as far as they go.
pub open spec fn agrees(d: Seq<u8>, mark: Seq<u8>, at: int) -> bool {
    forall|i: int| 0 <= i < mark.len() && at + i < d.len() ==> d[at + i] == #[trigger] mark[i]
}

/// Whether the `i`-th byte of `d` is `b`, where there is one.
pub open spec fn may_hold(d: Seq<u8>, i: int, b: u8) -> bool {
    i < d.len() ==> d[i] == b
}

/// A slice is never longer than an index can reach.
pub broadcast proof fn slice_fits(d: &[u8])
    ensures
        #[trigger] d@.len() <= usize::MAX,
{
    let n = spec_slice_len(d);
    assert(n == d@.len());
}

/// Whether `n` more bytes can be read at `at`.
pub fn has(d: &[u8], at: usize, n: usize) -> (r: bool)
    ensures
        r == fits(d@, at as int, n as int),
        r ==> at + n <= usize::MAX,
{
    at <= d.len() && n <= d.len() - at
}

pub fn be16(d: &[u8], at: usize) -> (r: Option<u16>)
    ensures
        r is Some <==> fits(d@, at as int, 2),
        r matches Some(v) ==> v == u16_be(d@, at as int),
{
    if has(d, at, 2) {
        Some(d[at] as u16 * 0x100 + d[at + 1] as u16)
    } else {
        None
    }
}

pub fn le16(d: &[u8], at: usize) -> (r: Option<u16>)
    ensures
        r is Some <==> fits(d@, at as int, 2),
        r matches Some(v) ==> v == u16_le(d@, at as int),
{
    if has(d, at, 2) {
        Some(d[at] as u16 + d[at + 1] as u16 * 0x100)
    } else {
        None
    }
}

pub fn be32(d: &[u8], at: usize) -> (r: Option<u32>)
    ensures
        r is Some <==> fits(d@, at as int, 4),
        r matches Some(v) ==> v == u32_be(d@, at as int),
{
    if has(d, at, 4) {
        let hi: u32 = d[at] as u32 * 0x100 + d[at + 1] as u32;
        let lo: u32 = d[at + 2] as u32 * 0x100 + d[at + 3] as u32;
        Some(hi * 0x1_0000 + lo)
    } else {
        None
    }
}

pub fn le32(d: &[u8], at: usize) -> (r: Option<u32>)
    ensures
        r is Some <==> fits(d@, at as int, 4),
        r matches Some(v) ==> v == u32_le(d@, at as int),
{
    if has(d, at, 4) {
        let lo: u32 = d[at] as u32 + d[at + 1] as u32 * 0x100;
        let hi: u32 = d[at + 2] as u32 + d[at + 3] as u32 * 0x100;
        Some(lo + hi * 0x1_0000)
    } else {
        None
    }
}

pub fn be64(d: &[u8], at: usize) -> (r: Option<u64>)
    ensures
        r is Some <==> fits(d@, at as int, 8),
        r matches Some(v) ==> v == u64_be(d@, at as int),
{
    if has(d, at, 8) {
        match (be32(d, at), be32(d, at + 4)) {
            (Some(hi), Some(lo)) => Some(hi as u64 * 0x1_0000_0000 + lo as u64),
            _ => None,
        }
    } else {
        None
    }
}

pub fn le64(d: &[u8], at: usize) -> (r: Option<u64>)
    ensures
        r is Some <==> fits(d@, at as int, 8),
        r matches Some(v) ==> v == u64_le(d@, at as int),
{
    if has(d, at, 8) {
        match (le32(d, at), le32(d, at + 4)) {
            (Some(lo), Some(hi)) => Some(lo as u64 + hi as u64 * 0x1_0000_0000),
            _ => None,
        }
    } else {
        None
    }
}

pub fn read16(d: &[u8], at: usize, big: bool) -> (r: Option<u16>)
    ensures
        r is Some <==> fits(d@, at as int, 2),
        r matches Some(v) ==> v == u16_in(d@, at as int, big),
{
    if big {
        be16(d, at)
    } else {
        le16(d, at)
    }
}

pub fn read32(d: &[u8], at: usize, big: bool) -> (r: Option<u32>)
    ensures
        r is Some <==> fits(d@, at as int, 4),
        r matches Some(v) ==> v == u32_in(d@, at as int, big),
{
    if big {
        be32(d, at)
    } else {
        le32(d, at)
    }
}

pub fn read64(d: &[u8], at: usize, big: bool) -> (r: Option<u64>)
    ensures
        r is Some <==> fits(d@, at as int, 8),
        r matches Some(v) ==> v == u64_in(d@, at as int, big),
{
    if big {
        be64(d, at)
    } else {
        le64(d, at)
    }
}

/// Two bytes that are there.
pub fn get16(d: &[u8], at: usize, big: bool) -> (v: u16)
    requires
        fits(d@, at as int, 2),
    ensures
        v == u16_in(d@, at as int, big),
{
    match read16(d, at, big) {
        Some(v) => v,
        None => 0,
    }
}

/// Four bytes that are there.
pub fn get32(d: &[u8], at: usize, big: bool) -> (v: u32)
    requires
        fits(d@, at as int, 4),
    ensures
        v == u32_in(d@, at as int, big),
{
    match read32(d, at, big) {
        Some(v) => v,
        None => 0,
    }
}

/// Eight bytes that are there.
pub fn get64(d: &[u8], at: usize, big: bool) -> (v: u64)
    requires
        fits(d@, at as int, 8),
    ensures
        v == u64_in(d@, at as int, big),
{
    match read64(d, at, big) {
        Some(v) => v,
        None => 0,
    }
}

/// The larger of two numbers.
pub open spec fn larger(a: int, b: int) -> int {
    if a >= b {
        a
    } else {
        b
    }
}

/// A sum or product that stops at the largest number 64 bits hold.
pub open spec fn capped(n: int) -> int {
    if n > 0xFFFF_FFFF_FFFF_FFFF {
        0xFFFF_FFFF_FFFF_FFFF
    } else {
        n
    }
}

/// The larger of two numbers.
pub fn max64(a: u64, b: u64) -> (r: u64)
    ensures
        r == larger(a as int, b as int),
{
    if a >= b {
        a
    } else {
        b
    }
}

/// `a + b`, stopping at the largest number 64 bits hold.
pub fn add_capped(a: u64, b: u64) -> (r: u64)
    ensures
        r == capped(a + b),
{
    if a > 0xFFFF_FFFF_FFFF_FFFFu64 - b {
        0xFFFF_FFFF_FFFF_FFFFu64
    } else {
        a + b
    }
}

/// Two to the power `k`.
pub fn two_to(k: u32) -> (r: u32)
    requires
        k < 32,
    ensures
        r == pow2(k as nat),
        r > 0,
{
    proof {
        lemma_u32_pow2_no_overflow(k as nat);
        lemma_u32_shl_is_mul(1, k);
    }
    1u32 << k
}

/// Whether `d` begins with `head`.
pub open spec fn begins(d: Seq<u8>, head: Seq<u8>) -> bool {
    occurs_at(d, head, 0)
}

/// Whether two slices hold the same bytes.
pub fn same(a: &[u8], b: &[u8]) -> (r: bool)
    ensures
        r == (a@ == b@),
{
    if a.len() != b.len() {
        return false;
    }
    let mut i: usize = 0;
    while i < a.len()
        invariant
            i <= a@.len(),
            a@.len() == b@.len(),
            forall|j: int| 0 <= j < i ==> a@[j] == b@[j],
        decreases a@.len() - i,
    {
        if a[i] != b[i] {
            return false;
        }
        i += 1;
    }
    assert(a@ =~= b@);
    true
}

/// Whether `needle` stands in `d` at `at`.
pub fn stands_at(d: &[u8], needle: &[u8], at: usize) -> (r: bool)
    ensures
        r == occurs_at(d@, needle@, at as int),
{
    if has(d, at, needle.len()) {
        same(slice_subrange(d, at, at + needle.len()), needle)
    } else {
        false
    }
}

/// Whether the bytes at `at` are those of `mark`, as far as they go.
pub fn agrees_at(d: &[u8], mark: &[u8], at: usize) -> (r: bool)
    ensures
        r == agrees(d@, mark@, at as int),
{
    let mut i: usize = 0;
    while i < mark.len() && at < d.len() && i < d.len() - at
        invariant
            i <= mark@.len(),
            forall|k: int| 0 <= k < i ==> d@[at + k] == #[trigger] mark@[k],
        decreases mark@.len() - i,
    {
        if d[at + i] != mark[i] {
            return false;
        }
        i += 1;
    }
    true
}

/// Whether the `i`-th byte is `b`, where there is one.
pub fn may_be(d: &[u8], i: usize, b: u8) -> (r: bool)
    ensures
        r == may_hold(d@, i as int, b),
{
    i >= d.len() || d[i] == b
}

} // verus!
