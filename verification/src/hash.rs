//! SHA-256, by way of the `sha2` crate, and bytes in hexadecimal.

use vstd::prelude::*;
use vstd::string::*;
use crate::text;

verus! {

/// What `sha2::Sha256::digest` returns.
pub uninterp spec fn sha256(data: Seq<u8>) -> Seq<u8>;

/// `sha2::Sha256::digest`: the SHA-256 of `data`, which is 32 bytes.
#[verifier::external_body]
pub(crate) fn digest(data: &[u8]) -> (r: Vec<u8>)
    ensures
        r@ == sha256(data@),
        r@.len() == 32,
{
    <sha2::Sha256 as sha2::Digest>::digest(data).to_vec()
}

/// Two lower-case hexadecimal digits for each of the first `n` bytes.
pub open spec fn hex_upto(d: Seq<u8>, n: int) -> Seq<char>
    decreases n,
{
    if n <= 0 {
        Seq::empty()
    } else {
        hex_upto(d, n - 1) + text::zero_padded(text::low_hex(d[n - 1] as int), 2)
    }
}

/// Bytes in hexadecimal.
pub fn hex_of(d: &[u8]) -> (r: String)
    ensures
        r@ == hex_upto(d@, d@.len() as int),
{
    let mut s = String::new();
    let mut i: usize = 0;
    assert(s@ =~= hex_upto(d@, 0));
    while i < d.len()
        invariant
            i <= d@.len(),
            s@ == hex_upto(d@, i as int),
        decreases d@.len() - i,
    {
        let two = text::zeros_before(text::low_hexadecimal(d[i] as u64).as_str(), 2);
        s = text::cat2(s.as_str(), two.as_str());
        i += 1;
    }
    s
}

/// The hash of some bytes, in hexadecimal.
pub open spec fn hash_text(data: Seq<u8>) -> Seq<char> {
    hex_upto(sha256(data), sha256(data).len() as int)
}

/// The hash of some bytes, in hexadecimal.
pub fn hashed(data: &[u8]) -> (r: String)
    ensures
        r@ == hash_text(data@),
{
    hex_of(digest(data).as_slice())
}

} // verus!
