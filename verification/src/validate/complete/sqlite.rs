//! SQLite databases.

use vstd::prelude::*;
use crate::text;
use super::super::{Status, sqlite};
use super::{be16, be32, stands};

verus! {

broadcast use super::group_read;

/// The page size that the header states.
pub open spec fn page(d: Seq<u8>) -> int {
    if be16(d, 16) == 1 {
        65536
    } else {
        be16(d, 16)
    }
}

/// "SQLite format 3" and a zero.
pub open spec fn magic() -> Seq<u8> {
    seq![83u8, 81, 76, 105, 116, 101, 32, 102, 111, 114, 109, 97, 116, 32, 51, 0]
}

/// Whether the header is in order by the file format: the magic, a page size
/// that is a power of two between 512 and 65536, write and read versions 1
/// (rollback journal) or 2 (write-ahead log), payload fractions of 64, 32 and
/// 32, at least 480 usable bytes on each page, a schema format up to 4, a text
/// encoding up to 3, the reserved range zero, and a first page that is one of
/// the four kinds of b-tree page.
pub open spec fn header_in_order(d: Seq<u8>) -> bool {
    &&& d.len() > 100
    &&& stands(d, magic(), 0)
    &&& exists|k: int| 9 <= k <= 16 && page(d) == #[trigger] vstd::arithmetic::power2::pow2(k as nat)
    &&& 1 <= d[18] <= 2
    &&& 1 <= d[19] <= 2
    &&& d[21] == 64 && d[22] == 32 && d[23] == 32
    &&& page(d) - d[20] >= 480
    &&& be32(d, 44) <= 4
    &&& be32(d, 56) <= 3
    &&& forall|i: int| 72 <= i < 92 ==> d[i] == 0
    &&& d[100] == 2 || d[100] == 5 || d[100] == 10 || d[100] == 13
}

/// Whether the number of pages in the header can be relied on: the library that
/// wrote it last also made the last change.
pub open spec fn size_is_current(d: Seq<u8>) -> bool {
    be32(d, 28) > 0 && be32(d, 92) == be32(d, 24)
}

/// Whether what the header says of the freelist is possible: fewer free pages
/// than pages, and a first trunk that is one of them.
pub open spec fn freelist_possible(d: Seq<u8>) -> bool {
    be32(d, 36) < be32(d, 28) && be32(d, 32) <= be32(d, 28)
}

proof fn sizes_are_powers(n: int)
    ensures
        sqlite::defined_page(n) <==> exists|k: int|
            9 <= k <= 16 && n == #[trigger] vstd::arithmetic::power2::pow2(k as nat),
{
    use_powers();
    if sqlite::defined_page(n) {
        let k: int = if n == 512 {
            9
        } else if n == 1024 {
            10
        } else if n == 2048 {
            11
        } else if n == 4096 {
            12
        } else if n == 8192 {
            13
        } else if n == 16384 {
            14
        } else if n == 32768 {
            15
        } else {
            16
        };
        assert(n == vstd::arithmetic::power2::pow2(k as nat));
    }
}

proof fn use_powers()
    ensures
        vstd::arithmetic::power2::pow2(9) == 512,
        vstd::arithmetic::power2::pow2(10) == 1024,
        vstd::arithmetic::power2::pow2(11) == 2048,
        vstd::arithmetic::power2::pow2(12) == 4096,
        vstd::arithmetic::power2::pow2(13) == 8192,
        vstd::arithmetic::power2::pow2(14) == 16384,
        vstd::arithmetic::power2::pow2(15) == 32768,
        vstd::arithmetic::power2::pow2(16) == 65536,
{
    vstd::arithmetic::power2::lemma2_to64();
}

/// A database is complete exactly where its header is in order, its page count
/// can be relied on, all its pages are there, and the freelist is either absent
/// from both of its fields or told by both. Its length is then its pages, and
/// the evidence names the fields that say so.
pub proof fn a_database_in_order_is_complete(d: Seq<u8>)
    ensures
        ({
            let v = sqlite::verdict(d);
            &&& v.status == Status::Valid <==> {
                &&& header_in_order(d)
                &&& size_is_current(d)
                &&& freelist_possible(d)
                &&& page(d) * be32(d, 28) <= d.len()
                &&& be32(d, 32) == 0 <==> be32(d, 36) == 0
            }
            &&& v.status == Status::Valid ==> {
                &&& v.length == page(d) * be32(d, 28)
                &&& v.refined_ext is None
                &&& v.evidence == seq![
                    ("page_size"@, text::dec(page(d))),
                    ("page_count"@, text::dec(be32(d, 28))),
                    ("freelist_pages"@, text::dec(be32(d, 36))),
                    ("freelist_trunk"@, text::dec(be32(d, 32))),
                    ("library_version"@, text::dec(be32(d, 96))),
                    ("text_encoding"@, text::dec(be32(d, 56))),
                    ("size_in_header_valid"@, "true"@),
                ]
            }
        }),
{
    sizes_are_powers(page(d));
    assert(sqlite::magic() =~= magic());
}

/// Where the header is in order but the database is not complete, it is still
/// carved: whole pages of what is there, as many as are there, where the page
/// count cannot be relied on or the data ends; all of its pages where only the
/// two fields of the freelist disagree.
pub proof fn a_damaged_database_keeps_its_pages(d: Seq<u8>)
    requires
        header_in_order(d),
        page(d) <= d.len(),
    ensures
        ({
            let v = sqlite::verdict(d);
            &&& !size_is_current(d) || (freelist_possible(d) && page(d) * be32(d, 28) > d.len()) ==> {
                &&& v.status == Status::Partial
                &&& v.length <= d.len() < v.length + page(d)
                &&& exists|n: int| v.length == #[trigger] (n * page(d))
                &&& !v.length_established
                &&& v.ran_out == size_is_current(d)
            }
            &&& size_is_current(d) && freelist_possible(d) && page(d) * be32(d, 28) <= d.len()
                && (be32(d, 32) == 0) != (be32(d, 36) == 0) ==> {
                &&& v.status == Status::Partial
                &&& v.length == page(d) * be32(d, 28)
                &&& !v.ran_out
            }
            &&& size_is_current(d) && !freelist_possible(d) ==> v.status == Status::Rejected
        }),
{
    sizes_are_powers(page(d));
    assert(sqlite::magic() =~= magic());
    let n = d.len() as int;
    let p = page(d);
    vstd::arithmetic::div_mod::lemma_fundamental_div_mod(n, p);
    vstd::arithmetic::div_mod::lemma_mod_bound(n, p);
    vstd::arithmetic::mul::lemma_mul_is_commutative(p, n / p);
    assert(sqlite::whole_pages(n, p) == (n / p) * p);
    assert(n / p >= 1) by (nonlinear_arith)
        requires
            n >= p > 0,
    ;
    assert((n / p) * p >= p) by (nonlinear_arith)
        requires
            n / p >= 1,
            p > 0,
    ;
}

/// What is not a database by its header is not carved as one.
pub proof fn only_a_database_is_carved(d: Seq<u8>)
    ensures
        !header_in_order(d) ==> sqlite::verdict(d).status == Status::Rejected,
{
    sizes_are_powers(page(d));
    assert(sqlite::magic() =~= magic());
}

} // verus!
