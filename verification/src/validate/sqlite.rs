//! SQLite: header fields checked against each other.
//!
//! The 16-byte magic makes chance matches rare, so this is about length and
//! trust. Length is page size times page count, but the page count is only
//! meaningful where the "version valid for" counter matches the change
//! counter. The freelist is checked because deleted rows survive in free
//! pages: one that lies outside the database cannot be trusted.

use vstd::prelude::*;
use vstd::slice::*;
use crate::bytes;
use crate::text;
use super::{Outcome, Verdict};

verus! {

broadcast use bytes::slice_fits;

/// `SQLite format 3` and a zero.
pub open spec fn magic() -> Seq<u8> {
    seq![
        0x53u8,
        0x51,
        0x4C,
        0x69,
        0x74,
        0x65,
        0x20,
        0x66,
        0x6F,
        0x72,
        0x6D,
        0x61,
        0x74,
        0x20,
        0x33,
        0x00,
    ]
}

/// The page size; a stored 1 means 65536, which does not fit the field.
pub open spec fn page_size(d: Seq<u8>) -> int {
    if bytes::u16_be(d, 16) == 1 {
        65536
    } else {
        bytes::u16_be(d, 16)
    }
}

/// A power of two between 512 and 65536.
pub open spec fn defined_page(n: int) -> bool {
    n == 512 || n == 1024 || n == 2048 || n == 4096 || n == 8192 || n == 16384 || n == 32768 || n
        == 65536
}

/// `n` rounded down to whole pages.
pub open spec fn whole_pages(n: int, page: int) -> int {
    n / page * page
}

/// The fields of the header, kept as evidence.
pub open spec fn with_fields(v: Verdict, d: Seq<u8>, trusted: bool) -> Verdict {
    v.with("page_size"@, text::dec(page_size(d))).with(
        "page_count"@,
        text::dec(bytes::u32_be(d, 28)),
    ).with("freelist_pages"@, text::dec(bytes::u32_be(d, 36))).with(
        "freelist_trunk"@,
        text::dec(bytes::u32_be(d, 32)),
    ).with("library_version"@, text::dec(bytes::u32_be(d, 96))).with(
        "text_encoding"@,
        text::dec(bytes::u32_be(d, 56)),
    ).with("size_in_header_valid"@, text::yes_no(trusted))
}

/// What a database whose header stands comes to.
pub open spec fn concluded(d: Seq<u8>) -> Verdict {
    let page = page_size(d);
    let pages = bytes::u32_be(d, 28);
    let trunk = bytes::u32_be(d, 32);
    let free = bytes::u32_be(d, 36);
    let trusted = pages != 0 && bytes::u32_be(d, 92) == bytes::u32_be(d, 24);
    let whole = whole_pages(d.len() as int, page);
    let declared = page * pages;
    if trusted && free >= pages {
        Verdict::reject(
            "the freelist claims "@ + text::dec(free) + " free pages in a "@ + text::dec(pages)
                + "-page database"@,
        )
    } else if trusted && trunk > pages {
        Verdict::reject(
            "the freelist trunk is page "@ + text::dec(trunk) + " in a "@ + text::dec(pages)
                + "-page database"@,
        )
    } else if !trusted {
        if whole == 0 {
            Verdict::reject("less than one page of data is present"@).truncated()
        } else {
            with_fields(
                Verdict::partial(
                    whole,
                    "the in-header database size is not valid (version-valid-for does not match the change counter), so the length is a floor of whole pages, not the file's own claim"@,
                ),
                d,
                trusted,
            )
        }
    } else if declared > d.len() {
        with_fields(
            Verdict::partial(
                whole,
                "the header declares "@ + text::dec(pages) + " pages ("@ + text::dec(declared)
                    + " bytes) but only "@ + text::dec(d.len() as int) + " are available; truncated"@,
            ),
            d,
            trusted,
        ).truncated()
    } else if (trunk == 0) != (free == 0) {
        // One says there is a freelist and the other that there is not.
        with_fields(
            Verdict::partial(
                declared,
                "freelist head and count disagree (trunk page "@ + text::dec(trunk) + ", "@
                    + text::dec(free)
                    + " pages); free-page recovery on this file is unreliable"@,
            ),
            d,
            trusted,
        )
    } else {
        with_fields(Verdict::valid(declared), d, trusted)
    }
}

/// What the bytes of `d` are as a SQLite database.
pub open spec fn verdict(d: Seq<u8>) -> Verdict {
    let usable = bytes::larger(page_size(d) - d[20], 0);
    let schema = bytes::u32_be(d, 44);
    let encoding = bytes::u32_be(d, 56);
    let kind = d[100];
    if d.len() < 100 {
        Verdict::reject("shorter than a SQLite header"@).cut_if(bytes::agrees(d, magic(), 0))
    } else if !bytes::begins(d, magic()) {
        Verdict::reject("magic mismatch"@)
    } else if !defined_page(page_size(d)) {
        Verdict::reject(
            "page size "@ + text::dec(page_size(d))
                + " is not a power of two between 512 and 65536"@,
        )
    } else if (d[18] != 1 && d[18] != 2) || (d[19] != 1 && d[19] != 2) {
        Verdict::reject("file format version bytes are not 1 or 2"@)
    } else if d[21] != 64 || d[22] != 32 || d[23] != 32 {
        Verdict::reject(
            "the payload-fraction bytes are not 64/32/32; every SQLite file has these"@,
        )
    } else if usable < 480 {
        Verdict::reject(
            "reserved space leaves "@ + text::dec(usable)
                + " usable bytes per page; the minimum is 480"@,
        )
    } else if schema > 4 {
        Verdict::reject("schema format "@ + text::dec(schema) + " is not 1-4"@)
    } else if encoding > 3 {
        Verdict::reject("text encoding "@ + text::dec(encoding) + " is not 1-3"@)
    } else if exists|i: int| 72 <= i < 92 && d[i] != 0 {
        Verdict::reject("the reserved header range 72..92 is not zero"@)
    } else if d.len() < 101 {
        Verdict::reject("the data ends before the b-tree header of page 1"@).truncated()
    } else if kind != 0x02 && kind != 0x05 && kind != 0x0A && kind != 0x0D {
        Verdict::reject(
            "page 1 declares b-tree type 0x"@ + text::hex(kind as int, 2)
                + ", which is not a page type"@,
        )
    } else {
        concluded(d)
    }
}

fn fields(o: Outcome, d: &[u8], page: u32, trusted: bool) -> (r: Outcome)
    requires
        d@.len() >= 101,
        page == page_size(d@),
    ensures
        r@ == with_fields(o@, d@, trusted),
{
    o.with("page_size", page).with("page_count", bytes::get32(d, 28, true)).with(
        "freelist_pages",
        bytes::get32(d, 36, true),
    ).with("freelist_trunk", bytes::get32(d, 32, true)).with(
        "library_version",
        bytes::get32(d, 96, true),
    ).with("text_encoding", bytes::get32(d, 56, true)).with("size_in_header_valid", trusted)
}

/// What a database whose header stands comes to.
fn conclude(d: &[u8], page: u32) -> (r: Outcome)
    requires
        d@.len() >= 101,
        page == page_size(d@),
        512 <= page <= 65536,
    ensures
        r@ == concluded(d@),
{
    let pages: u32 = bytes::get32(d, 28, true);
    let trunk: u32 = bytes::get32(d, 32, true);
    let free: u32 = bytes::get32(d, 36, true);
    let trusted: bool = pages != 0 && bytes::get32(d, 92, true) == bytes::get32(d, 24, true);
    if trusted {
        if free >= pages {
            return Outcome::reject(
                text::cat5(
                    "the freelist claims ",
                    text::decimal(free as u64).as_str(),
                    " free pages in a ",
                    text::decimal(pages as u64).as_str(),
                    "-page database",
                ).as_str(),
            );
        }
        if trunk > pages {
            return Outcome::reject(
                text::cat5(
                    "the freelist trunk is page ",
                    text::decimal(trunk as u64).as_str(),
                    " in a ",
                    text::decimal(pages as u64).as_str(),
                    "-page database",
                ).as_str(),
            );
        }
    }
    let len: u64 = d.len() as u64;
    proof {
        vstd::arithmetic::div_mod::lemma_fundamental_div_mod(len as int, page as int);
        vstd::arithmetic::mul::lemma_mul_is_commutative(page as int, len as int / page as int);
    }
    let whole: u64 = len / page as u64 * page as u64;
    if !trusted {
        // Without a page count to trust there is no length in the file: whole
        // pages of what is there.
        if whole == 0 {
            return Outcome::reject("less than one page of data is present").truncated();
        }
        return fields(
            Outcome::partial(
                whole,
                "the in-header database size is not valid (version-valid-for does not match the change counter), so the length is a floor of whole pages, not the file's own claim",
            ),
            d,
            page,
            trusted,
        );
    }
    assert(0 <= page * pages <= 65536 * 0xFFFF_FFFF) by (nonlinear_arith)
        requires
            page <= 65536,
            pages <= 0xFFFF_FFFF,
    ;
    let declared: u64 = page as u64 * pages as u64;
    if declared > len {
        return fields(
            Outcome::partial(
                whole,
                text::cat7(
                    "the header declares ",
                    text::decimal(pages as u64).as_str(),
                    " pages (",
                    text::decimal(declared).as_str(),
                    " bytes) but only ",
                    text::decimal(len).as_str(),
                    " are available; truncated",
                ).as_str(),
            ),
            d,
            page,
            trusted,
        ).truncated();
    }
    if (trunk == 0) != (free == 0) {
        return fields(
            Outcome::partial(
                declared,
                text::cat5(
                    "freelist head and count disagree (trunk page ",
                    text::decimal(trunk as u64).as_str(),
                    ", ",
                    text::decimal(free as u64).as_str(),
                    " pages); free-page recovery on this file is unreliable",
                ).as_str(),
            ),
            d,
            page,
            trusted,
        );
    }
    fields(Outcome::valid(declared), d, page, trusted)
}

fn reserved_is_zero(d: &[u8]) -> (r: bool)
    requires
        d@.len() >= 92,
    ensures
        r == !(exists|i: int| 72 <= i < 92 && d@[i] != 0),
{
    let mut i: usize = 72;
    while i < 92
        invariant
            72 <= i <= 92,
            d@.len() >= 92,
            forall|k: int| 72 <= k < i ==> d@[k] == 0,
        decreases 92 - i,
    {
        if d[i] != 0 {
            return false;
        }
        i += 1;
    }
    true
}

/// SQLite: page size times page count, where the header can be trusted.
pub fn validate(d: &[u8]) -> (r: Outcome)
    ensures
        r@ == verdict(d@),
{
    let want: [u8; 16] = [
        0x53,
        0x51,
        0x4C,
        0x69,
        0x74,
        0x65,
        0x20,
        0x66,
        0x6F,
        0x72,
        0x6D,
        0x61,
        0x74,
        0x20,
        0x33,
        0x00,
    ];
    assert(want@ =~= magic());
    if d.len() < 100 {
        return Outcome::reject("shorter than a SQLite header").cut_if(
            bytes::agrees_at(d, &want, 0),
        );
    }
    if !bytes::stands_at(d, &want, 0) {
        return Outcome::reject("magic mismatch");
    }
    let raw: u16 = bytes::get16(d, 16, true);
    let page: u32 = if raw == 1 {
        65536
    } else {
        raw as u32
    };
    if !(page == 512 || page == 1024 || page == 2048 || page == 4096 || page == 8192 || page
        == 16384 || page == 32768 || page == 65536) {
        return Outcome::reject(
            text::cat3(
                "page size ",
                text::decimal(page as u64).as_str(),
                " is not a power of two between 512 and 65536",
            ).as_str(),
        );
    }
    if (d[18] != 1 && d[18] != 2) || (d[19] != 1 && d[19] != 2) {
        return Outcome::reject("file format version bytes are not 1 or 2");
    }
    // Fixed constants in every SQLite file ever written.
    if d[21] != 64 || d[22] != 32 || d[23] != 32 {
        return Outcome::reject(
            "the payload-fraction bytes are not 64/32/32; every SQLite file has these",
        );
    }
    let usable: u32 = page - d[20] as u32;
    if usable < 480 {
        return Outcome::reject(
            text::cat3(
                "reserved space leaves ",
                text::decimal(usable as u64).as_str(),
                " usable bytes per page; the minimum is 480",
            ).as_str(),
        );
    }
    let schema: u32 = bytes::get32(d, 44, true);
    if schema > 4 {
        return Outcome::reject(
            text::cat3(
                "schema format ",
                text::decimal(schema as u64).as_str(),
                " is not 1-4",
            ).as_str(),
        );
    }
    let encoding: u32 = bytes::get32(d, 56, true);
    if encoding > 3 {
        return Outcome::reject(
            text::cat3(
                "text encoding ",
                text::decimal(encoding as u64).as_str(),
                " is not 1-3",
            ).as_str(),
        );
    }
    if !reserved_is_zero(d) {
        return Outcome::reject("the reserved header range 72..92 is not zero");
    }
    // Page 1 carries a b-tree page header right after the file header.
    if d.len() < 101 {
        return Outcome::reject("the data ends before the b-tree header of page 1").truncated();
    }
    let kind: u8 = d[100];
    if kind != 0x02 && kind != 0x05 && kind != 0x0A && kind != 0x0D {
        return Outcome::reject(
            text::cat3(
                "page 1 declares b-tree type 0x",
                text::hexadecimal(kind as u64, 2).as_str(),
                ", which is not a page type",
            ).as_str(),
        );
    }
    conclude(d, page)
}

/// A rejection claims no length, a complete file is all there, and a damaged
/// one claims no more than was there unless it states its own size.
pub proof fn is_sound(d: Seq<u8>)
    ensures
        verdict(d).sound_for(d.len() as int),
{
}

} // verus!
