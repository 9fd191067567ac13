//! What a complete file is, told from its bytes alone.
//!
//! For each format there is a description of a file that is in order, in the
//! terms of the format, and a law that such a file, and where it can be said no
//! other, is recognised as complete, with the length and the name that its own
//! bytes give it.

pub mod archives;
pub mod begun;
pub mod documents;
pub mod elf;
pub mod images;
pub mod jpeg;
pub mod jpeg_mcu;
pub mod jpeg_scan;
pub mod mp4;
pub mod named;
pub mod pdf;
pub mod pe;
pub mod png;
pub mod riff;
pub mod sqlite;
pub mod sqlite_free;
pub mod sqlite_pages;
pub mod tiff;
pub mod zip;

use vstd::prelude::*;
use crate::bytes;
use crate::search;

verus! {

/// Two bytes, the low one first.
pub open spec fn le16(d: Seq<u8>, at: int) -> int {
    d[at] + 0x100 * d[at + 1]
}

/// Two bytes, the high one first.
pub open spec fn be16(d: Seq<u8>, at: int) -> int {
    0x100 * d[at] + d[at + 1]
}

/// Four bytes, the lowest first.
pub open spec fn le32(d: Seq<u8>, at: int) -> int {
    d[at] + 0x100 * d[at + 1] + 0x1_0000 * d[at + 2] + 0x100_0000 * d[at + 3]
}

/// Four bytes, the highest first.
pub open spec fn be32(d: Seq<u8>, at: int) -> int {
    0x100_0000 * d[at] + 0x1_0000 * d[at + 1] + 0x100 * d[at + 2] + d[at + 3]
}

/// Eight bytes, the lowest first.
pub open spec fn le64(d: Seq<u8>, at: int) -> int {
    le32(d, at) + 0x1_0000_0000 * le32(d, at + 4)
}

/// Eight bytes, the highest first.
pub open spec fn be64(d: Seq<u8>, at: int) -> int {
    0x1_0000_0000 * be32(d, at) + be32(d, at + 4)
}

/// Whether these bytes stand at `at`.
pub open spec fn stands(d: Seq<u8>, mark: Seq<u8>, at: int) -> bool {
    &&& 0 <= at
    &&& at + mark.len() <= d.len()
    &&& forall|i: int| 0 <= i < mark.len() ==> d[at + i] == #[trigger] mark[i]
}

pub(crate) broadcast proof fn le16_read(d: Seq<u8>, at: int)
    ensures
        #[trigger] le16(d, at) == bytes::u16_le(d, at),
{
}

pub(crate) broadcast proof fn be16_read(d: Seq<u8>, at: int)
    ensures
        #[trigger] be16(d, at) == bytes::u16_be(d, at),
{
}

pub(crate) broadcast proof fn le32_read(d: Seq<u8>, at: int)
    ensures
        #[trigger] le32(d, at) == bytes::u32_le(d, at),
{
}

pub(crate) broadcast proof fn be32_read(d: Seq<u8>, at: int)
    ensures
        #[trigger] be32(d, at) == bytes::u32_be(d, at),
{
}

pub(crate) broadcast proof fn le64_read(d: Seq<u8>, at: int)
    ensures
        #[trigger] le64(d, at) == bytes::u64_le(d, at),
{
    le32_read(d, at);
    le32_read(d, at + 4);
}

pub(crate) broadcast proof fn be64_read(d: Seq<u8>, at: int)
    ensures
        #[trigger] be64(d, at) == bytes::u64_be(d, at),
{
    be32_read(d, at);
    be32_read(d, at + 4);
}

pub(crate) broadcast proof fn mark_read(d: Seq<u8>, mark: Seq<u8>, at: int)
    ensures
        #[trigger] stands(d, mark, at) == bytes::occurs_at(d, mark, at),
{
    if stands(d, mark, at) {
        assert(d.subrange(at, at + mark.len()) =~= mark);
    }
    if bytes::occurs_at(d, mark, at) {
        let part = d.subrange(at, at + mark.len());
        assert forall|i: int| 0 <= i < mark.len() implies d[at + i] == #[trigger] mark[i] by {
            assert(part[i] == d[at + i]);
        }
    }
}

/// What stands first in a part is found first in it.
pub(crate) proof fn found_first(d: Seq<u8>, mark: Seq<u8>, from: int, to: int, at: int)
    requires
        mark.len() > 0,
        0 <= from <= at,
        at + mark.len() <= to <= d.len(),
        stands(d, mark, at),
        forall|q: int| from <= q < at ==> !#[trigger] stands(d, mark, q),
    ensures
        search::first_from(d.subrange(from, to), mark, 0) == Some(at - from),
{
    let part = d.subrange(from, to);
    search::first_is_first(part, mark, 0);
    assert forall|q: int| 0 <= q && q + mark.len() <= part.len() implies bytes::occurs_at(
        part,
        mark,
        q,
    ) == stands(d, mark, from + q) by {
        mark_read(d, mark, from + q);
        assert(part.subrange(q, q + mark.len()) =~= d.subrange(from + q, from + q + mark.len()));
    }
    assert(bytes::occurs_at(part, mark, at - from));
    let z = search::first_from(part, mark, 0)->0;
    if z < at - from {
        assert(!stands(d, mark, from + z));
    }
}

pub(crate) broadcast group group_read {
    le16_read,
    be16_read,
    le32_read,
    be32_read,
    le64_read,
    be64_read,
    mark_read,
}

} // verus!
