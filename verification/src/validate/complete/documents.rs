//! Event logs, registry hives and rich text.

use vstd::prelude::*;
use crate::text;
use super::super::{Status, structured};
use super::archives::states_its_size;
use super::{le16, le32, stands};

verus! {

broadcast use super::group_read;

/// Whether the header of an event log is in order: `ElfFile` and a zero, a
/// header of 128 bytes in a block of 4096, major version 3, and at least one
/// chunk.
pub open spec fn evtx_in_order(d: Seq<u8>) -> bool {
    &&& d.len() >= 128
    &&& stands(d, seq![69u8, 108, 102, 70, 105, 108, 101, 0], 0)
    &&& le32(d, 32) == 128
    &&& le16(d, 38) == 3
    &&& le16(d, 40) == 4096
    &&& le16(d, 42) >= 1
}

/// An event log is one exactly where its header is in order, and is a header
/// block and its chunks of 64 KiB.
pub proof fn an_event_log_is_its_chunks(d: Seq<u8>)
    ensures
        ({
            let v = structured::evtx_verdict(d);
            &&& v.status != Status::Rejected <==> evtx_in_order(d)
            &&& evtx_in_order(d) ==> states_its_size(
                v,
                4096 + 65536 * le16(d, 42),
                d.len() as int,
            )
            &&& v.status == Status::Valid ==> v.evidence == seq![
                ("version"@, text::dec(3) + "."@ + text::dec(le16(d, 36))),
                ("chunks"@, text::dec(le16(d, 42))),
            ]
        }),
{
    assert(structured::evtx_head() =~= seq![69u8, 108, 102, 70, 105, 108, 101, 0]);
}

/// Whether the base block of a hive is in order: `regf`, major version 1, a
/// primary file or a log, the format 1, and bins of whole 4096-byte pages.
pub open spec fn hive_in_order(d: Seq<u8>) -> bool {
    &&& d.len() >= 48
    &&& stands(d, seq![114u8, 101, 103, 102], 0)
    &&& le32(d, 20) == 1
    &&& le32(d, 28) == 0 || le32(d, 28) == 1
    &&& le32(d, 32) == 1
    &&& le32(d, 40) > 0
    &&& le32(d, 40) % 4096 == 0
}

/// A registry hive is one exactly where its base block is in order, and is that
/// block and its bins; the evidence says whether it was closed properly, which
/// it was where its two sequence numbers agree.
pub proof fn a_hive_is_its_bins(d: Seq<u8>)
    ensures
        ({
            let v = structured::hive_verdict(d);
            &&& v.status != Status::Rejected <==> hive_in_order(d)
            &&& hive_in_order(d) ==> states_its_size(v, 4096 + le32(d, 40), d.len() as int)
            &&& v.status == Status::Valid ==> v.evidence == seq![
                ("hive_bins_bytes"@, text::dec(le32(d, 40))),
                (
                    "sequences_match"@,
                    if le32(d, 4) == le32(d, 8) {
                        "true"@
                    } else {
                        "false"@
                    },
                ),
            ]
        }),
{
    assert(structured::hive_head() =~= seq![114u8, 101, 103, 102]);
}

/// Whether `marks` are where the characters of a document begin, a backslash
/// and what follows it being one, and `depths` how many groups are open before
/// each.
pub open spec fn braces(d: Seq<u8>, marks: Seq<int>, depths: Seq<int>) -> bool {
    &&& 1 < marks.len() == depths.len()
    &&& marks[0] == 0 && depths[0] == 0
    &&& forall|k: int| 0 <= k < marks.len() - 1 ==> #[trigger] nth_mark(d, marks, depths, k)
}

/// Whether the `k`-th of these characters is one.
pub open spec fn nth_mark(d: Seq<u8>, marks: Seq<int>, depths: Seq<int>, k: int) -> bool {
    let c = d[marks[k]];
    &&& 0 <= marks[k] < d.len()
    &&& marks[k + 1] == marks[k] + (if c == 92 {
        2int
    } else {
        1int
    })
    &&& depths[k + 1] == depths[k] + (if c == 123 {
        1int
    } else if c == 125 {
        -1int
    } else {
        0int
    })
}

/// How many of the characters before the `k`-th open a group.
pub open spec fn opened(d: Seq<u8>, marks: Seq<int>, k: int) -> int
    decreases k,
{
    if k <= 0 {
        0
    } else if d[marks[k - 1]] == 123 {
        opened(d, marks, k - 1) + 1
    } else {
        opened(d, marks, k - 1)
    }
}

proof fn along_a_document(d: Seq<u8>, marks: Seq<int>, depths: Seq<int>, k: int, brace: int)
    requires
        braces(d, marks, depths),
        0 <= k < marks.len() - 1,
        d[marks[marks.len() - 2]] == 125,
        depths.last() == 0,
        forall|j: int| 0 < j < depths.len() - 1 ==> #[trigger] depths[j] > 0,
    ensures
        ({
            let v = structured::rtf_from(d, marks[k], depths[k], opened(d, marks, k), brace);
            &&& v.status == Status::Valid
            &&& v.length == marks[marks.len() - 2] + 1
            &&& v.refined_ext is None
            &&& v.evidence == seq![
                ("version"@, text::dec(d[5] - 48)),
                ("groups"@, text::dec(opened(d, marks, marks.len() - 1))),
            ]
        }),
    decreases marks.len() - k,
{
    assert(nth_mark(d, marks, depths, k));
    if k == marks.len() - 2 {
        assert(depths[k + 1] == 0);
        assert(opened(d, marks, marks.len() - 1) == opened(d, marks, k));
        let v = structured::rtf_from(d, marks[k], depths[k], opened(d, marks, k), brace);
        assert(v.evidence =~= seq![
            ("version"@, text::dec(d[5] - 48)),
            ("groups"@, text::dec(opened(d, marks, marks.len() - 1))),
        ]);
    } else {
        assert(nth_mark(d, marks, depths, k + 1));
        assert(depths[k + 1] > 0);
        let c = d[marks[k]];
        assert(opened(d, marks, k + 1) == opened(d, marks, k) + (if c == 123 {
            1int
        } else {
            0int
        }));
        let next = if c == 123 || c == 125 {
            marks[k] + 1
        } else {
            brace
        };
        along_a_document(d, marks, depths, k + 1, next);
    }
}

/// A document that begins with `{\rtf` and a version digit ends with the brace
/// that closes the group it begins with: escaped braces count for nothing, and
/// what follows is no part of it.
pub proof fn rich_text_ends_with_its_group(d: Seq<u8>, marks: Seq<int>, depths: Seq<int>)
    requires
        d.len() >= 6,
        stands(d, seq![123u8, 92, 114, 116, 102], 0),
        48 <= d[5] <= 57,
        braces(d, marks, depths),
        d[marks[marks.len() - 2]] == 125,
        depths.last() == 0,
        forall|j: int| 0 < j < depths.len() - 1 ==> #[trigger] depths[j] > 0,
    ensures
        ({
            let v = structured::rtf_verdict(d);
            &&& v.status == Status::Valid
            &&& v.length == marks[marks.len() - 2] + 1
            &&& v.refined_ext is None
            &&& v.evidence == seq![
                ("version"@, text::dec(d[5] - 48)),
                ("groups"@, text::dec(opened(d, marks, marks.len() - 1))),
            ]
        }),
{
    assert(structured::rtf_head() =~= seq![123u8, 92, 114, 116, 102]);
    along_a_document(d, marks, depths, 0, 0);
}

/// Where the last brace before the `k`-th character ends; zero where there is
/// none.
pub open spec fn last_brace(d: Seq<u8>, marks: Seq<int>, k: int) -> int
    decreases k,
{
    if k <= 0 {
        0
    } else if d[marks[k - 1]] == 123 || d[marks[k - 1]] == 125 {
        marks[k - 1] + 1
    } else {
        last_brace(d, marks, k - 1)
    }
}

proof fn along_an_open_document(d: Seq<u8>, marks: Seq<int>, depths: Seq<int>, k: int)
    requires
        braces(d, marks, depths),
        0 <= k < marks.len(),
        marks.last() >= d.len(),
        forall|j: int| 0 < j < depths.len() ==> #[trigger] depths[j] > 0,
    ensures
        ({
            let v = structured::rtf_from(
                d,
                marks[k],
                depths[k],
                opened(d, marks, k),
                last_brace(d, marks, k),
            );
            &&& v.status == Status::Partial
            &&& v.length == last_brace(d, marks, marks.len() - 1)
            &&& v.ran_out
        }),
    decreases marks.len() - k,
{
    if k < marks.len() - 1 {
        assert(nth_mark(d, marks, depths, k));
        assert(depths[k + 1] > 0);
        along_an_open_document(d, marks, depths, k + 1);
    }
}

/// A document whose first group the data ends in is cut short: it keeps what
/// goes up to its last brace that is not escaped.
pub proof fn rich_text_cut_short_keeps_its_braces(d: Seq<u8>, marks: Seq<int>, depths: Seq<int>)
    requires
        d.len() >= 6,
        stands(d, seq![123u8, 92, 114, 116, 102], 0),
        48 <= d[5] <= 57,
        braces(d, marks, depths),
        marks.last() >= d.len(),
        forall|j: int| 0 < j < depths.len() ==> #[trigger] depths[j] > 0,
    ensures
        ({
            let v = structured::rtf_verdict(d);
            &&& v.status == Status::Partial
            &&& v.length == last_brace(d, marks, marks.len() - 1)
            &&& v.ran_out
        }),
{
    assert(structured::rtf_head() =~= seq![123u8, 92, 114, 116, 102]);
    along_an_open_document(d, marks, depths, 0);
}

/// What does not begin with `{\rtf` and a digit is no rich text.
pub proof fn only_rich_text_is_carved(d: Seq<u8>)
    requires
        d.len() < 6 || !stands(d, seq![123u8, 92, 114, 116, 102], 0) || !(48 <= d[5] <= 57),
    ensures
        structured::rtf_verdict(d).status == Status::Rejected,
{
    assert(structured::rtf_head() =~= seq![123u8, 92, 114, 116, 102]);
}

} // verus!
