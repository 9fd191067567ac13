//! JPEG images: the markers, and the data between restarts.

use vstd::prelude::*;
use crate::text;
use super::super::{Status, jpeg};
use super::be16;

verus! {

broadcast use super::group_read;

// ---------------------------------------------------------------------------
// Entropy-coded data
// ---------------------------------------------------------------------------

/// Whether a restart marker stands at `k`.
pub open spec fn restart_at(d: Seq<u8>, k: int) -> bool {
    d[k] == 255 && 208 <= d[k + 1] <= 215
}

/// Whether `[a, b)` is entropy-coded data in which `restarts` are the restart
/// markers: every `FF` in it is stuffed with a zero, or fills, or begins one of
/// them.
pub open spec fn coded(d: Seq<u8>, a: int, b: int, restarts: Seq<int>) -> bool {
    &&& 0 <= a <= b
    &&& b + 1 < d.len()
    &&& forall|k: int|
        a <= k < b && #[trigger] d[k] == 255 ==> d[k + 1] == 0 || d[k + 1] == 255 || restart_at(d, k)
    &&& forall|k: int| a <= k < b && #[trigger] restart_at(d, k) ==> restarts.contains(k)
    &&& forall|i: int| 0 <= i < restarts.len() ==> a <= #[trigger] restarts[i] < b && restart_at(
        d,
        restarts[i],
    )
    &&& forall|i: int, j: int|
        0 <= i < j < restarts.len() ==> (#[trigger] restarts[i]) < (#[trigger] restarts[j])
    &&& restarts.len() > 0 ==> restarts.last() + 2 <= b
}

/// Whether the first `n` restart markers count from 0 to 7, over and over.
pub open spec fn in_turn(d: Seq<u8>, restarts: Seq<int>, n: int) -> bool {
    forall|i: int| 0 <= i < n ==> d[#[trigger] restarts[i] + 1] == 208 + i % 8
}

/// Where the interval before the `i`-th restart marker begins.
pub open spec fn interval_at(a: int, restarts: Seq<int>, i: int) -> int {
    if i <= 0 {
        a
    } else {
        restarts[i - 1] + 2
    }
}

/// Whether no interval, up to the one that ends at `b`, is longer than `most`
/// bytes, where there is a most.
pub open spec fn short_enough(a: int, b: int, restarts: Seq<int>, most: Option<int>) -> bool {
    most matches Some(m) ==> {
        &&& forall|i: int|
            0 <= i < restarts.len() ==> #[trigger] restarts[i] - interval_at(a, restarts, i) <= m
        &&& b - interval_at(a, restarts, restarts.len() as int) <= m
    }
}

/// The walk over coded data, from `k` in the `i`-th interval on.
proof fn along_the_data(
    d: Seq<u8>,
    a: int,
    b: int,
    restarts: Seq<int>,
    most: Option<int>,
    k: int,
    i: int,
    verified: int,
    before: int,
)
    requires
        coded(d, a, b, restarts),
        in_turn(d, restarts, restarts.len() as int),
        short_enough(a, b, restarts, most),
        0 <= i <= restarts.len(),
        interval_at(a, restarts, i) <= k <= b,
        i < restarts.len() ==> k <= restarts[i],
    ensures
        ({
            let n = restarts.len() as int;
            jpeg::entropy_from(
                d,
                k,
                i % 8,
                interval_at(a, restarts, i),
                most,
                if i > 0 {
                    interval_at(a, restarts, i)
                } else {
                    verified
                },
                before + i,
            ) == jpeg::entropy_from(
                d,
                b,
                n % 8,
                interval_at(a, restarts, n),
                most,
                if n > 0 {
                    interval_at(a, restarts, n)
                } else {
                    verified
                },
                before + n,
            )
        }),
    decreases b - k,
{
    let n = restarts.len() as int;
    if i > 0 {
        assert(a <= restarts[i - 1]);
    }
    if k < b {
        if restart_at(d, k) {
            assert(restarts.contains(k));
            let j = choose|j: int| 0 <= j < n && restarts[j] == k;
            if j < i {
                if j < i - 1 {
                    assert(restarts[j] < restarts[i - 1]);
                }
            }
            if j > i {
                assert(restarts[i] < restarts[j]);
            }
            assert(j == i);
            assert(d[restarts[i] + 1] == 208 + i % 8);
            turns_go_round(i);
            if i + 1 < n {
                next_is_clear(d, a, b, restarts, i);
            }
            along_the_data(d, a, b, restarts, most, k + 2, i + 1, verified, before);
        } else if i < n && k == restarts[i] {
            assert(restart_at(d, restarts[i]));
        } else if d[k] != 255 || d[k + 1] == 255 {
            along_the_data(d, a, b, restarts, most, k + 1, i, verified, before);
        } else {
            assert(d[k + 1] == 0);
            if i < n && restarts[i] == k + 1 {
                assert(restart_at(d, restarts[i]));
            }
            if k + 1 < b {
                along_the_data(d, a, b, restarts, most, k + 2, i, verified, before);
            } else {
                assert(d[b] == 0);
            }
        }
    }
}

proof fn turns_go_round(i: int)
    requires
        0 <= i,
    ensures
        (i % 8 + 1) % 8 == (i + 1) % 8,
{
}

proof fn next_is_clear(d: Seq<u8>, a: int, b: int, restarts: Seq<int>, i: int)
    requires
        coded(d, a, b, restarts),
        0 <= i,
        i + 1 < restarts.len(),
    ensures
        restarts[i] + 2 <= restarts[i + 1],
{
    assert(restarts[i] < restarts[i + 1]);
    assert(restart_at(d, restarts[i]) && restart_at(d, restarts[i + 1]));
}

/// Where the data of a scan ends, and how it is told: at the first marker that
/// is no restart, where the restart markers before it come in their turn and no
/// interval is longer than it may be.
pub proof fn a_scan_ends_at_its_marker(
    d: Seq<u8>,
    a: int,
    b: int,
    restarts: Seq<int>,
    most: Option<int>,
    verified: int,
    before: int,
)
    requires
        coded(d, a, b, restarts),
        in_turn(d, restarts, restarts.len() as int),
        short_enough(a, b, restarts, most),
        d[b] == 255,
        d[b + 1] != 0,
        d[b + 1] != 255,
        !restart_at(d, b),
    ensures
        jpeg::entropy_from(d, a, 0, a, most, verified, before) == (jpeg::Scan::Marker {
            at: b,
            verified: if restarts.len() > 0 {
                restarts.last() + 2
            } else {
                verified
            },
            restarts: before + restarts.len(),
        }),
{
    along_the_data(d, a, b, restarts, most, a, 0, verified, before);
}

/// A restart marker that is out of its turn is told, with the one that was due,
/// and what is before it stands up to the last that came in its turn.
pub proof fn a_restart_out_of_turn_is_told(
    d: Seq<u8>,
    a: int,
    b: int,
    restarts: Seq<int>,
    most: Option<int>,
    verified: int,
    before: int,
)
    requires
        coded(d, a, b, restarts),
        in_turn(d, restarts, restarts.len() as int),
        short_enough(a, b, restarts, most),
        restart_at(d, b),
        d[b + 1] != 208 + restarts.len() % 8,
    ensures
        jpeg::entropy_from(d, a, 0, a, most, verified, before) == (jpeg::Scan::OutOfSequence {
            expected: restarts.len() as int % 8,
            got: d[b + 1] - 208,
            verified: if restarts.len() > 0 {
                restarts.last() + 2
            } else {
                verified
            },
            restarts: before + restarts.len(),
        }),
{
    along_the_data(d, a, b, restarts, most, a, 0, verified, before);
}

// ---------------------------------------------------------------------------
// Markers
// ---------------------------------------------------------------------------

/// What the markers before a place have said.
pub struct Said {
    pub width: int,
    pub height: int,
    pub components: int,
    /// MCUs between restart markers, where there is an interval.
    pub interval: int,
    /// Blocks in an MCU.
    pub blocks: int,
    pub segments: int,
    pub restarts: int,
    pub frame: bool,
    pub scan: bool,
}

/// Whether a marker begins a frame: `C0` to `CF`, but for the three that define
/// tables and extensions.
pub open spec fn begins_frame(m: u8) -> bool {
    192 <= m <= 207 && m != 196 && m != 200 && m != 204
}

/// The blocks of a component in an MCU: its sampling factors, which are the two
/// halves of a byte, multiplied.
pub open spec fn sampling(b: u8) -> int {
    (b as int / 16) * (b as int % 16)
}

/// The blocks in an MCU, of a frame whose length field is at `at`.
pub open spec fn blocks(d: Seq<u8>, at: int) -> int {
    let n = d[at + 7];
    let sum = sampling(d[at + 9]) + sampling(d[at + 12]) + sampling(d[at + 15]) + (if n == 4 {
        sampling(d[at + 18])
    } else {
        0
    });
    if n == 1 || sum < 1 {
        1
    } else {
        sum
    }
}

/// Whether a marker stands at `from`, behind any number of fill bytes, with its
/// code at `code`.
pub open spec fn marker_at(d: Seq<u8>, from: int, code: int) -> bool {
    &&& 0 <= from < code
    &&& code < d.len()
    &&& d[code] != 255
    &&& forall|i: int| from <= i < code ==> #[trigger] d[i] == 255
}

/// Whether the marker at `from` stands alone, and ends at `next`.
pub open spec fn is_alone(d: Seq<u8>, code: int, next: int) -> bool {
    &&& d[code] == 1 || 208 <= d[code] <= 215
    &&& next == code + 1
}

/// Whether the marker whose code is at `code` begins a segment, which ends at
/// `end`.
pub open spec fn is_segment(d: Seq<u8>, code: int, end: int) -> bool {
    let m = d[code];
    &&& m != 1 && !(208 <= m <= 215) && m != 216 && m != 217
    &&& code + 3 <= d.len()
    &&& be16(d, code + 1) >= 2
    &&& end == code + 1 + be16(d, code + 1)
    &&& end <= d.len()
    // A restart interval is a number.
    &&& m == 221 ==> be16(d, code + 1) >= 4
    // A frame has dimensions, and 1, 3 or 4 components.
    &&& begins_frame(m) ==> {
        let n = d[code + 8];
        &&& n == 1 || n == 3 || n == 4
        &&& be16(d, code + 1) >= 8 + 3 * n
        &&& be16(d, code + 4) > 0
        &&& be16(d, code + 6) > 0
    }
}

/// What the segment whose code is at `code` adds to what was said.
pub open spec fn adds(d: Seq<u8>, code: int, x: Said, y: Said) -> bool {
    let m = d[code];
    &&& y.segments == x.segments + 1
    &&& y.interval == (if m == 221 {
        be16(d, code + 3)
    } else {
        x.interval
    })
    &&& y.frame == (x.frame || begins_frame(m))
    &&& if begins_frame(m) {
        &&& y.height == be16(d, code + 4)
        &&& y.width == be16(d, code + 6)
        &&& y.components == d[code + 8]
        &&& y.blocks == blocks(d, code + 1)
    } else {
        &&& y.height == x.height
        &&& y.width == x.width
        &&& y.components == x.components
        &&& y.blocks == x.blocks
    }
}

/// The most bytes that an interval may take: 512 for each block.
pub open spec fn most_bytes(x: Said) -> Option<int> {
    if x.interval > 0 {
        Some(x.interval * x.blocks * 512)
    } else {
        None
    }
}

/// Whether the marker at `cuts[j]`, with its code at `codes[j]`, is one that
/// leads to `cuts[j + 1]`, and what it says is added. A start of scan, `DA`, has
/// entropy-coded data behind it, which ends with the next marker.
pub open spec fn nth_marker(
    d: Seq<u8>,
    cuts: Seq<int>,
    codes: Seq<int>,
    said: Seq<Said>,
    restarts: Seq<Seq<int>>,
    j: int,
) -> bool {
    let code = codes[j];
    let x = said[j];
    let y = said[j + 1];
    &&& marker_at(d, cuts[j], code)
    &&& {
        ||| is_alone(d, code, cuts[j + 1]) && x == y
        ||| d[code] != 218 && is_segment(d, code, cuts[j + 1]) && adds(d, code, x, y) && y.scan
            == x.scan && y.restarts == x.restarts
        ||| d[code] == 218 && is_scan(d, code, cuts[j + 1], restarts[j], x) && adds(d, code, x, y)
            && y.scan && y.restarts == x.restarts + restarts[j].len()
    }
}

/// Whether a scan, with its header, stands from `code` to `next`.
pub open spec fn is_scan(d: Seq<u8>, code: int, next: int, restarts: Seq<int>, x: Said) -> bool {
    let a = code + 1 + be16(d, code + 1);
    &&& is_segment(d, code, a)
    &&& coded(d, a, next, restarts)
    &&& in_turn(d, restarts, restarts.len() as int)
    &&& short_enough(a, next, restarts, most_bytes(x))
    &&& d[next] == 255
    &&& d[next + 1] != 0
    &&& d[next + 1] != 255
    &&& !restart_at(d, next)
}

spec fn matches_said(s: jpeg::Progress, x: Said) -> bool {
    &&& s.saw_sof == x.frame
    &&& s.saw_sos == x.scan
    &&& s.width == x.width
    &&& s.height == x.height
    &&& s.components == x.components
    &&& s.restarts == x.restarts
    &&& s.interval == x.interval
    &&& s.blocks_per_mcu == x.blocks
    &&& s.segments == x.segments
}

proof fn fill_read(d: Seq<u8>, i: int, code: int)
    requires
        0 <= i <= code < d.len(),
        d[code] != 255,
        forall|k: int| i <= k < code ==> #[trigger] d[k] == 255,
    ensures
        jpeg::past_fill(d, i) == code,
    decreases code - i,
{
    if i < code {
        fill_read(d, i + 1, code);
    }
}

proof fn blocks_read(d: Seq<u8>, at: int)
    requires
        0 <= at,
        d[at + 7] == 1 || d[at + 7] == 3 || d[at + 7] == 4,
        at + 8 + 3 * d[at + 7] <= d.len(),
    ensures
        jpeg::blocks_in_mcu(d, at, d[at + 7] as int) == blocks(d, at),
{
    reveal_with_fuel(jpeg::sampled_blocks, 5);
}

proof fn along_the_markers(
    d: Seq<u8>,
    cuts: Seq<int>,
    codes: Seq<int>,
    said: Seq<Said>,
    restarts: Seq<Seq<int>>,
    s: jpeg::Progress,
    j: int,
)
    requires
        cuts.len() > 0,
        codes.len() == cuts.len(),
        said.len() == cuts.len(),
        forall|i: int|
            0 <= i < cuts.len() - 1 ==> #[trigger] nth_marker(d, cuts, codes, said, restarts, i),
        marker_at(d, cuts.last(), codes.last()),
        d[codes.last()] == 217,
        said.last().frame,
        said.last().scan,
        0 <= j < cuts.len(),
        s.at == cuts[j],
        s.at >= 0,
        matches_said(s, said[j]),
    ensures
        ({
            let v = jpeg::markers_from(d, s);
            &&& v.status == Status::Valid
            &&& v.length == codes.last() + 1
            &&& v.refined_ext is None
            &&& v.evidence == seq![
                ("width"@, text::dec(said.last().width)),
                ("height"@, text::dec(said.last().height)),
                ("components"@, text::dec(said.last().components)),
                ("segments"@, text::dec(said.last().segments)),
                ("restart_markers"@, text::dec(said.last().restarts)),
            ]
        }),
    decreases cuts.len() - j,
{
    let v = jpeg::markers_from(d, s);
    if j == cuts.len() - 1 {
        fill_read(d, cuts[j], codes[j]);
        assert(v.evidence =~= seq![
            ("width"@, text::dec(said.last().width)),
            ("height"@, text::dec(said.last().height)),
            ("components"@, text::dec(said.last().components)),
            ("segments"@, text::dec(said.last().segments)),
            ("restart_markers"@, text::dec(said.last().restarts)),
        ]);
    } else {
        assert(nth_marker(d, cuts, codes, said, restarts, j));
        let code = codes[j];
        let m = d[code];
        fill_read(d, cuts[j], code);
        if is_alone(d, code, cuts[j + 1]) {
            let s1 = jpeg::Progress { at: code + 1, ..s };
            along_the_markers(d, cuts, codes, said, restarts, s1, j + 1);
        } else {
            let at = code + 1;
            let len = be16(d, at);
            if begins_frame(m) {
                blocks_read(d, at);
            }
            let s1 = jpeg::segment(d, m, at, len, s)->Ok_0;
            assert(jpeg::segment(d, m, at, len, s) is Ok);
            assert(s1.at == at + len);
            if m == 218 {
                let r = restarts[j];
                assert(jpeg::interval_limit(s1) == most_bytes(said[j]));
                a_scan_ends_at_its_marker(
                    d,
                    at + len,
                    cuts[j + 1],
                    r,
                    most_bytes(said[j]),
                    s1.verified,
                    s1.restarts,
                );
                let s2 = jpeg::scanned(d, s1)->Ok_0;
                along_the_markers(d, cuts, codes, said, restarts, s2, j + 1);
            } else {
                along_the_markers(d, cuts, codes, said, restarts, s1, j + 1);
            }
        }
    }
}

/// A JPEG whose markers follow each other from its start to its end, with a
/// frame and a scan among them, restart markers that come in their turn and
/// intervals that are no longer than they may be, is complete. It ends with its
/// end marker.
pub proof fn a_jpeg_ends_with_its_end_marker(
    d: Seq<u8>,
    cuts: Seq<int>,
    codes: Seq<int>,
    said: Seq<Said>,
    restarts: Seq<Seq<int>>,
)
    requires
        d.len() >= 4,
        d[0] == 255,
        d[1] == 216,
        cuts.len() > 0,
        codes.len() == cuts.len(),
        said.len() == cuts.len(),
        cuts[0] == 2,
        said[0] == (Said {
            width: 0,
            height: 0,
            components: 0,
            interval: 0,
            blocks: 1,
            segments: 0,
            restarts: 0,
            frame: false,
            scan: false,
        }),
        forall|i: int|
            0 <= i < cuts.len() - 1 ==> #[trigger] nth_marker(d, cuts, codes, said, restarts, i),
        marker_at(d, cuts.last(), codes.last()),
        d[codes.last()] == 217,
        said.last().frame,
        said.last().scan,
    ensures
        ({
            let v = jpeg::verdict(d);
            &&& v.status == Status::Valid
            &&& v.length == codes.last() + 1
            &&& v.refined_ext is None
            &&& v.evidence == seq![
                ("width"@, text::dec(said.last().width)),
                ("height"@, text::dec(said.last().height)),
                ("components"@, text::dec(said.last().components)),
                ("segments"@, text::dec(said.last().segments)),
                ("restart_markers"@, text::dec(said.last().restarts)),
            ]
        }),
{
    let s = jpeg::Progress {
        at: 2,
        saw_sof: false,
        saw_sos: false,
        width: 0,
        height: 0,
        components: 0,
        restarts: 0,
        interval: 0,
        blocks_per_mcu: 1,
        segments: 0,
        verified: 2,
    };
    along_the_markers(d, cuts, codes, said, restarts, s, 0);
}

// ---------------------------------------------------------------------------
// Where it breaks off
// ---------------------------------------------------------------------------

/// Up to where a scan's data stands: past the last restart marker, or where
/// there is none, to the end of the scan's header.
pub open spec fn stands_to(a: int, restarts: Seq<int>) -> int {
    if restarts.len() > 0 {
        restarts.last() + 2
    } else {
        a
    }
}

/// Entropy-coded data that has gone on for longer than its interval may, with no
/// restart marker, is spliced: what stands goes up to the last restart marker.
pub proof fn an_interval_too_long_is_told(
    d: Seq<u8>,
    a: int,
    b: int,
    restarts: Seq<int>,
    most: int,
    before: int,
)
    requires
        coded(d, a, b, restarts),
        in_turn(d, restarts, restarts.len() as int),
        short_enough(a, b, restarts, Some(most)),
        b - stands_to(a, restarts) == most,
        d[b] != 255,
    ensures
        jpeg::entropy_from(d, a, 0, a, Some(most), a, before) == (jpeg::Scan::Spliced {
            run: most + 1,
            verified: stands_to(a, restarts),
            restarts: before + restarts.len(),
        }),
{
    reveal_with_fuel(jpeg::entropy_from, 2);
    along_the_data(d, a, b, restarts, Some(most), a, 0, a, before);
}

/// Entropy-coded data that the end of the data cuts off stands up to the last
/// restart marker.
pub proof fn data_that_ends_is_told(
    d: Seq<u8>,
    a: int,
    b: int,
    restarts: Seq<int>,
    most: Option<int>,
    before: int,
)
    requires
        coded(d, a, b, restarts),
        in_turn(d, restarts, restarts.len() as int),
        short_enough(a, b + 2, restarts, most),
        b + 2 == d.len(),
        d[b] != 255 || d[b + 1] == 0 || d[b + 1] == 255,
    ensures
        jpeg::entropy_from(d, a, 0, a, most, a, before) == (jpeg::Scan::Ended {
            verified: stands_to(a, restarts),
            restarts: before + restarts.len(),
        }),
{
    reveal_with_fuel(jpeg::entropy_from, 2);
    along_the_data(d, a, b, restarts, most, a, 0, a, before);
}

/// Up to where the first `j` markers justify the file: the end of the last
/// segment, or of the last restart marker behind it.
pub open spec fn justified(
    d: Seq<u8>,
    cuts: Seq<int>,
    codes: Seq<int>,
    restarts: Seq<Seq<int>>,
    j: int,
) -> int
    decreases j,
{
    if j <= 0 {
        2
    } else {
        let code = codes[j - 1];
        if d[code] == 1 || 208 <= d[code] <= 215 {
            justified(d, cuts, codes, restarts, j - 1)
        } else if d[code] == 218 {
            stands_to(code + 1 + be16(d, code + 1), restarts[j - 1])
        } else {
            cuts[j]
        }
    }
}

/// Whether these are the first markers of a JPEG, with what each says and the
/// restart markers behind it.
pub open spec fn markers_begin(
    d: Seq<u8>,
    cuts: Seq<int>,
    codes: Seq<int>,
    said: Seq<Said>,
    restarts: Seq<Seq<int>>,
) -> bool {
    &&& d.len() >= 4
    &&& d[0] == 255
    &&& d[1] == 216
    &&& cuts.len() > 0
    &&& codes.len() == cuts.len() - 1
    &&& said.len() == cuts.len()
    &&& cuts[0] == 2
    &&& said[0] == (Said {
        width: 0,
        height: 0,
        components: 0,
        interval: 0,
        blocks: 1,
        segments: 0,
        restarts: 0,
        frame: false,
        scan: false,
    })
    &&& forall|i: int|
        0 <= i < cuts.len() - 1 ==> #[trigger] nth_marker(d, cuts, codes, said, restarts, i)
}

proof fn past_the_markers(
    d: Seq<u8>,
    cuts: Seq<int>,
    codes: Seq<int>,
    said: Seq<Said>,
    restarts: Seq<Seq<int>>,
    s: jpeg::Progress,
    j: int,
) -> (e: jpeg::Progress)
    requires
        markers_begin(d, cuts, codes, said, restarts),
        0 <= j < cuts.len(),
        s.at == cuts[j],
        0 <= s.at <= d.len(),
        s.verified == justified(d, cuts, codes, restarts, j),
        matches_said(s, said[j]),
    ensures
        e.at == cuts.last(),
        0 <= e.at <= d.len(),
        e.verified == justified(d, cuts, codes, restarts, cuts.len() - 1),
        matches_said(e, said.last()),
        jpeg::markers_from(d, s) == jpeg::markers_from(d, e),
    decreases cuts.len() - j,
{
    if j == cuts.len() - 1 {
        s
    } else {
        assert(nth_marker(d, cuts, codes, said, restarts, j));
        let code = codes[j];
        let m = d[code];
        fill_read(d, cuts[j], code);
        if is_alone(d, code, cuts[j + 1]) {
            let s1 = jpeg::Progress { at: code + 1, ..s };
            past_the_markers(d, cuts, codes, said, restarts, s1, j + 1)
        } else {
            let at = code + 1;
            let len = be16(d, at);
            if begins_frame(m) {
                blocks_read(d, at);
            }
            let s1 = jpeg::segment(d, m, at, len, s)->Ok_0;
            assert(jpeg::segment(d, m, at, len, s) is Ok);
            assert(s1.at == at + len);
            if m == 218 {
                let r = restarts[j];
                assert(jpeg::interval_limit(s1) == most_bytes(said[j]));
                a_scan_ends_at_its_marker(
                    d,
                    at + len,
                    cuts[j + 1],
                    r,
                    most_bytes(said[j]),
                    s1.verified,
                    s1.restarts,
                );
                let s2 = jpeg::scanned(d, s1)->Ok_0;
                past_the_markers(d, cuts, codes, said, restarts, s2, j + 1)
            } else {
                past_the_markers(d, cuts, codes, said, restarts, s1, j + 1)
            }
        }
    }
}

spec fn at_the_start() -> jpeg::Progress {
    jpeg::Progress {
        at: 2,
        saw_sof: false,
        saw_sos: false,
        width: 0,
        height: 0,
        components: 0,
        restarts: 0,
        interval: 0,
        blocks_per_mcu: 1,
        segments: 0,
        verified: 2,
    }
}

proof fn fill_to_the_end(d: Seq<u8>, i: int)
    requires
        0 <= i <= d.len(),
        forall|k: int| i <= k < d.len() ==> #[trigger] d[k] == 255,
    ensures
        jpeg::past_fill(d, i) == d.len(),
    decreases d.len() - i,
{
    if i < d.len() {
        fill_to_the_end(d, i + 1);
    }
}

/// A JPEG whose chain of markers breaks off is not complete. With a frame and a
/// scan before that it keeps what stands: up to the last segment or restart
/// marker where the data ends, which is said, and up to the break where what
/// follows is no marker, another start, or a segment shorter than its own length
/// field. Without both it is no JPEG.
pub proof fn a_jpeg_cut_short_keeps_what_stands(
    d: Seq<u8>,
    cuts: Seq<int>,
    codes: Seq<int>,
    said: Seq<Said>,
    restarts: Seq<Seq<int>>,
    code: int,
)
    requires
        markers_begin(d, cuts, codes, said, restarts),
    ensures
        ({
            let v = jpeg::verdict(d);
            let at = cuts.last();
            let told = |length: int, ends: bool|
                {
                    &&& v.ran_out == ends
                    &&& said.last().frame && said.last().scan ==> v.status == Status::Partial
                        && v.length == length
                    &&& !(said.last().frame && said.last().scan) ==> v.status == Status::Rejected
                };
            let upto = justified(d, cuts, codes, restarts, cuts.len() - 1);
            let length = be16(d, code + 1);
            let segment = marker_at(d, at, code) && d[code] != 1 && !(208 <= d[code] <= 217);
            &&& (forall|k: int| at <= k < d.len() ==> #[trigger] d[k] == 255) ==> told(upto, true)
            &&& at < d.len() && d[at] != 255 ==> told(at, false)
            &&& marker_at(d, at, code) && d[code] == 216 ==> told(code + 1, false)
            &&& marker_at(d, at, code) && d[code] == 217 && !(said.last().frame
                && said.last().scan) ==> v.status == Status::Rejected
            &&& segment && code + 3 > d.len() ==> told(upto, true)
            &&& segment && code + 3 <= d.len() && length < 2 ==> told(code + 1, false)
            &&& segment && code + 3 <= d.len() && length >= 2 && code + 1 + length > d.len()
                ==> told(upto, true)
            &&& segment && begins_frame(d[code]) && code + 1 + length <= d.len() && length >= 8 && (
            be16(d, code + 4) == 0 || be16(d, code + 6) == 0 || !(d[code + 8] == 1 || d[code + 8]
                == 3 || d[code + 8] == 4)) ==> v.status == Status::Rejected && !v.ran_out
        }),
{
    let e = past_the_markers(d, cuts, codes, said, restarts, at_the_start(), 0);
    let at = cuts.last();
    if forall|k: int| at <= k < d.len() ==> #[trigger] d[k] == 255 {
        fill_to_the_end(d, at);
    }
    if marker_at(d, at, code) {
        fill_read(d, at, code);
    }
}

/// A JPEG whose scan breaks off is damaged, and keeps what stands of it. A
/// restart marker out of its turn, or none where one was due, is damage; that
/// the data ends is said.
pub proof fn a_scan_cut_short_keeps_what_stands(
    d: Seq<u8>,
    cuts: Seq<int>,
    codes: Seq<int>,
    said: Seq<Said>,
    restarts: Seq<Seq<int>>,
    code: int,
    b: int,
    found: Seq<int>,
)
    requires
        markers_begin(d, cuts, codes, said, restarts),
        marker_at(d, cuts.last(), code),
        d[code] == 218,
        is_segment(d, code, code + 1 + be16(d, code + 1)),
        coded(d, code + 1 + be16(d, code + 1), b, found),
        in_turn(d, found, found.len() as int),
        short_enough(code + 1 + be16(d, code + 1), b, found, most_bytes(said.last())),
    ensures
        ({
            let v = jpeg::verdict(d);
            let a = code + 1 + be16(d, code + 1);
            let most = most_bytes(said.last());
            &&& restart_at(d, b) && d[b + 1] != 208 + found.len() % 8 ==> {
                &&& v.status == Status::Partial
                &&& v.length == stands_to(a, found)
                &&& !v.ran_out
            }
            &&& most is Some && b - stands_to(a, found) == most->0 && d[b] != 255 ==> {
                &&& v.status == Status::Partial
                &&& v.length == stands_to(a, found)
                &&& !v.ran_out
            }
            &&& b + 2 == d.len() && short_enough(a, b + 2, found, most) && (d[b] != 255 || d[b + 1]
                == 0 || d[b + 1] == 255) ==> {
                &&& v.ran_out
                &&& said.last().frame ==> v.status == Status::Partial && v.length == stands_to(
                    a,
                    found,
                )
                &&& !said.last().frame ==> v.status == Status::Rejected
            }
        }),
{
    let e = past_the_markers(d, cuts, codes, said, restarts, at_the_start(), 0);
    let at = code + 1;
    let len = be16(d, at);
    let a = at + len;
    let most = most_bytes(said.last());
    fill_read(d, cuts.last(), code);
    let s1 = jpeg::segment(d, d[code], at, len, e)->Ok_0;
    assert(jpeg::segment(d, d[code], at, len, e) is Ok);
    assert(jpeg::interval_limit(s1) == most);
    assert(s1.verified == a && s1.at == a);
    if restart_at(d, b) && d[b + 1] != 208 + found.len() % 8 {
        a_restart_out_of_turn_is_told(d, a, b, found, most, a, s1.restarts);
    }
    if most is Some && b - stands_to(a, found) == most->0 && d[b] != 255 {
        an_interval_too_long_is_told(d, a, b, found, most->0, s1.restarts);
    }
    if b + 2 == d.len() && short_enough(a, b + 2, found, most) && (d[b] != 255 || d[b + 1] == 0
        || d[b + 1] == 255) {
        data_that_ends_is_told(d, a, b, found, most, s1.restarts);
    }
}

/// What does not begin with a start marker is no JPEG.
pub proof fn only_a_jpeg_is_carved(d: Seq<u8>)
    requires
        d.len() < 4 || d[0] != 255 || d[1] != 216,
    ensures
        jpeg::verdict(d).status == Status::Rejected,
{
}

} // verus!
