//! MP4, MOV and HEIF files, and the H.264 video in them.

use vstd::prelude::*;
use crate::bytes;
use crate::text;
use super::super::{Status, mp4};
use super::{be16, be32, be64, stands};

verus! {

broadcast use super::group_read;

// ---------------------------------------------------------------------------
// NAL units
// ---------------------------------------------------------------------------

/// The length that stands before a NAL unit at `at`, in a field of 1 to 4 bytes.
pub open spec fn unit_len(d: Seq<u8>, at: int, width: int) -> int {
    if width == 1 {
        d[at] as int
    } else if width == 2 {
        be16(d, at)
    } else if width == 3 {
        0x1_0000 * d[at] + be16(d, at + 1)
    } else {
        be32(d, at)
    }
}

/// Whether `cuts` are where the NAL units of `[at, end)` begin, and where the
/// last of them ends: each has its length before it, is not empty, and has the
/// top bit of its first byte clear.
pub open spec fn units(d: Seq<u8>, at: int, end: int, width: int, cuts: Seq<int>) -> bool {
    &&& cuts.len() > 0
    &&& cuts[0] == at
    &&& cuts.last() == end
    &&& forall|j: int|
        0 <= j < cuts.len() - 1 ==> {
            &&& at <= #[trigger] cuts[j]
            &&& cuts[j] + width < end
            &&& unit_len(d, cuts[j], width) > 0
            &&& d[cuts[j] + width] < 128
            &&& cuts[j + 1] == cuts[j] + width + unit_len(d, cuts[j], width)
            &&& cuts[j + 1] <= end
        }
}

/// Whether the bytes of `[at, end)` divide exactly into NAL units.
pub open spec fn divides(d: Seq<u8>, at: int, end: int, width: int) -> bool {
    exists|cuts: Seq<int>| #[trigger] units(d, at, end, width, cuts)
}

proof fn length_read(d: Seq<u8>, at: int, end: int, p: int, width: int)
    requires
        0 <= at <= p,
        p + width <= end <= d.len(),
        1 <= width <= 4,
    ensures
        mp4::length_field(d.subrange(at, end), p - at, width) == unit_len(d, p, width),
        unit_len(d, p, width) >= 0,
{
    reveal_with_fuel(mp4::length_field, 5);
    let s = d.subrange(at, end);
    assert(s[p - at] == d[p]);
    if width > 1 {
        assert(s[p - at + 1] == d[p + 1]);
    }
    if width > 2 {
        assert(s[p - at + 2] == d[p + 2]);
    }
    if width > 3 {
        assert(s[p - at + 3] == d[p + 3]);
    }
}

proof fn cuts_tile(d: Seq<u8>, at: int, end: int, width: int, cuts: Seq<int>, j: int)
    requires
        units(d, at, end, width, cuts),
        0 <= at <= end <= d.len(),
        1 <= width <= 4,
        0 <= j < cuts.len(),
    ensures
        mp4::tiles_from(d.subrange(at, end), cuts[j] - at, width),
    decreases cuts.len() - j,
{
    let s = d.subrange(at, end);
    if j < cuts.len() - 1 {
        length_read(d, at, end, cuts[j], width);
        assert(s[cuts[j] - at + width] == d[cuts[j] + width]);
        cuts_tile(d, at, end, width, cuts, j + 1);
    }
}

proof fn tiles_cut(d: Seq<u8>, at: int, end: int, width: int, p: int) -> (cuts: Seq<int>)
    requires
        0 <= at <= p <= end <= d.len(),
        1 <= width <= 4,
        mp4::tiles_from(d.subrange(at, end), p - at, width),
    ensures
        units(d, p, end, width, cuts),
    decreases end - p,
{
    if p == end {
        seq![p]
    } else {
        let s = d.subrange(at, end);
        length_read(d, at, end, p, width);
        let next = p + width + unit_len(d, p, width);
        assert(s[p - at + width] == d[p + width]);
        let rest = tiles_cut(d, at, end, width, next);
        let cuts = seq![p] + rest;
        assert(cuts.last() == end);
        assert forall|j: int| 0 <= j < cuts.len() - 1 implies {
            &&& p <= #[trigger] cuts[j]
            &&& cuts[j] + width < end
            &&& unit_len(d, cuts[j], width) > 0
            &&& d[cuts[j] + width] < 128
            &&& cuts[j + 1] == cuts[j] + width + unit_len(d, cuts[j], width)
            &&& cuts[j + 1] <= end
        } by {
            if j > 0 {
                assert(cuts[j] == rest[j - 1]);
                assert(cuts[j + 1] == rest[j]);
            } else {
                assert(cuts[1] == rest[0]);
            }
        }
        cuts
    }
}

/// A sample passes exactly where it divides into NAL units.
pub proof fn a_sample_passes_where_it_divides(d: Seq<u8>, at: int, end: int, width: int)
    requires
        0 <= at <= end <= d.len(),
        1 <= width <= 4,
    ensures
        mp4::tiles_from(d.subrange(at, end), 0, width) <==> divides(d, at, end, width),
{
    if mp4::tiles_from(d.subrange(at, end), 0, width) {
        let cuts = tiles_cut(d, at, end, width, at);
        assert(units(d, at, end, width, cuts));
    }
    if divides(d, at, end, width) {
        let cuts = choose|cuts: Seq<int>| #[trigger] units(d, at, end, width, cuts);
        cuts_tile(d, at, end, width, cuts, 0);
    }
}

// ---------------------------------------------------------------------------
// Samples in chunks
// ---------------------------------------------------------------------------

/// Whether the chunk numbered `n`, counted from one, belongs to run `r`: runs
/// apply from their first chunk on, until the next run's.
pub open spec fn in_run(runs: Seq<(int, int)>, r: int, n: int) -> bool {
    &&& 0 <= r < runs.len()
    &&& runs[r].0 <= n
    &&& r + 1 < runs.len() ==> n < runs[r + 1].0
}

/// Whether the runs begin with the first chunk, and each later than the one
/// before.
pub open spec fn runs_ascend(runs: Seq<(int, int)>) -> bool {
    &&& runs.len() > 0
    &&& runs[0].0 == 1
    &&& forall|i: int, j: int| 0 <= i < j < runs.len() ==> (#[trigger] runs[i]).0 < (#[trigger] runs[j]).0
}

/// The run that a chunk is read by is the last one that begins at it or before
/// it, wherever the search for it starts from.
pub proof fn a_run_lasts_until_the_next(runs: Seq<(int, int)>, from: int, n: int)
    requires
        runs_ascend(runs),
        0 <= from < runs.len(),
        runs[from].0 <= n,
    ensures
        in_run(runs, mp4::run_of(runs, from, n - 1), n),
        forall|r: int| #[trigger] in_run(runs, r, n) ==> r == mp4::run_of(runs, from, n - 1),
    decreases runs.len() - from,
{
    if from + 1 < runs.len() && runs[from + 1].0 <= n {
        a_run_lasts_until_the_next(runs, from + 1, n);
    } else {
        assert forall|r: int| #[trigger] in_run(runs, r, n) implies r == from by {
            if r < from {
                assert(runs[r + 1].0 <= runs[from].0);
            }
            if r > from {
                assert(runs[from + 1].0 <= runs[r].0);
            }
        }
    }
}

/// Whether `first` gives the first sample of every chunk of a track, and the
/// number of its samples last, and `place` where every sample is: those of one
/// chunk follow each other from the chunk's offset on.
pub open spec fn laid_out(t: mp4::Track, first: Seq<int>, place: Seq<int>) -> bool {
    &&& runs_ascend(t.runs)
    &&& first.len() == t.chunks.len() + 1
    &&& place.len() == t.sizes.len()
    &&& first[0] == 0
    &&& first.last() == t.sizes.len()
    &&& forall|k: int| 0 <= k < t.chunks.len() ==> #[trigger] nth_chunk(t, first, place, k)
}

/// Whether the samples of the `k`-th chunk, counted from zero, are as many as
/// its run says, and follow each other from where it begins.
pub open spec fn nth_chunk(t: mp4::Track, first: Seq<int>, place: Seq<int>, k: int) -> bool {
    &&& 0 <= first[k] <= first[k + 1] <= t.sizes.len()
    &&& forall|r: int| #[trigger]
        in_run(t.runs, r, k + 1) ==> 0 <= t.runs[r].1 && first[k] + t.runs[r].1 == first[k + 1]
    &&& first[k] < first[k + 1] ==> place[first[k]] == t.chunks[k]
    &&& forall|s: int|
        first[k] < s < first[k + 1] ==> #[trigger] place[s] == place[s - 1] + t.sizes[s - 1]
}

/// Whether the sample `s` is all there, and divides into NAL units.
pub open spec fn sample_stands(d: Seq<u8>, t: mp4::Track, place: Seq<int>, s: int) -> bool {
    &&& 0 <= place[s]
    &&& 0 <= t.sizes[s]
    &&& place[s] + t.sizes[s] <= d.len()
    &&& divides(d, place[s], place[s] + t.sizes[s], t.width)
}

/// Where the samples before `s` end, `before` having been passed before this
/// track.
pub open spec fn passed(t: mp4::Track, place: Seq<int>, s: int, before: mp4::Count) -> mp4::Count {
    mp4::Count {
        samples: before.samples + s,
        end: if s > 0 {
            place[s - 1] + t.sizes[s - 1]
        } else {
            before.end
        },
    }
}

/// A chunk, from the sample `s` on: to its end where all stand, else to the
/// sample that does not.
proof fn along_a_chunk(
    d: Seq<u8>,
    t: mp4::Track,
    first: Seq<int>,
    place: Seq<int>,
    before: mp4::Count,
    k: int,
    s: int,
    bad: int,
    pos: int,
)
    requires
        d.len() <= u64::MAX,
        1 <= t.width <= 4,
        laid_out(t, first, place),
        0 <= k < t.chunks.len(),
        first[k] <= s <= first[k + 1],
        s <= bad <= t.sizes.len(),
        s < first[k + 1] ==> pos == place[s],
        forall|x: int| 0 <= x < bad ==> #[trigger] sample_stands(d, t, place, x),
        bad < t.sizes.len() ==> 0 <= place[bad] && 0 <= t.sizes[bad] && place[bad] + t.sizes[bad]
            <= d.len() && !divides(d, place[bad], place[bad] + t.sizes[bad], t.width),
        before.samples >= 0,
        before.samples + t.sizes.len() < mp4::MAX_SAMPLES,
    ensures
        mp4::chunk_from(d, t, pos, first[k + 1] - s, s, passed(t, place, s, before)) == (if bad
            < first[k + 1] {
            Err(
                mp4::Samples::Spliced {
                    track: t.number,
                    sample: bad,
                    offset: place[bad],
                    sound: passed(t, place, bad, before).end,
                },
            )
        } else {
            Ok((first[k + 1], passed(t, place, first[k + 1], before)))
        }),
    decreases first[k + 1] - s,
{
    assert(nth_chunk(t, first, place, k));
    if s < first[k + 1] {
        let end = pos + t.sizes[s];
        if s < bad {
            assert(sample_stands(d, t, place, s));
        }
        a_sample_passes_where_it_divides(d, pos, end, t.width);
        if s < bad {
            if s + 1 < first[k + 1] {
                assert(place[s + 1] == place[s] + t.sizes[s]);
            }
            assert(passed(t, place, s + 1, before) == mp4::Count {
                samples: before.samples + s + 1,
                end,
            });
            along_a_chunk(d, t, first, place, before, k, s + 1, bad, end);
        }
    }
}

proof fn along_a_track(
    d: Seq<u8>,
    t: mp4::Track,
    first: Seq<int>,
    place: Seq<int>,
    before: mp4::Count,
    k: int,
    run: int,
    bad: int,
)
    requires
        d.len() <= u64::MAX,
        1 <= t.width <= 4,
        laid_out(t, first, place),
        0 <= k <= t.chunks.len(),
        0 <= run < t.runs.len(),
        t.runs[run].0 <= k + 1,
        first[k] <= bad <= t.sizes.len(),
        forall|x: int| 0 <= x < bad ==> #[trigger] sample_stands(d, t, place, x),
        bad < t.sizes.len() ==> 0 <= place[bad] && 0 <= t.sizes[bad] && place[bad] + t.sizes[bad]
            <= d.len() && !divides(d, place[bad], place[bad] + t.sizes[bad], t.width),
        before.samples >= 0,
        before.samples + t.sizes.len() < mp4::MAX_SAMPLES,
    ensures
        mp4::chunks_from(d, t, k, run, first[k], passed(t, place, first[k], before)) == (if bad
            < t.sizes.len() {
            Err(
                mp4::Samples::Spliced {
                    track: t.number,
                    sample: bad,
                    offset: place[bad],
                    sound: passed(t, place, bad, before).end,
                },
            )
        } else {
            Ok(passed(t, place, t.sizes.len() as int, before))
        }),
    decreases t.chunks.len() - k,
{
    if k < t.chunks.len() {
        assert(nth_chunk(t, first, place, k));
        a_run_lasts_until_the_next(t.runs, run, k + 1);
        let r = mp4::run_of(t.runs, run, k);
        assert(in_run(t.runs, r, k + 1));
        assert(first[k] + t.runs[r].1 == first[k + 1]);
        along_a_chunk(d, t, first, place, before, k, first[k], bad, t.chunks[k]);
        if bad >= first[k + 1] {
            along_a_track(d, t, first, place, before, k + 1, r, bad);
        }
    }
}

/// A track whose samples, each read where its chunk puts it, all divide into
/// NAL units is passed, and every sample of it is counted; and where one of
/// them, all there, does not, that one is named, and where it begins.
pub proof fn a_track_is_read_chunk_by_chunk(
    d: Seq<u8>,
    t: mp4::Track,
    first: Seq<int>,
    place: Seq<int>,
    before: mp4::Count,
    bad: int,
)
    requires
        d.len() <= u64::MAX,
        1 <= t.width <= 4,
        laid_out(t, first, place),
        0 <= bad <= t.sizes.len(),
        forall|x: int| 0 <= x < bad ==> #[trigger] sample_stands(d, t, place, x),
        bad < t.sizes.len() ==> 0 <= place[bad] && 0 <= t.sizes[bad] && place[bad] + t.sizes[bad]
            <= d.len() && !divides(d, place[bad], place[bad] + t.sizes[bad], t.width),
        before.samples >= 0,
        before.samples + t.sizes.len() < mp4::MAX_SAMPLES,
    ensures
        match mp4::chunks_from(d, t, 0, 0, 0, before) {
            Ok(c) => {
                &&& bad == t.sizes.len()
                &&& c.samples == before.samples + t.sizes.len()
                &&& t.sizes.len() > 0 ==> c.end == place.last() + t.sizes.last()
            },
            Err(e) => {
                &&& bad < t.sizes.len()
                &&& e matches mp4::Samples::Spliced { track, sample, offset, sound } && {
                    &&& track == t.number
                    &&& sample == bad
                    &&& offset == place[bad]
                    &&& bad > 0 ==> sound == place[bad - 1] + t.sizes[bad - 1]
                }
            },
        },
{
    assert(passed(t, place, 0, before) == before);
    along_a_track(d, t, first, place, before, 0, 0, bad);
}

// ---------------------------------------------------------------------------
// Boxes
// ---------------------------------------------------------------------------

/// Whether a box of `n` bytes, the first `head` of them its header, stands at
/// `i` in a container that ends at `end`: its size is in its first four bytes,
/// or behind the type in eight where they hold 1, or all that is left where
/// they hold 0.
pub open spec fn is_box(d: Seq<u8>, i: int, end: int, n: int, head: int) -> bool {
    &&& 0 <= i
    &&& i + 8 <= end
    &&& head <= n
    &&& i + n <= end
    &&& {
        ||| be32(d, i) >= 8 && n == be32(d, i) && head == 8
        ||| be32(d, i) == 1 && i + 16 <= d.len() && n == be64(d, i + 8) && head == 16
        ||| be32(d, i) == 0 && n == end - i && head == 8
    }
}

/// Whether `cuts` are where the boxes from `start` on begin, in a container
/// that ends at `end`, and where the last of them ends; `heads` are the sizes
/// of their headers.
pub open spec fn boxes(
    d: Seq<u8>,
    start: int,
    end: int,
    cuts: Seq<int>,
    heads: Seq<int>,
) -> bool {
    &&& cuts.len() == heads.len() + 1
    &&& cuts[0] == start
    &&& forall|j: int| 0 <= j < heads.len() ==> #[trigger] nth_box(d, end, cuts, heads, j)
}

/// Whether the `j`-th of these boxes is one.
pub open spec fn nth_box(d: Seq<u8>, end: int, cuts: Seq<int>, heads: Seq<int>, j: int) -> bool {
    is_box(d, cuts[j], end, cuts[j + 1] - cuts[j], heads[j])
}

/// The type of the box at `i`, its four letters as a number.
pub open spec fn kind(d: Seq<u8>, i: int) -> int {
    be32(d, i + 4)
}

/// Whether `inner` is the body of the first box of type `want` in the range
/// `outer`, the boxes before it being whole.
pub open spec fn first_box(d: Seq<u8>, outer: (int, int), want: int, inner: (int, int)) -> bool {
    exists|cuts: Seq<int>, heads: Seq<int>| #[trigger]
        boxes(d, outer.0, outer.1, cuts, heads) && leads_to(d, want, cuts, heads, inner)
}

/// Whether of these boxes the last, and no other, is of type `want`, and has
/// the body `inner`.
pub open spec fn leads_to(
    d: Seq<u8>,
    want: int,
    cuts: Seq<int>,
    heads: Seq<int>,
    inner: (int, int),
) -> bool {
    let n = heads.len() - 1;
    &&& n >= 0
    &&& kind(d, cuts[n]) == want
    &&& inner == (cuts[n] + heads[n], cuts[n + 1])
    &&& forall|j: int| 0 <= j < n ==> kind(d, #[trigger] cuts[j]) != want
}

/// The bodies of those boxes, from the `j`-th on, that are of type `want`.
pub open spec fn bodies(
    d: Seq<u8>,
    want: int,
    cuts: Seq<int>,
    heads: Seq<int>,
    j: int,
) -> Seq<(int, int)>
    decreases heads.len() - j,
{
    if j < 0 || j >= heads.len() {
        Seq::empty()
    } else {
        (if kind(d, cuts[j]) == want {
            seq![(cuts[j] + heads[j], cuts[j + 1])]
        } else {
            Seq::empty()
        }) + bodies(d, want, cuts, heads, j + 1)
    }
}

proof fn box_read(d: Seq<u8>, i: int, end: int, n: int, head: int)
    requires
        is_box(d, i, end, n, head),
        end <= d.len() <= u64::MAX,
    ensures
        mp4::box_size(d, i, end) == Some((n, head)),
        n > 0,
{
}

/// In a container that its boxes fill, the children of a type are the bodies of
/// the boxes of that type, in their order.
pub proof fn children_are_the_boxes(
    d: Seq<u8>,
    start: int,
    end: int,
    want: int,
    cuts: Seq<int>,
    heads: Seq<int>,
    j: int,
)
    requires
        end <= d.len() <= u64::MAX,
        boxes(d, start, end, cuts, heads),
        cuts.last() == end,
        0 <= j <= heads.len(),
    ensures
        mp4::children(d, cuts[j], end, want) == bodies(d, want, cuts, heads, j),
    decreases heads.len() - j,
{
    if j < heads.len() {
        assert(nth_box(d, end, cuts, heads, j));
        box_read(d, cuts[j], end, cuts[j + 1] - cuts[j], heads[j]);
        children_are_the_boxes(d, start, end, want, cuts, heads, j + 1);
    }
}

proof fn led_to(
    d: Seq<u8>,
    outer: (int, int),
    want: int,
    cuts: Seq<int>,
    heads: Seq<int>,
    inner: (int, int),
    j: int,
)
    requires
        outer.1 <= d.len() <= u64::MAX,
        boxes(d, outer.0, outer.1, cuts, heads),
        leads_to(d, want, cuts, heads, inner),
        0 <= j < heads.len(),
    ensures
        mp4::children(d, cuts[j], outer.1, want).len() > 0,
        mp4::children(d, cuts[j], outer.1, want)[0] == inner,
    decreases heads.len() - j,
{
    assert(nth_box(d, outer.1, cuts, heads, j));
    box_read(d, cuts[j], outer.1, cuts[j + 1] - cuts[j], heads[j]);
    let rest = mp4::children(d, cuts[j + 1], outer.1, want);
    if j < heads.len() - 1 {
        led_to(d, outer, want, cuts, heads, inner, j + 1);
        assert(Seq::<(int, int)>::empty() + rest =~= rest);
    } else {
        assert((seq![inner] + rest)[0] == inner);
    }
}

/// The first box of a type is the one that is found.
pub proof fn the_first_box_is_found(
    d: Seq<u8>,
    outer: (int, int),
    want: int,
    inner: (int, int),
)
    requires
        outer.1 <= d.len() <= u64::MAX,
        first_box(d, outer, want, inner),
    ensures
        mp4::child(d, Some(outer), want) == Some(inner),
        0 <= inner.0 <= inner.1 <= outer.1,
{
    let (cuts, heads) = choose|cuts: Seq<int>, heads: Seq<int>| #[trigger]
        boxes(d, outer.0, outer.1, cuts, heads) && leads_to(d, want, cuts, heads, inner);
    led_to(d, outer, want, cuts, heads, inner, 0);
    let n = heads.len() - 1;
    assert(nth_box(d, outer.1, cuts, heads, n));
}

// ---------------------------------------------------------------------------
// Tracks
// ---------------------------------------------------------------------------

/// Whether a table of `count` entries of `size` bytes, from `base` on, is all
/// there in a box that ends at `end`, and not too long to be looked at.
pub open spec fn table_fits(count: int, base: int, size: int, end: int) -> bool {
    count <= mp4::MAX_SAMPLES && base + count * size <= end
}

/// Whether the sizes are those of a sample size box with the body `b`: one for
/// all, or one for each.
pub open spec fn sizes_told(d: Seq<u8>, b: (int, int), sizes: Seq<int>) -> bool {
    &&& b.0 + 12 <= b.1
    &&& sizes.len() == be32(d, b.0 + 8)
    &&& sizes.len() <= mp4::MAX_SAMPLES
    &&& if be32(d, b.0 + 4) != 0 {
        forall|k: int| 0 <= k < sizes.len() ==> #[trigger] sizes[k] == be32(d, b.0 + 4)
    } else {
        &&& b.0 + 12 + sizes.len() * 4 <= b.1
        &&& forall|k: int| 0 <= k < sizes.len() ==> #[trigger] sizes[k] == be32(d, b.0 + 12 + 4 * k)
    }
}

/// Whether the chunks are those of a chunk offset box with the body `b`, of
/// four bytes each, or of eight.
pub open spec fn chunks_told(d: Seq<u8>, b: (int, int), wide: bool, chunks: Seq<int>) -> bool {
    &&& b.0 + 8 <= b.1
    &&& chunks.len() == be32(d, b.0 + 4)
    &&& chunks.len() <= mp4::MAX_SAMPLES
    &&& if wide {
        &&& b.0 + 8 + chunks.len() * 8 <= b.1
        &&& forall|k: int| 0 <= k < chunks.len() ==> #[trigger] chunks[k] == be64(d, b.0 + 8 + 8 * k)
    } else {
        &&& b.0 + 8 + chunks.len() * 4 <= b.1
        &&& forall|k: int| 0 <= k < chunks.len() ==> #[trigger] chunks[k] == be32(d, b.0 + 8 + 4 * k)
    }
}

/// Whether the runs are those of a sample to chunk box with the body `b`: the
/// first chunk, then the samples per chunk.
pub open spec fn runs_told(d: Seq<u8>, b: (int, int), runs: Seq<(int, int)>) -> bool {
    &&& b.0 + 8 <= b.1
    &&& runs.len() == be32(d, b.0 + 4)
    &&& 0 < runs.len() <= mp4::MAX_SAMPLES
    &&& b.0 + 8 + runs.len() * 12 <= b.1
    &&& forall|k: int|
        0 <= k < runs.len() ==> #[trigger] runs[k] == (
            be32(d, b.0 + 8 + 12 * k),
            be32(d, b.0 + 8 + 12 * k + 4),
        )
}

/// Whether the sample description box with the body `b` describes H.264 (`avc1`
/// or `avc3`), with length fields of `width` bytes: the two low bits of the
/// fifth byte of the configuration, which is named `avcC`, and one.
pub open spec fn width_told(d: Seq<u8>, b: (int, int), at: int, width: int) -> bool {
    let entry = b.0 + 8;
    let stop = entry + be32(d, entry);
    &&& entry + 8 <= b.1
    &&& stands(d, seq![97u8, 118, 99, 49], entry + 4) || stands(d, seq![97u8, 118, 99, 51], entry + 4)
    &&& stop <= b.1
    &&& entry <= at
    &&& at + 8 < stop
    &&& stands(d, seq![97u8, 118, 99, 67], at)
    &&& forall|j: int| entry <= j < at ==> !stands(d, seq![97u8, 118, 99, 67], j)
    &&& width == d[at + 8] % 4 + 1
}

proof fn letters_read(d: Seq<u8>, at: int)
    requires
        0 <= at,
        at + 4 <= d.len(),
    ensures
        stands(d, seq![97u8, 118, 99, 49], at) <==> be32(d, at) == 0x6176_6331,
        stands(d, seq![97u8, 118, 99, 51], at) <==> be32(d, at) == 0x6176_6333,
{
    let one = seq![97u8, 118, 99, 49];
    let three = seq![97u8, 118, 99, 51];
    if stands(d, one, at) {
        assert(d[at + 0] == one[0] && d[at + 1] == one[1] && d[at + 2] == one[2] && d[at + 3]
            == one[3]);
    }
    if stands(d, three, at) {
        assert(d[at + 0] == three[0] && d[at + 1] == three[1] && d[at + 2] == three[2] && d[at + 3]
            == three[3]);
    }
    if be32(d, at) == 0x6176_6331 {
        assert(d[at] == 97 && d[at + 1] == 118 && d[at + 2] == 99 && d[at + 3] == 49);
        assert forall|i: int| 0 <= i < one.len() implies d[at + i] == #[trigger] one[i] by {
            assert(i == 0 || i == 1 || i == 2 || i == 3);
        }
    }
    if be32(d, at) == 0x6176_6333 {
        assert(d[at] == 97 && d[at + 1] == 118 && d[at + 2] == 99 && d[at + 3] == 51);
        assert forall|i: int| 0 <= i < three.len() implies d[at + i] == #[trigger] three[i] by {
            assert(i == 0 || i == 1 || i == 2 || i == 3);
        }
    }
}

proof fn width_read(d: Seq<u8>, stbl: (int, int), b: (int, int), at: int, width: int)
    requires
        stbl.1 <= d.len() <= u64::MAX,
        first_box(d, stbl, 0x7374_7364, b),
        width_told(d, b, at, width),
    ensures
        mp4::nal_width(d, stbl) == Some(width),
{
    the_first_box_is_found(d, stbl, 0x7374_7364, b);
    let entry = b.0 + 8;
    let stop = entry + be32(d, entry);
    let mark = seq![97u8, 118, 99, 67];
    letters_read(d, entry + 4);
    assert(mp4::avcc() =~= mark);
    let window = d.subrange(entry, stop);
    super::found_first(d, mark, entry, stop, at);
    assert(window[at - entry + 8] == d[at + 8]);
}

proof fn room_read(count: int, base: int, size: int, end: int)
    requires
        0 <= count,
        size > 0,
        table_fits(count, base, size, end),
    ensures
        mp4::table_len(count, base, size, end) == count,
{
    assert((end - base) / size >= count) by (nonlinear_arith)
        requires
            count * size <= end - base,
            size > 0,
    ;
    assert(count * size >= 0) by (nonlinear_arith)
        requires
            count >= 0,
            size > 0,
    ;
}

/// An H.264 track whose boxes are in their places is read as its tables say.
pub proof fn a_track_is_what_its_tables_say(
    d: Seq<u8>,
    trak: (int, int),
    mdia: (int, int),
    minf: (int, int),
    stbl: (int, int),
    stsd: (int, int),
    stsz: (int, int),
    stco: (int, int),
    stsc: (int, int),
    avcc: int,
    wide: bool,
    t: mp4::Track,
)
    requires
        trak.1 <= d.len() <= u64::MAX,
        // mdia, minf and stbl, one in the other.
        first_box(d, trak, 0x6D64_6961, mdia),
        first_box(d, mdia, 0x6D69_6E66, minf),
        first_box(d, minf, 0x7374_626C, stbl),
        // stsd, stsz and stsc.
        first_box(d, stbl, 0x7374_7364, stsd),
        first_box(d, stbl, 0x7374_737A, stsz),
        first_box(d, stbl, 0x7374_7363, stsc),
        // co64, where there is no stco, or stco.
        if wide {
            first_box(d, stbl, 0x636F_3634, stco) && mp4::child(d, Some(stbl), 0x7374_636F) is None
        } else {
            first_box(d, stbl, 0x7374_636F, stco)
        },
        width_told(d, stsd, avcc, t.width),
        sizes_told(d, stsz, t.sizes),
        chunks_told(d, stco, wide, t.chunks),
        runs_told(d, stsc, t.runs),
    ensures
        mp4::track_at(d, trak, t.number) == Some(t),
{
    the_first_box_is_found(d, trak, 0x6D64_6961, mdia);
    the_first_box_is_found(d, mdia, 0x6D69_6E66, minf);
    the_first_box_is_found(d, minf, 0x7374_626C, stbl);
    the_first_box_is_found(d, stbl, 0x7374_737A, stsz);
    the_first_box_is_found(d, stbl, 0x7374_7363, stsc);
    width_read(d, stbl, stsd, avcc, t.width);
    assert(mp4::sample_sizes(d, stbl) == Some(t.sizes)) by {
        if be32(d, stsz.0 + 4) == 0 {
            room_read(t.sizes.len() as int, stsz.0 + 12, 4, stsz.1);
        }
        assert(mp4::sample_sizes(d, stbl)->0 =~= t.sizes);
    }
    assert(mp4::chunk_offsets(d, stbl) == Some(t.chunks)) by {
        if wide {
            the_first_box_is_found(d, stbl, 0x636F_3634, stco);
            room_read(t.chunks.len() as int, stco.0 + 8, 8, stco.1);
        } else {
            the_first_box_is_found(d, stbl, 0x7374_636F, stco);
            room_read(t.chunks.len() as int, stco.0 + 8, 4, stco.1);
        }
        assert(mp4::chunk_offsets(d, stbl)->0 =~= t.chunks);
    }
    assert(mp4::chunk_runs(d, stbl) == Some(t.runs)) by {
        room_read(t.runs.len() as int, stsc.0 + 8, 12, stsc.1);
        assert(mp4::chunk_runs(d, stbl)->0 =~= t.runs);
    }
}

/// A track that is not H.264 is not looked into.
pub proof fn other_tracks_are_not_looked_into(
    d: Seq<u8>,
    trak: (int, int),
    mdia: (int, int),
    minf: (int, int),
    stbl: (int, int),
    stsd: (int, int),
    number: int,
)
    requires
        trak.1 <= d.len() <= u64::MAX,
        first_box(d, trak, 0x6D64_6961, mdia),
        first_box(d, mdia, 0x6D69_6E66, minf),
        first_box(d, minf, 0x7374_626C, stbl),
        first_box(d, stbl, 0x7374_7364, stsd),
        stsd.0 + 16 <= d.len(),
        !stands(d, seq![97u8, 118, 99, 49], stsd.0 + 12),
        !stands(d, seq![97u8, 118, 99, 51], stsd.0 + 12),
    ensures
        mp4::track_at(d, trak, number) is None,
{
    the_first_box_is_found(d, trak, 0x6D64_6961, mdia);
    the_first_box_is_found(d, mdia, 0x6D69_6E66, minf);
    the_first_box_is_found(d, minf, 0x7374_626C, stbl);
    the_first_box_is_found(d, stbl, 0x7374_7364, stsd);
    letters_read(d, stsd.0 + 12);
}

// ---------------------------------------------------------------------------
// The file
// ---------------------------------------------------------------------------

/// Whether four bytes are printable characters.
pub open spec fn is_printed(d: Seq<u8>, at: int) -> bool {
    &&& 32 <= d[at] <= 126
    &&& 32 <= d[at + 1] <= 126
    &&& 32 <= d[at + 2] <= 126
    &&& 32 <= d[at + 3] <= 126
}

/// Whether a file type box, of no more than 1024 bytes, begins the data.
pub open spec fn typed(d: Seq<u8>) -> bool {
    &&& 16 <= d.len()
    &&& 8 <= be32(d, 0) <= 1024
    &&& stands(d, seq![102u8, 116, 121, 112], 4)
    &&& is_printed(d, 8)
}

/// Whether the file's boxes end at `at`: with the data, or where no box is.
pub open spec fn boxes_end(d: Seq<u8>, at: int) -> bool {
    ||| at == d.len()
    ||| at + 8 <= d.len() && !is_printed(d, at + 4)
    ||| at + 8 <= d.len() && 2 <= be32(d, at) < 8
    ||| at + 16 <= d.len() && be32(d, at) == 1 && be64(d, at + 8) < 16
}

/// Whether every track of an index with these tracks is either not looked into
/// or stands, and `counts` is how many samples were passed before each.
pub open spec fn tracks_stand(d: Seq<u8>, traks: Seq<(int, int)>, counts: Seq<int>) -> bool {
    &&& counts.len() == traks.len() + 1
    &&& counts[0] == 0
    &&& counts.last() < mp4::MAX_SAMPLES
    &&& forall|i: int| 0 <= i < traks.len() ==> #[trigger] nth_stands(d, traks, counts, i)
}

/// Whether the `i`-th track is not looked into, or stands and is counted.
pub open spec fn nth_stands(d: Seq<u8>, traks: Seq<(int, int)>, counts: Seq<int>, i: int) -> bool {
    match mp4::track_at(d, traks[i], i + 1) {
        None => counts[i + 1] == counts[i],
        Some(t) => track_stands(d, t) && counts[i + 1] == counts[i] + t.sizes.len(),
    }
}

/// Whether every sample of a track stands where its chunk puts it.
pub open spec fn track_stands(d: Seq<u8>, t: mp4::Track) -> bool {
    &&& 1 <= t.width <= 4
    &&& exists|first: Seq<int>, place: Seq<int>| #[trigger]
        laid_out(t, first, place) && forall|s: int|
            0 <= s < t.sizes.len() ==> #[trigger] sample_stands(d, t, place, s)
}

/// Whether one of the first `n` tracks is looked into.
pub open spec fn looks_into(d: Seq<u8>, traks: Seq<(int, int)>, n: int) -> bool {
    exists|j: int| 0 <= j < n && #[trigger] mp4::track_at(d, traks[j], j + 1) is Some
}

proof fn counts_grow(d: Seq<u8>, traks: Seq<(int, int)>, counts: Seq<int>, i: int, j: int)
    requires
        tracks_stand(d, traks, counts),
        0 <= i <= j <= traks.len(),
    ensures
        counts[i] <= counts[j],
    decreases j - i,
{
    if i < j {
        counts_grow(d, traks, counts, i, j - 1);
        assert(nth_stands(d, traks, counts, j - 1));
    }
}

proof fn along_the_tracks(
    d: Seq<u8>,
    traks: Seq<(int, int)>,
    counts: Seq<int>,
    i: int,
    any: bool,
    end: int,
)
    requires
        d.len() <= u64::MAX,
        tracks_stand(d, traks, counts),
        0 <= i <= traks.len(),
        any == looks_into(d, traks, i),
    ensures
        mp4::tracks_from(d, traks, i, any, mp4::Count { samples: counts[i], end }) == (if looks_into(
            d,
            traks,
            traks.len() as int,
        ) {
            mp4::Samples::Checked { samples: counts.last() }
        } else {
            mp4::Samples::NotApplicable
        }),
    decreases traks.len() - i,
{
    if i < traks.len() {
        counts_grow(d, traks, counts, 0, i);
        counts_grow(d, traks, counts, i + 1, traks.len() as int);
        assert(nth_stands(d, traks, counts, i));
        let before = mp4::Count { samples: counts[i], end };
        match mp4::track_at(d, traks[i], i + 1) {
            None => {
                along_the_tracks(d, traks, counts, i + 1, any, end);
            },
            Some(t) => {
                let (first, place) = choose|first: Seq<int>, place: Seq<int>| #[trigger]
                    laid_out(t, first, place) && forall|s: int|
                        0 <= s < t.sizes.len() ==> #[trigger] sample_stands(d, t, place, s);
                a_track_is_read_chunk_by_chunk(
                    d,
                    t,
                    first,
                    place,
                    before,
                    t.sizes.len() as int,
                );
                let c = mp4::chunks_from(d, t, 0, 0, 0, before)->Ok_0;
                assert(c == mp4::Count { samples: counts[i + 1], end: c.end });
                along_the_tracks(d, traks, counts, i + 1, true, c.end);
            },
        }
    }
}

/// How the walk over the top-level boxes has come along after `j` of them.
pub open spec fn walked(
    d: Seq<u8>,
    cuts: Seq<int>,
    heads: Seq<int>,
    s: mp4::Progress,
    j: int,
) -> bool {
    &&& s.at == cuts[j]
    &&& s.boxes == j
    &&& s.cut is None
    &&& s.saw_moov <==> exists|i: int| 0 <= i < j && kind(d, #[trigger] cuts[i]) == 0x6D6F_6F76
    &&& s.saw_mdat <==> exists|i: int| 0 <= i < j && kind(d, #[trigger] cuts[i]) == 0x6D64_6174
    &&& match s.moov {
        None => forall|i: int| 0 <= i < j ==> kind(d, #[trigger] cuts[i]) != 0x6D6F_6F76,
        Some(b) => exists|i: int|
            {
                &&& 0 <= i < j
                &&& kind(d, #[trigger] cuts[i]) == 0x6D6F_6F76
                &&& b == (cuts[i] + heads[i], cuts[i + 1])
                &&& forall|l: int| i < l < j ==> kind(d, #[trigger] cuts[l]) != 0x6D6F_6F76
            },
    }
}

proof fn along_the_boxes(
    d: Seq<u8>,
    cuts: Seq<int>,
    heads: Seq<int>,
    s: mp4::Progress,
    j: int,
)
    requires
        d.len() <= u64::MAX,
        boxes(d, 0, d.len() as int, cuts, heads),
        boxes_end(d, cuts.last()),
        0 <= cuts.last() <= d.len(),
        forall|i: int| 0 <= i < heads.len() ==> is_printed(d, #[trigger] cuts[i] + 4),
        0 <= j <= heads.len(),
        walked(d, cuts, heads, s, j),
    ensures
        walked(d, cuts, heads, mp4::boxes_from(d, s), heads.len() as int),
    decreases heads.len() - j,
{
    if j < heads.len() {
        let n = cuts[j + 1] - cuts[j];
        assert(nth_box(d, d.len() as int, cuts, heads, j));
        box_read(d, cuts[j], d.len() as int, n, heads[j]);
        assert(is_printed(d, cuts[j] + 4));
        assert(mp4::printable(d, s.at + 4));
        let s1 = mp4::Progress { at: s.at + n, ..mp4::counted(d, s, n, heads[j]) };
        let ty = kind(d, cuts[j]);
        assert(s1.saw_moov == (s.saw_moov || ty == 0x6D6F_6F76));
        assert(s1.saw_mdat == (s.saw_mdat || ty == 0x6D64_6174));
        if ty == 0x6D6F_6F76 {
            assert(s1.moov == Some((cuts[j] + heads[j], cuts[j + 1])));
        } else {
            assert(s1.moov == s.moov);
            if let Some(b) = s.moov {
                let i = choose|i: int|
                    {
                        &&& 0 <= i < j
                        &&& kind(d, #[trigger] cuts[i]) == 0x6D6F_6F76
                        &&& b == (cuts[i] + heads[i], cuts[i + 1])
                        &&& forall|l: int| i < l < j ==> kind(d, #[trigger] cuts[l]) != 0x6D6F_6F76
                    };
                assert(0 <= i < j + 1 && kind(d, cuts[i]) == 0x6D6F_6F76);
            }
        }
        assert(walked(d, cuts, heads, s1, j + 1));
        along_the_boxes(d, cuts, heads, s1, j + 1);
    } else if s.at < d.len() && !is_printed(d, s.at + 4) {
        assert(!(0x20 <= d[s.at + 4] <= 0x7E) || !(0x20 <= d[s.at + 5] <= 0x7E) || !(0x20 <= d[s.at
            + 6] <= 0x7E) || !(0x20 <= d[s.at + 7] <= 0x7E));
        assert(!mp4::printable(d, s.at + 4));
    }
}

/// A file that begins with its type, goes on in whole boxes, has both an index
/// and media among them, and whose H.264 samples all stand where its last index
/// puts them, is complete. Its length is where its boxes end.
pub proof fn a_media_file_in_order_is_complete(
    d: Seq<u8>,
    cuts: Seq<int>,
    heads: Seq<int>,
    index: int,
    media: int,
    inner: Seq<int>,
    inner_heads: Seq<int>,
    counts: Seq<int>,
)
    requires
        d.len() <= u64::MAX,
        typed(d),
        // The boxes of the file.
        boxes(d, 0, d.len() as int, cuts, heads),
        boxes_end(d, cuts.last()),
        forall|i: int| 0 <= i < heads.len() ==> is_printed(d, #[trigger] cuts[i] + 4),
        // The last moov, and an mdat.
        0 <= index < heads.len(),
        kind(d, cuts[index]) == 0x6D6F_6F76,
        forall|i: int| index < i < heads.len() ==> kind(d, #[trigger] cuts[i]) != 0x6D6F_6F76,
        0 <= media < heads.len(),
        kind(d, cuts[media]) == 0x6D64_6174,
        // The boxes of that moov, and its tracks.
        boxes(d, cuts[index] + heads[index], cuts[index + 1], inner, inner_heads),
        inner.last() == cuts[index + 1],
        tracks_stand(d, bodies(d, 0x7472_616B, inner, inner_heads, 0), counts),
    ensures
        ({
            let v = mp4::verdict(d);
            let traks = bodies(d, 0x7472_616B, inner, inner_heads, 0);
            &&& v.status == Status::Valid
            &&& v.length == cuts.last()
            &&& v.refined_ext is None
            &&& looks_into(d, traks, traks.len() as int) ==> v.evidence.contains(("avc_samples_checked"@, text::dec(counts.last())))
            &&& v.evidence.contains(("major_brand"@, text::ascii(d.subrange(8, 12))))
            &&& v.evidence.contains(("top_level_boxes"@, text::dec(heads.len() as int)))
        }),
{
    let mark = seq![102u8, 116, 121, 112];
    assert(d[4int + 0] == mark[0] && d[4int + 1] == mark[1] && d[4int + 2] == mark[2] && d[4int + 3]
        == mark[3]);
    assert(mp4::printable(d, 8));
    let last = heads.len() - 1;
    assert(nth_box(d, d.len() as int, cuts, heads, last));
    assert(nth_box(d, d.len() as int, cuts, heads, index));
    assert(walked(d, cuts, heads, mp4::start(), 0));
    along_the_boxes(d, cuts, heads, mp4::start(), 0);
    let s = mp4::boxes_from(d, mp4::start());
    let n = heads.len() as int;
    assert(kind(d, cuts[index]) == 0x6D6F_6F76 && kind(d, cuts[media]) == 0x6D64_6174);
    assert(s.saw_moov && s.saw_mdat);
    assert(s.moov is Some);
    let b = s.moov->0;
    let at = choose|i: int|
        {
            &&& 0 <= i < n
            &&& kind(d, #[trigger] cuts[i]) == 0x6D6F_6F76
            &&& b == (cuts[i] + heads[i], cuts[i + 1])
            &&& forall|l: int| i < l < n ==> kind(d, #[trigger] cuts[l]) != 0x6D6F_6F76
        };
    assert(at == index);
    children_are_the_boxes(d, b.0, b.1, 0x7472_616B, inner, inner_heads, 0);
    let traks = bodies(d, 0x7472_616B, inner, inner_heads, 0);
    along_the_tracks(d, traks, counts, 0, false, bytes::u32_be(d, 0));
    let v = mp4::verdict(d);
    assert(n >= 2);
    let base = v.evidence.len() - 5;
    assert(v.evidence[base] == ("major_brand"@, text::ascii(d.subrange(8, 12))));
    assert(v.evidence[base + 1] == ("top_level_boxes"@, text::dec(n)));
    if looks_into(d, traks, traks.len() as int) {
        assert(v.evidence[0] == ("avc_samples_checked"@, text::dec(counts.last())));
    }
}

// ---------------------------------------------------------------------------
// Where it breaks off
// ---------------------------------------------------------------------------

proof fn past_the_boxes(
    d: Seq<u8>,
    cuts: Seq<int>,
    heads: Seq<int>,
    s: mp4::Progress,
    j: int,
) -> (e: mp4::Progress)
    requires
        d.len() <= u64::MAX,
        boxes(d, 0, d.len() as int, cuts, heads),
        forall|i: int| 0 <= i < heads.len() ==> is_printed(d, #[trigger] cuts[i] + 4),
        0 <= j <= heads.len(),
        walked(d, cuts, heads, s, j),
    ensures
        walked(d, cuts, heads, e, heads.len() as int),
        mp4::boxes_from(d, s) == mp4::boxes_from(d, e),
    decreases heads.len() - j,
{
    if j < heads.len() {
        let n = cuts[j + 1] - cuts[j];
        assert(nth_box(d, d.len() as int, cuts, heads, j));
        box_read(d, cuts[j], d.len() as int, n, heads[j]);
        assert(is_printed(d, cuts[j] + 4));
        assert(mp4::printable(d, s.at + 4));
        let s1 = mp4::Progress { at: s.at + n, ..mp4::counted(d, s, n, heads[j]) };
        let ty = kind(d, cuts[j]);
        if ty == 0x6D6F_6F76 {
            assert(s1.moov == Some((cuts[j] + heads[j], cuts[j + 1])));
        } else {
            assert(s1.moov == s.moov);
            if let Some(b) = s.moov {
                let i = choose|i: int|
                    {
                        &&& 0 <= i < j
                        &&& kind(d, #[trigger] cuts[i]) == 0x6D6F_6F76
                        &&& b == (cuts[i] + heads[i], cuts[i + 1])
                        &&& forall|l: int| i < l < j ==> kind(d, #[trigger] cuts[l]) != 0x6D6F_6F76
                    };
                assert(0 <= i < j + 1 && kind(d, cuts[i]) == 0x6D6F_6F76);
            }
        }
        assert(walked(d, cuts, heads, s1, j + 1));
        past_the_boxes(d, cuts, heads, s1, j + 1)
    } else {
        s
    }
}

/// Whether the data ends in the box at `at`: in its header, or before the end
/// that its header gives.
pub open spec fn box_runs_out(d: Seq<u8>, at: int) -> bool {
    &&& 0 <= at < d.len()
    &&& {
        ||| at + 8 > d.len()
        ||| is_printed(d, at + 4) && {
            ||| be32(d, at) >= 8 && d.len() < at + be32(d, at) <= u64::MAX
            ||| be32(d, at) == 1 && at + 16 > d.len()
            ||| be32(d, at) == 1 && at + 16 <= d.len() && be64(d, at + 8) >= 16 && d.len() < at
                + be64(d, at + 8) <= u64::MAX
        }
    }
}

/// A media file whose boxes break off with the data keeps its whole boxes, and
/// that the data ended is said. With nothing but its type it is none.
pub proof fn a_media_file_cut_short_keeps_its_whole_boxes(
    d: Seq<u8>,
    cuts: Seq<int>,
    heads: Seq<int>,
)
    requires
        d.len() <= u64::MAX,
        typed(d),
        boxes(d, 0, d.len() as int, cuts, heads),
        heads.len() > 0,
        forall|i: int| 0 <= i < heads.len() ==> is_printed(d, #[trigger] cuts[i] + 4),
        box_runs_out(d, cuts.last()),
    ensures
        ({
            let v = mp4::verdict(d);
            let at = cuts.last();
            let begun = at + 8 <= d.len() && !(be32(d, at) == 1 && at + 16 > d.len());
            &&& v.ran_out
            &&& heads.len() >= 2 || begun ==> v.status == Status::Partial && v.length == at
            &&& heads.len() == 1 && !begun ==> v.status == Status::Rejected
        }),
{
    typed_read(d);
    assert(walked(d, cuts, heads, mp4::start(), 0));
    let e = past_the_boxes(d, cuts, heads, mp4::start(), 0);
    let last = heads.len() - 1;
    assert(nth_box(d, d.len() as int, cuts, heads, last));
    cut_read(d, e);
}

proof fn typed_read(d: Seq<u8>)
    requires
        typed(d),
    ensures
        mp4::verdict(d) == mp4::concluded(d, mp4::boxes_from(d, mp4::start())),
{
    let mark = seq![102u8, 116, 121, 112];
    assert(d[4int + 0] == mark[0] && d[4int + 1] == mark[1] && d[4int + 2] == mark[2] && d[4int + 3]
        == mark[3]);
    assert(mp4::printable(d, 8));
}

proof fn cut_read(d: Seq<u8>, s: mp4::Progress)
    requires
        d.len() <= u64::MAX,
        s.at > 0,
        s.boxes >= 1,
        box_runs_out(d, s.at),
    ensures
        ({
            let v = mp4::concluded(d, mp4::boxes_from(d, s));
            let at = s.at;
            let begun = at + 8 <= d.len() && !(be32(d, at) == 1 && at + 16 > d.len());
            &&& v.ran_out
            &&& s.boxes >= 2 || begun ==> v.status == Status::Partial && v.length == at
            &&& s.boxes == 1 && !begun ==> v.status == Status::Rejected
        }),
{
    if s.at + 8 <= d.len() {
        assert(mp4::printable(d, s.at + 4));
    }
}

/// A media file whose whole boxes hold no index, or no media, is not complete:
/// it keeps its boxes. Where they end with the data, more may have followed.
pub proof fn a_media_file_needs_an_index_and_media(d: Seq<u8>, cuts: Seq<int>, heads: Seq<int>)
    requires
        d.len() <= u64::MAX,
        typed(d),
        boxes(d, 0, d.len() as int, cuts, heads),
        boxes_end(d, cuts.last()),
        heads.len() >= 2,
        forall|i: int| 0 <= i < heads.len() ==> is_printed(d, #[trigger] cuts[i] + 4),
        (forall|i: int| 0 <= i < heads.len() ==> kind(d, #[trigger] cuts[i]) != 0x6D6F_6F76) || (
        forall|i: int| 0 <= i < heads.len() ==> kind(d, #[trigger] cuts[i]) != 0x6D64_6174),
    ensures
        ({
            let v = mp4::verdict(d);
            &&& v.status == Status::Partial
            &&& v.length == cuts.last()
            &&& v.ran_out == (cuts.last() == d.len())
        }),
{
    let mark = seq![102u8, 116, 121, 112];
    assert(d[4int + 0] == mark[0] && d[4int + 1] == mark[1] && d[4int + 2] == mark[2] && d[4int + 3]
        == mark[3]);
    assert(mp4::printable(d, 8));
    assert(walked(d, cuts, heads, mp4::start(), 0));
    let last = heads.len() - 1;
    assert(nth_box(d, d.len() as int, cuts, heads, last));
    along_the_boxes(d, cuts, heads, mp4::start(), 0);
}

proof fn to_a_bad_track(
    d: Seq<u8>,
    traks: Seq<(int, int)>,
    counts: Seq<int>,
    i: int,
    any: bool,
    end: int,
    t: mp4::Track,
    first: Seq<int>,
    place: Seq<int>,
    bad: int,
)
    requires
        d.len() <= u64::MAX,
        0 < counts.len() <= traks.len(),
        counts[0] == 0,
        forall|k: int| 0 <= k < counts.len() - 1 ==> #[trigger] nth_stands(d, traks, counts, k),
        0 <= i < counts.len(),
        counts[i] >= 0,
        mp4::track_at(d, traks[counts.len() - 1], counts.len() as int) == Some(t),
        counts.last() + t.sizes.len() < mp4::MAX_SAMPLES,
        1 <= t.width <= 4,
        laid_out(t, first, place),
        0 <= bad < t.sizes.len(),
        forall|x: int| 0 <= x < bad ==> #[trigger] sample_stands(d, t, place, x),
        0 <= place[bad] && 0 <= t.sizes[bad] && place[bad] + t.sizes[bad] <= d.len(),
        !divides(d, place[bad], place[bad] + t.sizes[bad], t.width),
    ensures
        mp4::tracks_from(d, traks, i, any, mp4::Count { samples: counts[i], end }) matches
            mp4::Samples::Spliced { track, sample, offset, sound } && track == t.number && sample
            == bad && offset == place[bad],
    decreases counts.len() - i,
{
    let before = mp4::Count { samples: counts[i], end };
    if i < counts.len() - 1 {
        counts_rise(d, traks, counts, i + 1, counts.len() - 1);
        assert(nth_stands(d, traks, counts, i));
        match mp4::track_at(d, traks[i], i + 1) {
            None => {
                to_a_bad_track(d, traks, counts, i + 1, any, end, t, first, place, bad);
            },
            Some(u) => {
                let (f, p) = choose|f: Seq<int>, p: Seq<int>| #[trigger]
                    laid_out(u, f, p) && forall|s: int|
                        0 <= s < u.sizes.len() ==> #[trigger] sample_stands(d, u, p, s);
                a_track_is_read_chunk_by_chunk(d, u, f, p, before, u.sizes.len() as int);
                let c = mp4::chunks_from(d, u, 0, 0, 0, before)->Ok_0;
                assert(c == mp4::Count { samples: counts[i + 1], end: c.end });
                to_a_bad_track(d, traks, counts, i + 1, true, c.end, t, first, place, bad);
            },
        }
    } else {
        a_track_is_read_chunk_by_chunk(d, t, first, place, before, bad);
    }
}

proof fn counts_rise(d: Seq<u8>, traks: Seq<(int, int)>, counts: Seq<int>, i: int, j: int)
    requires
        forall|k: int| 0 <= k < counts.len() - 1 ==> #[trigger] nth_stands(d, traks, counts, k),
        0 <= i <= j < counts.len(),
    ensures
        counts[i] <= counts[j],
    decreases j - i,
{
    if i < j {
        counts_rise(d, traks, counts, i, j - 1);
        assert(nth_stands(d, traks, counts, j - 1));
    }
}

/// A file whose boxes add up, but in which a sample of an H.264 track does not
/// divide into NAL units, is damaged from that sample on.
pub proof fn a_bad_sample_damages_the_file(
    d: Seq<u8>,
    cuts: Seq<int>,
    heads: Seq<int>,
    index: int,
    media: int,
    inner: Seq<int>,
    inner_heads: Seq<int>,
    counts: Seq<int>,
    t: mp4::Track,
    first: Seq<int>,
    place: Seq<int>,
    bad: int,
)
    requires
        d.len() <= u64::MAX,
        typed(d),
        // The boxes of the file.
        boxes(d, 0, d.len() as int, cuts, heads),
        boxes_end(d, cuts.last()),
        forall|i: int| 0 <= i < heads.len() ==> is_printed(d, #[trigger] cuts[i] + 4),
        // The last moov, and an mdat.
        0 <= index < heads.len(),
        kind(d, cuts[index]) == 0x6D6F_6F76,
        forall|i: int| index < i < heads.len() ==> kind(d, #[trigger] cuts[i]) != 0x6D6F_6F76,
        0 <= media < heads.len(),
        kind(d, cuts[media]) == 0x6D64_6174,
        // The boxes of that moov, and its tracks.
        boxes(d, cuts[index] + heads[index], cuts[index + 1], inner, inner_heads),
        inner.last() == cuts[index + 1],
        // The tracks before the bad one stand.
        0 < counts.len() <= bodies(d, 0x7472_616B, inner, inner_heads, 0).len(),
        counts[0] == 0,
        forall|k: int|
            0 <= k < counts.len() - 1 ==> #[trigger] nth_stands(
                d,
                bodies(d, 0x7472_616B, inner, inner_heads, 0),
                counts,
                k,
            ),
        // And so do its samples before the bad one.
        mp4::track_at(
            d,
            bodies(d, 0x7472_616B, inner, inner_heads, 0)[counts.len() - 1],
            counts.len() as int,
        ) == Some(t),
        counts.last() + t.sizes.len() < mp4::MAX_SAMPLES,
        1 <= t.width <= 4,
        laid_out(t, first, place),
        0 <= bad < t.sizes.len(),
        forall|x: int| 0 <= x < bad ==> #[trigger] sample_stands(d, t, place, x),
        0 <= place[bad] && 0 <= t.sizes[bad] && place[bad] + t.sizes[bad] <= d.len(),
        !divides(d, place[bad], place[bad] + t.sizes[bad], t.width),
    ensures
        ({
            let v = mp4::verdict(d);
            &&& v.status == Status::Partial
            &&& v.length == place[bad]
            &&& !v.ran_out
            &&& v.evidence.contains(("bad_sample"@, text::dec(bad)))
        }),
{
    index_read(d, cuts, heads, index, media);
    let s = mp4::boxes_from(d, mp4::start());
    let b = (cuts[index] + heads[index], cuts[index + 1]);
    bounds_read(d, cuts, heads, index);
    children_are_the_boxes(d, b.0, b.1, 0x7472_616B, inner, inner_heads, 0);
    let traks = bodies(d, 0x7472_616B, inner, inner_heads, 0);
    to_a_bad_track(
        d,
        traks,
        counts,
        0,
        false,
        bytes::u32_be(d, 0),
        t,
        first,
        place,
        bad,
    );
    splice_concluded(d, s, b, bad, place[bad]);
}

proof fn bounds_read(d: Seq<u8>, cuts: Seq<int>, heads: Seq<int>, j: int)
    requires
        boxes(d, 0, d.len() as int, cuts, heads),
        0 <= j < heads.len(),
    ensures
        0 <= cuts[j],
        cuts[j] + heads[j] <= cuts[j + 1] <= d.len(),
        heads[j] >= 8,
{
    assert(nth_box(d, d.len() as int, cuts, heads, j));
}

proof fn splice_concluded(d: Seq<u8>, s: mp4::Progress, b: (int, int), bad: int, offset: int)
    requires
        s.boxes >= 2,
        s.cut is None,
        s.saw_moov,
        s.saw_mdat,
        s.moov == Some(b),
        offset <= d.len(),
        mp4::samples_of(d, b) matches mp4::Samples::Spliced {
            track,
            sample,
            offset: o,
            sound,
        } && sample == bad && o == offset,
    ensures
        ({
            let v = mp4::concluded(d, s);
            &&& v.status == Status::Partial
            &&& v.length == offset
            &&& !v.ran_out
            &&& v.evidence.contains(("bad_sample"@, text::dec(bad)))
        }),
{
    let v = mp4::concluded(d, s);
    assert(v.evidence[1] == ("bad_sample"@, text::dec(bad)));
}

proof fn index_read(d: Seq<u8>, cuts: Seq<int>, heads: Seq<int>, index: int, media: int)
    requires
        d.len() <= u64::MAX,
        typed(d),
        boxes(d, 0, d.len() as int, cuts, heads),
        boxes_end(d, cuts.last()),
        forall|i: int| 0 <= i < heads.len() ==> is_printed(d, #[trigger] cuts[i] + 4),
        0 <= index < heads.len(),
        kind(d, cuts[index]) == 0x6D6F_6F76,
        forall|i: int| index < i < heads.len() ==> kind(d, #[trigger] cuts[i]) != 0x6D6F_6F76,
        0 <= media < heads.len(),
        kind(d, cuts[media]) == 0x6D64_6174,
    ensures
        ({
            let s = mp4::boxes_from(d, mp4::start());
            &&& mp4::verdict(d) == mp4::concluded(d, s)
            &&& s.boxes >= 2
            &&& s.cut is None
            &&& s.saw_moov
            &&& s.saw_mdat
            &&& s.moov == Some((cuts[index] + heads[index], cuts[index + 1]))
        }),
{
    typed_read(d);
    let last = heads.len() - 1;
    bounds_read(d, cuts, heads, last);
    assert(walked(d, cuts, heads, mp4::start(), 0));
    along_the_boxes(d, cuts, heads, mp4::start(), 0);
    let s = mp4::boxes_from(d, mp4::start());
    let n = heads.len() as int;
    assert(kind(d, cuts[index]) == 0x6D6F_6F76 && kind(d, cuts[media]) == 0x6D64_6174);
    assert(s.saw_moov && s.saw_mdat);
    assert(s.moov is Some);
    let b = s.moov->0;
    let at = choose|i: int|
        {
            &&& 0 <= i < n
            &&& kind(d, #[trigger] cuts[i]) == 0x6D6F_6F76
            &&& b == (cuts[i] + heads[i], cuts[i + 1])
            &&& forall|l: int| i < l < n ==> kind(d, #[trigger] cuts[l]) != 0x6D6F_6F76
        };
    assert(at == index);
}

/// What has no file type of a plausible size in front is no media file.
pub proof fn only_a_media_file_is_carved(d: Seq<u8>)
    requires
        !typed(d),
    ensures
        mp4::verdict(d).status == Status::Rejected,
{
    let mark = seq![102u8, 116, 121, 112];
    if mp4::verdict(d).status != Status::Rejected {
        assert(stands(d, mark, 4));
        assert(is_printed(d, 8));
    }
}

} // verus!
