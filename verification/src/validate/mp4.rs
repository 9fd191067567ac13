//! MP4, MOV and HEIF: a bounded `ftyp`, then a box walk.
//!
//! ISO base media files are a tree of boxes, each declaring its own size. A
//! single bad size field sends a walk into the middle of a payload, so two
//! constraints keep it honest: `ftyp` is tens of bytes, and a real file has
//! both `moov`, the index, and `mdat`, the media.
//!
//! A box tree whose headers add up is not yet a file whose media is intact.
//! For H.264 the media itself is checked too: every sample must divide exactly
//! into length-prefixed NAL units.

use vstd::prelude::*;
use vstd::slice::*;
use crate::bytes;
use crate::search;
use crate::text;
use super::{Outcome, Verdict};

verus! {

broadcast use bytes::slice_fits;

/// The most samples, chunks or runs that are looked at.
pub const MAX_SAMPLES: u64 = 2_000_000;

// ---------------------------------------------------------------------------
// Boxes
// ---------------------------------------------------------------------------

/// The size and the header size of the box at `i`, where the container ends at
/// `end`; `None` where the header is cut short. A size of 1 means that a 64-bit
/// size follows, and a size of 0 that the box runs to the end.
pub open spec fn box_size(d: Seq<u8>, i: int, end: int) -> Option<(int, int)> {
    let size = bytes::u32_be(d, i);
    if size == 1 {
        if bytes::fits(d, i + 8, 8) {
            Some((bytes::u64_be(d, i + 8), 16int))
        } else {
            None
        }
    } else if size == 0 {
        Some((end - i, 8int))
    } else {
        Some((size, 8int))
    }
}

/// The child boxes of type `want` in `[i, end)`, each as the range of its body.
pub open spec fn children(d: Seq<u8>, i: int, end: int, want: int) -> Seq<(int, int)>
    decreases end - i,
{
    if i < 0 || i + 8 > end {
        Seq::empty()
    } else {
        match box_size(d, i, end) {
            None => Seq::empty(),
            Some((size, header)) => if size < header || i + size > u64::MAX {
                Seq::empty()
            } else {
                let stop = if i + size <= end {
                    i + size
                } else {
                    end
                };
                (if bytes::u32_be(d, i + 4) == want {
                    seq![(i + header, stop)]
                } else {
                    Seq::empty()
                }) + children(d, stop, end, want)
            },
        }
    }
}

/// The first child of type `want`.
pub open spec fn child(d: Seq<u8>, range: Option<(int, int)>, want: int) -> Option<(int, int)> {
    match range {
        None => None,
        Some((start, end)) => {
            let all = children(d, start, end, want);
            if all.len() > 0 {
                Some(all[0])
            } else {
                None
            }
        },
    }
}

// ---------------------------------------------------------------------------
// H.264 samples
// ---------------------------------------------------------------------------

/// `n` bytes at `p`, as a big-endian number.
pub open spec fn length_field(s: Seq<u8>, p: int, n: int) -> int
    decreases n,
{
    if n <= 0 {
        0
    } else {
        length_field(s, p, n - 1) * 256 + s[p + n - 1]
    }
}

/// Whether the sample from `p` on divides exactly into NAL units, each with a
/// length of `width` bytes before it and the top bit of its header clear.
pub open spec fn tiles_from(s: Seq<u8>, p: int, width: int) -> bool
    decreases s.len() - p,
{
    let len = length_field(s, p, width);
    let next = p + width + len;
    if p >= s.len() {
        true
    } else if p < 0 || width <= 0 || p + width >= s.len() || len <= 0 || s[p + width] >= 0x80 || next
        > s.len() {
        false
    } else {
        tiles_from(s, next, width)
    }
}

/// How many entries of `size` bytes a table at `base` holds, of `count` it
/// declares, in a box that ends at `end`.
pub open spec fn table_len(count: int, base: int, size: int, end: int) -> int {
    let declared = if count <= MAX_SAMPLES {
        count
    } else {
        MAX_SAMPLES as int
    };
    let room = if end < base {
        0
    } else {
        (end - base) / size
    };
    if declared <= room {
        declared
    } else {
        room
    }
}

/// The size of every sample of a track.
pub open spec fn sample_sizes(d: Seq<u8>, stbl: (int, int)) -> Option<Seq<int>> {
    match child(d, Some(stbl), 0x7374_737A) {
        None => None,
        Some((body, end)) => if !bytes::fits(d, body, 12) {
            None
        } else {
            let fixed = bytes::u32_be(d, body + 4);
            let count = bytes::u32_be(d, body + 8);
            if fixed != 0 {
                Some(
                    Seq::new(
                        (if count <= MAX_SAMPLES {
                            count
                        } else {
                            MAX_SAMPLES as int
                        }) as nat,
                        |k: int| fixed,
                    ),
                )
            } else {
                Some(
                    Seq::new(
                        table_len(count, body + 12, 4, end) as nat,
                        |k: int| bytes::u32_be(d, body + 12 + 4 * k),
                    ),
                )
            }
        },
    }
}

/// Where every chunk of a track begins: 32-bit offsets, or else 64-bit ones.
pub open spec fn chunk_offsets(d: Seq<u8>, stbl: (int, int)) -> Option<Seq<int>> {
    match child(d, Some(stbl), 0x7374_636F) {
        Some((body, end)) => if !bytes::fits(d, body, 8) {
            None
        } else {
            Some(
                Seq::new(
                    table_len(bytes::u32_be(d, body + 4), body + 8, 4, end) as nat,
                    |k: int| bytes::u32_be(d, body + 8 + 4 * k),
                ),
            )
        },
        None => match child(d, Some(stbl), 0x636F_3634) {
            None => None,
            Some((body, end)) => if !bytes::fits(d, body, 8) {
                None
            } else {
                Some(
                    Seq::new(
                        table_len(bytes::u32_be(d, body + 4), body + 8, 8, end) as nat,
                        |k: int| bytes::u64_be(d, body + 8 + 8 * k),
                    ),
                )
            },
        },
    }
}

/// The runs of chunks: the first chunk of each, and its samples per chunk.
pub open spec fn chunk_runs(d: Seq<u8>, stbl: (int, int)) -> Option<Seq<(int, int)>> {
    match child(d, Some(stbl), 0x7374_7363) {
        None => None,
        Some((body, end)) => if !bytes::fits(d, body, 8) {
            None
        } else {
            let n = table_len(bytes::u32_be(d, body + 4), body + 8, 12, end);
            if n == 0 {
                None
            } else {
                Some(
                    Seq::new(
                        n as nat,
                        |k: int|
                            (
                                bytes::u32_be(d, body + 8 + 12 * k),
                                bytes::u32_be(d, body + 12 + 12 * k),
                            ),
                    ),
                )
            }
        },
    }
}

/// `avcC`.
pub open spec fn avcc() -> Seq<u8> {
    seq![0x61u8, 0x76, 0x63, 0x43]
}

/// The width of a NAL length field, from the track's configuration, where the
/// track is H.264.
pub open spec fn nal_width(d: Seq<u8>, stbl: (int, int)) -> Option<int> {
    match child(d, Some(stbl), 0x7374_7364) {
        None => None,
        Some((body, end)) => {
            let entry = body + 8;
            let size = bytes::u32_be(d, entry);
            let stop = if entry + size <= end {
                entry + size
            } else {
                end
            };
            if !bytes::fits(d, entry, 8) || (bytes::u32_be(d, entry + 4) != 0x6176_6331
                && bytes::u32_be(d, entry + 4) != 0x6176_6333) || stop < entry {
                None
            } else {
                let window = d.subrange(entry, stop);
                match search::first_from(window, avcc(), 0) {
                    None => None,
                    Some(at) => if at + 8 < window.len() {
                        Some(window[at + 8] as int % 4 + 1)
                    } else {
                        None
                    },
                }
            }
        },
    }
}

/// What a track's samples are checked by.
pub struct Track {
    pub number: int,
    pub width: int,
    pub sizes: Seq<int>,
    pub chunks: Seq<int>,
    pub runs: Seq<(int, int)>,
}

/// A track that can be checked: H.264, with its configuration and its tables.
pub open spec fn track_at(d: Seq<u8>, trak: (int, int), number: int) -> Option<Track> {
    match child(d, child(d, child(d, Some(trak), 0x6D64_6961), 0x6D69_6E66), 0x7374_626C) {
        None => None,
        Some(stbl) => match (
            nal_width(d, stbl),
            sample_sizes(d, stbl),
            chunk_offsets(d, stbl),
            chunk_runs(d, stbl),
        ) {
            (Some(width), Some(sizes), Some(chunks), Some(runs)) => Some(
                Track { number, width, sizes, chunks, runs },
            ),
            _ => None,
        },
    }
}

/// How the H.264 samples came out.
pub enum Samples {
    /// No track can be checked.
    NotApplicable,
    /// Every H.264 sample within reach divided cleanly.
    Checked { samples: int },
    /// This sample did not; `offset` is where it starts, and `sound` where the
    /// last one that did ends.
    Spliced { track: int, sample: int, offset: int, sound: int },
}

/// The samples that divided cleanly so far.
pub struct Count {
    pub samples: int,
    /// Where the last of them ends.
    pub end: int,
}

/// The `left` samples of a chunk from `pos` on: `Ok` with the next sample and
/// how many have been checked, or how the check ends.
pub open spec fn chunk_from(
    d: Seq<u8>,
    t: Track,
    pos: int,
    left: int,
    sample: int,
    checked: Count,
) -> Result<(int, Count), Samples>
    decreases left,
{
    let end = pos + t.sizes[sample];
    if left <= 0 || sample < 0 || sample >= t.sizes.len() {
        Ok((sample, checked))
    } else if end > u64::MAX {
        Err(Samples::Spliced { track: t.number, sample, offset: pos, sound: checked.end })
    } else if end > d.len() {
        // Past the end of the data is truncation, no evidence of a splice.
        Err(Samples::Checked { samples: checked.samples })
    } else if !tiles_from(d.subrange(pos, end), 0, t.width) {
        Err(Samples::Spliced { track: t.number, sample, offset: pos, sound: checked.end })
    } else if checked.samples + 1 >= MAX_SAMPLES {
        Err(Samples::Checked { samples: checked.samples + 1 })
    } else {
        chunk_from(
            d,
            t,
            end,
            left - 1,
            sample + 1,
            Count { samples: checked.samples + 1, end },
        )
    }
}

/// The run that chunk `k`, counted from zero, belongs to, looking from `run`
/// on. Each run applies from its first chunk, counted from one, until the next
/// run's.
pub open spec fn run_of(runs: Seq<(int, int)>, run: int, k: int) -> int
    decreases runs.len() - run,
{
    if run + 1 < runs.len() && runs[run + 1].0 <= k + 1 {
        run_of(runs, run + 1, k)
    } else {
        run
    }
}

/// The chunks of a track from the `k`-th on: `Ok` with how many samples have
/// been checked, or how the check ends.
pub open spec fn chunks_from(
    d: Seq<u8>,
    t: Track,
    k: int,
    run: int,
    sample: int,
    checked: Count,
) -> Result<Count, Samples>
    decreases t.chunks.len() - k,
{
    if k < 0 || k >= t.chunks.len() {
        Ok(checked)
    } else {
        let r = run_of(t.runs, run, k);
        match chunk_from(d, t, t.chunks[k], t.runs[r].1, sample, checked) {
            Err(s) => Err(s),
            Ok((sample1, checked1)) => chunks_from(d, t, k + 1, r, sample1, checked1),
        }
    }
}

/// The tracks from the `i`-th on.
pub open spec fn tracks_from(
    d: Seq<u8>,
    traks: Seq<(int, int)>,
    i: int,
    any: bool,
    checked: Count,
) -> Samples
    decreases traks.len() - i,
{
    if i < 0 || i >= traks.len() {
        if any {
            Samples::Checked { samples: checked.samples }
        } else {
            Samples::NotApplicable
        }
    } else {
        match track_at(d, traks[i], i + 1) {
            None => tracks_from(d, traks, i + 1, any, checked),
            Some(t) => match chunks_from(d, t, 0, 0, 0, checked) {
                Err(s) => s,
                Ok(checked1) => tracks_from(d, traks, i + 1, true, checked1),
            },
        }
    }
}

/// Before the first sample there is the file type box.
pub open spec fn none_yet(d: Seq<u8>) -> Count {
    Count { samples: 0, end: bytes::u32_be(d, 0) }
}

/// How the samples of the index in the range `moov` came out.
pub open spec fn samples_of(d: Seq<u8>, moov: (int, int)) -> Samples {
    tracks_from(d, children(d, moov.0, moov.1, 0x7472_616B), 0, false, none_yet(d))
}

// ---------------------------------------------------------------------------
// The file
// ---------------------------------------------------------------------------

/// Whether a box type is one that stands at the top level.
pub open spec fn known(ty: int) -> bool {
    ||| ty == 0x6674_7970
    ||| ty == 0x6D6F_6F76
    ||| ty == 0x6D64_6174
    ||| ty == 0x6672_6565
    ||| ty == 0x736B_6970
    ||| ty == 0x7769_6465
    ||| ty == 0x706E_6F74
    ||| ty == 0x6D65_7461
    ||| ty == 0x6D6F_6F66
    ||| ty == 0x6D66_7261
    ||| ty == 0x7575_6964
    ||| ty == 0x7374_7970
    ||| ty == 0x7369_6478
    ||| ty == 0x7064_696E
    ||| ty == 0x6A75_6E6B
}

/// How far the top-level boxes have been walked.
#[verifier::ext_equal]
pub struct Progress {
    pub at: int,
    /// The body of the last `moov`.
    pub moov: Option<(int, int)>,
    pub saw_moov: bool,
    pub saw_mdat: bool,
    pub boxes: int,
    pub unknown: int,
    /// Where a box is cut short by the end of the data.
    pub cut: Option<int>,
}

/// Whether four bytes are printable characters or spaces.
pub open spec fn printable(d: Seq<u8>, at: int) -> bool {
    forall|i: int| at <= i < at + 4 ==> 0x20 <= #[trigger] d[i] <= 0x7E
}

/// The walk with the box at its position, of the given size, counted.
pub open spec fn counted(d: Seq<u8>, s: Progress, size: int, header: int) -> Progress {
    let ty = bytes::u32_be(d, s.at + 4);
    let end = if s.at + size <= d.len() {
        s.at + size
    } else {
        d.len() as int
    };
    Progress {
        saw_moov: s.saw_moov || ty == 0x6D6F_6F76,
        saw_mdat: s.saw_mdat || ty == 0x6D64_6174,
        moov: if ty == 0x6D6F_6F76 && s.at + header <= end {
            Some((s.at + header, end))
        } else {
            s.moov
        },
        boxes: s.boxes + 1,
        unknown: if known(ty) {
            s.unknown
        } else {
            s.unknown + 1
        },
        ..s
    }
}

/// The top-level walk from `s` on.
pub open spec fn boxes_from(d: Seq<u8>, s: Progress) -> Progress
    decreases d.len() - s.at,
{
    if s.at < 0 || s.at >= d.len() {
        s
    } else if s.at + 8 > d.len() {
        Progress { cut: Some(s.at), ..s }
    } else if !printable(d, s.at + 4) {
        s
    } else {
        match box_size(d, s.at, d.len() as int) {
            None => Progress { cut: Some(s.at), ..s },
            Some((size, header)) => if size < header {
                s
            } else {
                let s1 = counted(d, s, size, header);
                if s.at + size > u64::MAX {
                    s1
                } else if s.at + size > d.len() {
                    Progress { cut: Some(s.at), ..s1 }
                } else {
                    boxes_from(d, Progress { at: s.at + size, ..s1 })
                }
            },
        }
    }
}

/// The facts about the boxes, kept as evidence.
pub open spec fn with_boxes(v: Verdict, d: Seq<u8>, s: Progress) -> Verdict {
    v.with("major_brand"@, text::ascii(d.subrange(8, 12))).with(
        "top_level_boxes"@,
        text::dec(s.boxes),
    ).with("unknown_boxes"@, text::dec(s.unknown)).with("has_moov"@, text::yes_no(s.saw_moov)).with(
        "has_mdat"@,
        text::yes_no(s.saw_mdat),
    )
}

/// What a whole walk comes to.
pub open spec fn concluded(d: Seq<u8>, s: Progress) -> Verdict {
    if s.boxes < 2 {
        Verdict::reject("only the ftyp box could be walked; not a media file"@).cut_if(
            s.cut is Some || s.at >= d.len(),
        )
    } else {
        with_boxes(
            if s.cut is Some {
                Verdict::partial(
                    bytes::larger(s.cut->Some_0, 1),
                    if s.saw_moov && !s.saw_mdat {
                        "truncated: the index is present but the media data is cut short"@
                    } else if s.saw_mdat && !s.saw_moov {
                        "truncated: media data without a moov index; sample offsets are unknown"@
                    } else {
                        "truncated: the box tree runs past the available data"@
                    },
                ).truncated()
            } else if !s.saw_moov || !s.saw_mdat {
                Verdict::partial(
                    s.at,
                    "the box tree is complete but there is no "@ + (if s.saw_moov {
                        "mdat"@
                    } else {
                        "moov"@
                    }) + " box"@,
                ).cut_if(s.at >= d.len())
            } else {
                match s.moov {
                    None => Verdict::valid(s.at),
                    Some(moov) => match samples_of(d, moov) {
                        Samples::NotApplicable => Verdict::valid(s.at),
                        Samples::Checked { samples } => Verdict::valid(s.at).with(
                            "avc_samples_checked"@,
                            text::dec(samples),
                        ),
                        Samples::Spliced { track, sample, offset, sound } => Verdict::partial(
                            if offset <= d.len() {
                                offset
                            } else {
                                sound
                            },
                            "the box tree adds up, but sample "@ + text::dec(sample)
                                + " of H.264 track "@ + text::dec(track)
                                + " does not divide into NAL units; the media data is spliced into something else - a fragment boundary or an overwrite - at that sample"@,
                        ).with("spliced_after"@, text::dec(offset)).with(
                            "bad_sample"@,
                            text::dec(sample),
                        ),
                    },
                }
            },
            d,
            s,
        )
    }
}

/// The walk before the first box.
pub open spec fn start() -> Progress {
    Progress {
        at: 0,
        moov: None,
        saw_moov: false,
        saw_mdat: false,
        boxes: 0,
        unknown: 0,
        cut: None,
    }
}

/// Whether the bytes that are there can begin with a file type box.
pub open spec fn begun(d: Seq<u8>) -> bool {
    bytes::may_hold(d, 4, 0x66) && bytes::may_hold(d, 5, 0x74) && bytes::may_hold(d, 6, 0x79) && bytes::may_hold(d, 7, 0x70)
}

fn begun_at(d: &[u8]) -> (r: bool)
    ensures
        r == begun(d@),
{
    bytes::may_be(d, 4, 0x66) && bytes::may_be(d, 5, 0x74) && bytes::may_be(d, 6, 0x79) && bytes::may_be(d, 7, 0x70)
}

/// What the bytes of `d` are as an ISO base media file.
pub open spec fn verdict(d: Seq<u8>) -> Verdict {
    let ftyp = bytes::u32_be(d, 0);
    if d.len() < 16 {
        Verdict::reject("shorter than a file type box"@).cut_if(begun(d))
    } else if bytes::u32_be(d, 4) != 0x6674_7970 {
        Verdict::reject("no ftyp box at offset 4"@)
    } else if ftyp < 8 {
        Verdict::reject("the ftyp box declares a size below its own header"@)
    } else if ftyp > 1024 {
        Verdict::reject(
            "the ftyp box declares "@ + text::dec(ftyp)
                + " bytes; a real one is tens of bytes, so the preceding four bytes were not a size field"@,
        )
    } else if !printable(d, 8) {
        Verdict::reject("the major brand is not four printable characters"@)
    } else {
        concluded(d, boxes_from(d, start()))
    }
}

// ---------------------------------------------------------------------------
// Walking
// ---------------------------------------------------------------------------

spec fn ranges(v: Seq<(usize, usize)>) -> Seq<(int, int)> {
    Seq::new(v.len(), |i: int| (v[i].0 as int, v[i].1 as int))
}

spec fn range(r: Option<(usize, usize)>) -> Option<(int, int)> {
    match r {
        Some((a, b)) => Some((a as int, b as int)),
        None => None,
    }
}

/// Whether a range ends inside the data and begins no further than its end.
spec fn inside(d: Seq<u8>, r: (usize, usize)) -> bool {
    r.0 <= d.len() && r.1 <= d.len()
}

/// The size and the header size of the box at `i`.
fn size_at(d: &[u8], i: usize, end: usize) -> (r: Option<(u64, usize)>)
    requires
        i + 8 <= end <= d@.len(),
    ensures
        match r {
            Some((size, header)) => box_size(d@, i as int, end as int) == Some(
                (size as int, header as int),
            ) && (header == 8 || header == 16) && i + header <= d@.len(),
            None => box_size(d@, i as int, end as int) is None,
        },
{
    let size: u32 = bytes::get32(d, i, true);
    if size == 1 {
        match bytes::be64(d, i + 8) {
            Some(s) => Some((s, 16)),
            None => None,
        }
    } else if size == 0 {
        Some(((end - i) as u64, 8))
    } else {
        Some((size as u64, 8))
    }
}

/// Child boxes of a given type within `[start, end)`.
fn find_children(d: &[u8], start: usize, end: usize, want: u32) -> (r: Vec<(usize, usize)>)
    requires
        end <= d@.len(),
    ensures
        ranges(r@) == children(d@, start as int, end as int, want as int),
        forall|k: int| 0 <= k < r@.len() ==> inside(d@, #[trigger] r@[k]),
{
    let mut out: Vec<(usize, usize)> = Vec::new();
    let mut i: usize = start;
    let ghost whole = children(d@, start as int, end as int, want as int);
    assert(ranges(out@) + whole =~= whole);
    while i <= end && 8 <= end - i
        invariant
            end <= d@.len(),
            forall|k: int| 0 <= k < out@.len() ==> inside(d@, #[trigger] out@[k]),
            ranges(out@) + children(d@, i as int, end as int, want as int) == whole,
            whole == children(d@, start as int, end as int, want as int),
        decreases end - i,
    {
        let ghost rest = children(d@, i as int, end as int, want as int);
        let (size, header): (u64, usize) = match size_at(d, i, end) {
            Some(x) => x,
            None => {
                assert(ranges(out@) + rest =~= ranges(out@));
                return out;
            },
        };
        if size < header as u64 || size > 0xFFFF_FFFF_FFFF_FFFFu64 - i as u64 {
            assert(ranges(out@) + rest =~= ranges(out@));
            return out;
        }
        let stop: usize = if size <= (end - i) as u64 {
            i + size as usize
        } else {
            end
        };
        let ghost after = children(d@, stop as int, end as int, want as int);
        if bytes::get32(d, i + 4, true) == want {
            let ghost before = out@;
            out.push((i + header, stop));
            proof {
                assert(ranges(out@) =~= ranges(before) + seq![((i + header) as int, stop as int)]);
                assert(ranges(out@) + after =~= ranges(before) + (seq![
                    ((i + header) as int, stop as int),
                ] + after));
            }
        } else {
            assert(Seq::<(int, int)>::empty() + after =~= after);
        }
        i = stop;
    }
    assert(ranges(out@) + children(d@, i as int, end as int, want as int) =~= ranges(out@));
    out
}

/// The first child box of a given type.
fn first_child(d: &[u8], parent: (usize, usize), want: u32) -> (r: Option<(usize, usize)>)
    requires
        inside(d@, parent),
    ensures
        range(r) == child(d@, Some((parent.0 as int, parent.1 as int)), want as int),
        r matches Some(x) ==> inside(d@, x),
{
    let all = find_children(d, parent.0, parent.1, want);
    assert(ranges(all@).len() == all@.len());
    if all.len() > 0 {
        assert(ranges(all@)[0] == (all@[0].0 as int, all@[0].1 as int));
        assert(inside(d@, all@[0]));
        Some(all[0])
    } else {
        None
    }
}

/// Whether a sample divides exactly into NAL units.
fn tiles(sample: &[u8], width: usize) -> (r: bool)
    requires
        1 <= width <= 4,
    ensures
        r == tiles_from(sample@, 0, width as int),
{
    let mut p: usize = 0;
    while p < sample.len()
        invariant
            p <= sample@.len(),
            1 <= width <= 4,
            tiles_from(sample@, 0, width as int) == tiles_from(sample@, p as int, width as int),
        decreases sample@.len() - p,
    {
        let left: usize = sample.len() - p;
        if left <= width {
            return false;
        }
        let mut len: u64 = 0;
        let mut k: usize = 0;
        while k < width
            invariant
                k <= width <= 4,
                p + width < sample@.len(),
                len == length_field(sample@, p as int, k as int),
                k == 0 ==> len == 0,
                k == 1 ==> len <= 0xFF,
                k == 2 ==> len <= 0xFFFF,
                k == 3 ==> len <= 0xFF_FFFF,
                len <= 0xFFFF_FFFF,
            decreases width - k,
        {
            len = len * 256 + sample[p + k] as u64;
            k += 1;
        }
        if len == 0 {
            return false;
        }
        // The forbidden bit is set in no conforming NAL unit.
        if sample[p + width] >= 0x80 {
            return false;
        }
        if len > (left - width) as u64 {
            return false;
        }
        p = p + width + len as usize;
    }
    true
}

fn entries(count: u32, base: usize, size: usize, end: usize) -> (n: usize)
    requires
        size > 0,
    ensures
        n == table_len(count as int, base as int, size as int, end as int),
        n <= MAX_SAMPLES,
        n > 0 ==> base + n * size <= end,
{
    let declared: usize = if count as u64 <= MAX_SAMPLES {
        count as usize
    } else {
        2_000_000
    };
    let room: usize = if end < base {
        0
    } else {
        (end - base) / size
    };
    proof {
        if end >= base {
            vstd::arithmetic::div_mod::lemma_fundamental_div_mod(
                (end - base) as int,
                size as int,
            );
            if declared <= room {
                vstd::arithmetic::mul::lemma_mul_inequality(
                    declared as int,
                    room as int,
                    size as int,
                );
            }
            vstd::arithmetic::mul::lemma_mul_is_commutative(size as int, room as int);
        }
    }
    if declared <= room {
        declared
    } else {
        room
    }
}

spec fn wide32(v: Seq<u32>) -> Seq<int> {
    Seq::new(v.len(), |i: int| v[i] as int)
}

spec fn wide64(v: Seq<u64>) -> Seq<int> {
    Seq::new(v.len(), |i: int| v[i] as int)
}

spec fn pairs(v: Seq<(u32, u32)>) -> Seq<(int, int)> {
    Seq::new(v.len(), |i: int| (v[i].0 as int, v[i].1 as int))
}

fn read_sizes(d: &[u8], stbl: (usize, usize)) -> (r: Option<Vec<u32>>)
    requires
        inside(d@, stbl),
    ensures
        match r {
            Some(v) => sample_sizes(d@, (stbl.0 as int, stbl.1 as int)) == Some(wide32(v@)),
            None => sample_sizes(d@, (stbl.0 as int, stbl.1 as int)) is None,
        },
{
    let (body, end): (usize, usize) = match first_child(d, stbl, 0x7374_737A) {
        Some(x) => x,
        None => {
            return None;
        },
    };
    if !bytes::has(d, body, 12) {
        return None;
    }
    let fixed: u32 = bytes::get32(d, body + 4, true);
    let count: u32 = bytes::get32(d, body + 8, true);
    let mut v: Vec<u32> = Vec::new();
    if fixed != 0 {
        let n: usize = if count as u64 <= MAX_SAMPLES {
            count as usize
        } else {
            2_000_000
        };
        while v.len() < n
            invariant
                v@.len() <= n,
                forall|k: int| 0 <= k < v@.len() ==> #[trigger] v@[k] == fixed,
            decreases n - v@.len(),
        {
            v.push(fixed);
        }
        assert(wide32(v@) =~= sample_sizes(d@, (stbl.0 as int, stbl.1 as int))->Some_0);
        return Some(v);
    }
    let n: usize = entries(count, body + 12, 4, end);
    while v.len() < n
        invariant
            v@.len() <= n,
            n > 0 ==> body + 12 + n * 4 <= end,
            end <= d@.len(),
            forall|k: int|
                0 <= k < v@.len() ==> #[trigger] v@[k] == bytes::u32_be(d@, body + 12 + 4 * k),
        decreases n - v@.len(),
    {
        v.push(bytes::get32(d, body + 12 + 4 * v.len(), true));
    }
    assert(wide32(v@) =~= sample_sizes(d@, (stbl.0 as int, stbl.1 as int))->Some_0);
    Some(v)
}

fn read_offsets32(d: &[u8], body: usize, end: usize) -> (v: Vec<u64>)
    requires
        body + 8 <= d@.len(),
        end <= d@.len(),
    ensures
        wide64(v@) == Seq::new(
            table_len(bytes::u32_be(d@, body + 4), body + 8, 4, end as int) as nat,
            |k: int| bytes::u32_be(d@, body + 8 + 4 * k),
        ),
{
    let n: usize = entries(bytes::get32(d, body + 4, true), body + 8, 4, end);
    let mut v: Vec<u64> = Vec::new();
    while v.len() < n
        invariant
            v@.len() <= n,
            n > 0 ==> body + 8 + n * 4 <= end,
            end <= d@.len(),
            forall|k: int|
                0 <= k < v@.len() ==> #[trigger] v@[k] == bytes::u32_be(d@, body + 8 + 4 * k),
        decreases n - v@.len(),
    {
        v.push(bytes::get32(d, body + 8 + 4 * v.len(), true) as u64);
    }
    v
}

fn read_offsets64(d: &[u8], body: usize, end: usize) -> (v: Vec<u64>)
    requires
        body + 8 <= d@.len(),
        end <= d@.len(),
    ensures
        wide64(v@) == Seq::new(
            table_len(bytes::u32_be(d@, body + 4), body + 8, 8, end as int) as nat,
            |k: int| bytes::u64_be(d@, body + 8 + 8 * k),
        ),
{
    let n: usize = entries(bytes::get32(d, body + 4, true), body + 8, 8, end);
    let mut v: Vec<u64> = Vec::new();
    while v.len() < n
        invariant
            v@.len() <= n,
            n > 0 ==> body + 8 + n * 8 <= end,
            end <= d@.len(),
            forall|k: int|
                0 <= k < v@.len() ==> #[trigger] v@[k] == bytes::u64_be(d@, body + 8 + 8 * k),
        decreases n - v@.len(),
    {
        v.push(bytes::get64(d, body + 8 + 8 * v.len(), true));
    }
    v
}

fn read_offsets(d: &[u8], stbl: (usize, usize)) -> (r: Option<Vec<u64>>)
    requires
        inside(d@, stbl),
    ensures
        match r {
            Some(v) => chunk_offsets(d@, (stbl.0 as int, stbl.1 as int)) == Some(wide64(v@)),
            None => chunk_offsets(d@, (stbl.0 as int, stbl.1 as int)) is None,
        },
{
    match first_child(d, stbl, 0x7374_636F) {
        Some((body, end)) => {
            if !bytes::has(d, body, 8) {
                return None;
            }
            Some(read_offsets32(d, body, end))
        },
        None => match first_child(d, stbl, 0x636F_3634) {
            None => None,
            Some((body, end)) => {
                if !bytes::has(d, body, 8) {
                    return None;
                }
                Some(read_offsets64(d, body, end))
            },
        },
    }
}

fn read_runs(d: &[u8], stbl: (usize, usize)) -> (r: Option<Vec<(u32, u32)>>)
    requires
        inside(d@, stbl),
    ensures
        match r {
            Some(v) => chunk_runs(d@, (stbl.0 as int, stbl.1 as int)) == Some(pairs(v@)) && v@.len()
                > 0,
            None => chunk_runs(d@, (stbl.0 as int, stbl.1 as int)) is None,
        },
{
    let (body, end): (usize, usize) = match first_child(d, stbl, 0x7374_7363) {
        Some(x) => x,
        None => {
            return None;
        },
    };
    if !bytes::has(d, body, 8) {
        return None;
    }
    let n: usize = entries(bytes::get32(d, body + 4, true), body + 8, 12, end);
    if n == 0 {
        return None;
    }
    let mut v: Vec<(u32, u32)> = Vec::new();
    while v.len() < n
        invariant
            v@.len() <= n,
            n > 0 ==> body + 8 + n * 12 <= end,
            end <= d@.len(),
            forall|k: int|
                0 <= k < v@.len() ==> (#[trigger] v@[k]).0 == bytes::u32_be(d@, body + 8 + 12 * k)
                    && v@[k].1 == bytes::u32_be(d@, body + 12 + 12 * k),
        decreases n - v@.len(),
    {
        let at: usize = body + 8 + 12 * v.len();
        v.push((bytes::get32(d, at, true), bytes::get32(d, at + 4, true)));
    }
    assert(pairs(v@) =~= chunk_runs(d@, (stbl.0 as int, stbl.1 as int))->Some_0);
    Some(v)
}

/// The NAL length-field width from the track's configuration, if the track is
/// H.264.
fn read_width(d: &[u8], stbl: (usize, usize)) -> (r: Option<usize>)
    requires
        inside(d@, stbl),
    ensures
        match r {
            Some(w) => nal_width(d@, (stbl.0 as int, stbl.1 as int)) == Some(w as int) && 1 <= w
                <= 4,
            None => nal_width(d@, (stbl.0 as int, stbl.1 as int)) is None,
        },
{
    let (body, end): (usize, usize) = match first_child(d, stbl, 0x7374_7364) {
        Some(x) => x,
        None => {
            return None;
        },
    };
    // A full box: version and flags, then an entry count.
    if !bytes::has(d, body, 16) {
        return None;
    }
    let entry: usize = body + 8;
    let kind: u32 = bytes::get32(d, entry + 4, true);
    if kind != 0x6176_6331 && kind != 0x6176_6333 {
        return None;
    }
    if end < entry {
        return None;
    }
    let size: u64 = bytes::get32(d, entry, true) as u64;
    let stop: usize = if size <= (end - entry) as u64 {
        entry + size as usize
    } else {
        end
    };
    let window: &[u8] = slice_subrange(d, entry, stop);
    let tag: [u8; 4] = [0x61, 0x76, 0x63, 0x43];
    assert(tag@ =~= avcc());
    match search::find(window, &tag) {
        None => None,
        Some(at) => {
            proof {
                search::first_is_first(window@, avcc(), 0);
            }
            // The tag, then version, profile, compatibility, level, and the
            // byte whose low two bits are the width less one.
            if window.len() - at > 8 {
                Some((window[at + 8] % 4) as usize + 1)
            } else {
                None
            }
        },
    }
}

/// What a track's samples are checked by.
struct Tables {
    number: u64,
    width: usize,
    sizes: Vec<u32>,
    chunks: Vec<u64>,
    runs: Vec<(u32, u32)>,
}

impl Tables {
    spec fn view(self) -> Track {
        Track {
            number: self.number as int,
            width: self.width as int,
            sizes: wide32(self.sizes@),
            chunks: wide64(self.chunks@),
            runs: pairs(self.runs@),
        }
    }

    spec fn wf(self) -> bool {
        1 <= self.width <= 4 && self.runs@.len() > 0
    }
}

/// How the H.264 samples came out.
enum AvcCheck {
    NotApplicable,
    Checked { samples: u64 },
    Spliced { track: u64, sample: u64, offset: u64, sound: u64 },
}

/// The samples that divided cleanly so far.
#[derive(Clone, Copy)]
struct Divided {
    samples: u64,
    end: u64,
}

impl Divided {
    spec fn view(self) -> Count {
        Count { samples: self.samples as int, end: self.end as int }
    }
}

impl AvcCheck {
    spec fn view(self) -> Samples {
        match self {
            AvcCheck::NotApplicable => Samples::NotApplicable,
            AvcCheck::Checked { samples } => Samples::Checked { samples: samples as int },
            AvcCheck::Spliced { track, sample, offset, sound } => Samples::Spliced {
                track: track as int,
                sample: sample as int,
                offset: offset as int,
                sound: sound as int,
            },
        }
    }
}

/// The samples of one chunk.
fn check_chunk(
    d: &[u8],
    t: &Tables,
    start: u64,
    per: u32,
    first: usize,
    before: Divided,
) -> (r: Result<(usize, Divided), AvcCheck>)
    requires
        t.wf(),
        before.samples < MAX_SAMPLES,
    ensures
        match chunk_from(d@, t.view(), start as int, per as int, first as int, before.view()) {
            Ok((sample, checked)) => r matches Ok((s, c)) && s == sample && c.view() == checked && c.samples
                < MAX_SAMPLES,
            Err(v) => r matches Err(x) && x.view() == v,
        },
{
    let ghost whole = chunk_from(
        d@,
        t.view(),
        start as int,
        per as int,
        first as int,
        before.view(),
    );
    let mut pos: u64 = start;
    let mut left: u32 = per;
    let mut sample: usize = first;
    let mut checked: Divided = before;
    assert(t.view().sizes.len() == t.sizes@.len());
    while left > 0 && sample < t.sizes.len()
        invariant
            t.wf(),
            checked.samples < MAX_SAMPLES,
            t.view().sizes.len() == t.sizes@.len(),
            whole == chunk_from(
                d@,
                t.view(),
                start as int,
                per as int,
                first as int,
                before.view(),
            ),
            whole == chunk_from(
                d@,
                t.view(),
                pos as int,
                left as int,
                sample as int,
                checked.view(),
            ),
        decreases left,
    {
        let size: u64 = t.sizes[sample] as u64;
        assert(t.view().sizes[sample as int] == size);
        if size > 0xFFFF_FFFF_FFFF_FFFFu64 - pos {
            return Err(
                AvcCheck::Spliced {
                    track: t.number,
                    sample: sample as u64,
                    offset: pos,
                    sound: checked.end,
                },
            );
        }
        let end: u64 = pos + size;
        if end > d.len() as u64 {
            return Err(AvcCheck::Checked { samples: checked.samples });
        }
        if !tiles(slice_subrange(d, pos as usize, end as usize), t.width) {
            return Err(
                AvcCheck::Spliced {
                    track: t.number,
                    sample: sample as u64,
                    offset: pos,
                    sound: checked.end,
                },
            );
        }
        checked = Divided { samples: checked.samples + 1, end };
        if checked.samples >= MAX_SAMPLES {
            return Err(AvcCheck::Checked { samples: checked.samples });
        }
        pos = end;
        sample += 1;
        left -= 1;
    }
    Ok((sample, checked))
}

/// The samples of one track.
fn check_track(d: &[u8], t: &Tables, before: Divided) -> (r: Result<Divided, AvcCheck>)
    requires
        t.wf(),
        before.samples < MAX_SAMPLES,
    ensures
        match chunks_from(d@, t.view(), 0, 0, 0, before.view()) {
            Ok(checked) => r matches Ok(c) && c.view() == checked && c.samples < MAX_SAMPLES,
            Err(v) => r matches Err(x) && x.view() == v,
        },
{
    let ghost whole = chunks_from(d@, t.view(), 0, 0, 0, before.view());
    let mut sample: usize = 0;
    let mut run: usize = 0;
    let mut checked: Divided = before;
    let mut k: usize = 0;
    assert(t.view().chunks.len() == t.chunks@.len());
    assert(t.view().runs.len() == t.runs@.len());
    while k < t.chunks.len()
        invariant
            t.wf(),
            k <= t.chunks@.len(),
            t.view().chunks.len() == t.chunks@.len(),
            t.view().runs.len() == t.runs@.len(),
            checked.samples < MAX_SAMPLES,
            run < t.runs@.len(),
            whole == chunks_from(d@, t.view(), 0, 0, 0, before.view()),
            whole == chunks_from(
                d@,
                t.view(),
                k as int,
                run as int,
                sample as int,
                checked.view(),
            ),
        decreases t.chunks@.len() - k,
    {
        let ghost target = run_of(t.view().runs, run as int, k as int);
        while run < t.runs.len() - 1 && (t.runs[run + 1].0 == 0 || (t.runs[run + 1].0 - 1) as u64 <= k as u64)
            invariant
                t.wf(),
                k < t.chunks@.len(),
                t.view().runs.len() == t.runs@.len(),
                run < t.runs@.len(),
                target == run_of(t.view().runs, run as int, k as int),
            decreases t.runs@.len() - run,
        {
            assert(t.view().runs[run + 1].0 == t.runs@[run + 1].0);
            run += 1;
        }
        proof {
            if run + 1 < t.runs@.len() {
                assert(t.view().runs[run + 1].0 == t.runs@[run + 1].0);
            }
            assert(target == run);
            assert(t.view().runs[run as int].1 == t.runs@[run as int].1);
            assert(t.view().chunks[k as int] == t.chunks@[k as int]);
        }
        match check_chunk(d, t, t.chunks[k], t.runs[run].1, sample, checked) {
            Err(e) => {
                return Err(e);
            },
            Ok((s, c)) => {
                sample = s;
                checked = c;
            },
        }
        k += 1;
    }
    Ok(checked)
}

/// A track that can be checked.
fn read_track(d: &[u8], trak: (usize, usize), number: u64) -> (r: Option<Tables>)
    requires
        inside(d@, trak),
    ensures
        match r {
            Some(t) => track_at(d@, (trak.0 as int, trak.1 as int), number as int) == Some(t.view())
                && t.wf(),
            None => track_at(d@, (trak.0 as int, trak.1 as int), number as int) is None,
        },
{
    let mdia: (usize, usize) = match first_child(d, trak, 0x6D64_6961) {
        Some(x) => x,
        None => {
            return None;
        },
    };
    let minf: (usize, usize) = match first_child(d, mdia, 0x6D69_6E66) {
        Some(x) => x,
        None => {
            return None;
        },
    };
    let stbl: (usize, usize) = match first_child(d, minf, 0x7374_626C) {
        Some(x) => x,
        None => {
            return None;
        },
    };
    let width: usize = match read_width(d, stbl) {
        Some(w) => w,
        None => {
            return None;
        },
    };
    match (read_sizes(d, stbl), read_offsets(d, stbl), read_runs(d, stbl)) {
        (Some(sizes), Some(chunks), Some(runs)) => Some(
            Tables { number, width, sizes, chunks, runs },
        ),
        _ => None,
    }
}

/// Check that every H.264 sample divides exactly into length-prefixed NAL
/// units. Data from anywhere else almost never does.
fn check_avc_samples(d: &[u8], moov: (usize, usize)) -> (r: AvcCheck)
    requires
        d@.len() >= 4,
        inside(d@, moov),
    ensures
        r.view() == samples_of(d@, (moov.0 as int, moov.1 as int)),
{
    let traks = find_children(d, moov.0, moov.1, 0x7472_616B);
    let ghost all = ranges(traks@);
    let ghost whole = tracks_from(d@, all, 0, false, none_yet(d@));
    let mut any: bool = false;
    let mut checked: Divided = Divided { samples: 0, end: bytes::get32(d, 0, true) as u64 };
    let mut i: usize = 0;
    while i < traks.len()
        invariant
            i <= traks@.len(),
            all == ranges(traks@),
            all.len() == traks@.len(),
            checked.samples < MAX_SAMPLES,
            forall|k: int| 0 <= k < traks@.len() ==> inside(d@, #[trigger] traks@[k]),
            whole == tracks_from(d@, all, i as int, any, checked.view()),
            whole == samples_of(d@, (moov.0 as int, moov.1 as int)),
        decreases traks@.len() - i,
    {
        assert(all[i as int] == (traks@[i as int].0 as int, traks@[i as int].1 as int));
        assert(inside(d@, traks@[i as int]));
        if let Some(t) = read_track(d, traks[i], i as u64 + 1) {
            any = true;
            match check_track(d, &t, checked) {
                Err(e) => {
                    return e;
                },
                Ok(c) => {
                    checked = c;
                },
            }
        }
        i += 1;
    }
    if any {
        AvcCheck::Checked { samples: checked.samples }
    } else {
        AvcCheck::NotApplicable
    }
}

/// How far the top-level boxes have been walked.
struct Walk {
    at: usize,
    moov: Option<(usize, usize)>,
    saw_moov: bool,
    saw_mdat: bool,
    boxes: u64,
    unknown: u64,
    cut: Option<usize>,
}

impl Walk {
    spec fn view(self) -> Progress {
        Progress {
            at: self.at as int,
            moov: range(self.moov),
            saw_moov: self.saw_moov,
            saw_mdat: self.saw_mdat,
            boxes: self.boxes as int,
            unknown: self.unknown as int,
            cut: match self.cut {
                Some(c) => Some(c as int),
                None => None,
            },
        }
    }

    spec fn wf(self, d: Seq<u8>) -> bool {
        &&& self.at <= d.len()
        &&& self.moov matches Some(m) ==> inside(d, m)
        &&& self.boxes <= self.at
        &&& self.unknown <= self.boxes
    }
}

fn is_known_top_level(ty: u32) -> (r: bool)
    ensures
        r == known(ty as int),
{
    ty == 0x6674_7970 || ty == 0x6D6F_6F76 || ty == 0x6D64_6174 || ty == 0x6672_6565 || ty
        == 0x736B_6970 || ty == 0x7769_6465 || ty == 0x706E_6F74 || ty == 0x6D65_7461 || ty
        == 0x6D6F_6F66 || ty == 0x6D66_7261 || ty == 0x7575_6964 || ty == 0x7374_7970 || ty
        == 0x7369_6478 || ty == 0x7064_696E || ty == 0x6A75_6E6B
}

fn is_printable(d: &[u8], at: usize) -> (r: bool)
    requires
        at + 4 <= d@.len(),
    ensures
        r == printable(d@, at as int),
{
    let r: bool = 0x20 <= d[at] && d[at] <= 0x7E && 0x20 <= d[at + 1] && d[at + 1] <= 0x7E && 0x20
        <= d[at + 2] && d[at + 2] <= 0x7E && 0x20 <= d[at + 3] && d[at + 3] <= 0x7E;
    proof {
        if !r {
            assert(!(0x20 <= d@[at as int] <= 0x7E) || !(0x20 <= d@[at + 1] <= 0x7E) || !(0x20
                <= d@[at + 2] <= 0x7E) || !(0x20 <= d@[at + 3] <= 0x7E));
        }
    }
    r
}

/// Walk the top-level boxes.
fn walk(d: &[u8]) -> (w: Walk)
    ensures
        w.view() == boxes_from(
            d@,
            Progress {
                at: 0,
                moov: None,
                saw_moov: false,
                saw_mdat: false,
                boxes: 0,
                unknown: 0,
                cut: None,
            },
        ),
        w.moov matches Some(m) ==> inside(d@, m),
{
    let mut w = Walk {
        at: 0,
        moov: None,
        saw_moov: false,
        saw_mdat: false,
        boxes: 0,
        unknown: 0,
        cut: None,
    };
    let ghost whole = boxes_from(d@, w.view());
    let n: usize = d.len();
    while w.at < n
        invariant
            n == d@.len(),
            w.wf(d@),
            w.cut is None,
            whole == boxes_from(d@, w.view()),
            whole == boxes_from(
                d@,
                Progress {
                    at: 0,
                    moov: None,
                    saw_moov: false,
                    saw_mdat: false,
                    boxes: 0,
                    unknown: 0,
                    cut: None,
                },
            ),
        decreases n - w.at,
    {
        let i: usize = w.at;
        // A final partial box header means the file was cut mid-structure.
        if n - i < 8 {
            w.cut = Some(i);
            return w;
        }
        // Anything but four printable characters means the walk has left the
        // structure.
        if !is_printable(d, i + 4) {
            return w;
        }
        let ty: u32 = bytes::get32(d, i + 4, true);
        let (size, header): (u64, usize) = match size_at(d, i, n) {
            Some(x) => x,
            None => {
                w.cut = Some(i);
                return w;
            },
        };
        if size < header as u64 {
            // Such a size would make the walk loop forever.
            return w;
        }
        let ghost before = w.view();
        if ty == 0x6D6F_6F76 {
            w.saw_moov = true;
            let end: usize = if size <= (n - i) as u64 {
                i + size as usize
            } else {
                n
            };
            if i + header <= end {
                w.moov = Some((i + header, end));
            }
        } else if ty == 0x6D64_6174 {
            w.saw_mdat = true;
        }
        if !is_known_top_level(ty) {
            w.unknown = w.unknown + 1;
        }
        w.boxes = w.boxes + 1;
        assert(w.view() == counted(d@, before, size as int, header as int));
        if size > 0xFFFF_FFFF_FFFF_FFFFu64 - i as u64 {
            return w;
        }
        if size > (n - i) as u64 {
            // The last box claims more than there is.
            w.cut = Some(i);
            return w;
        }
        w.at = i + size as usize;
    }
    w
}

fn evidence(o: Outcome, d: &[u8], w: &Walk) -> (r: Outcome)
    requires
        d@.len() >= 12,
    ensures
        r@ == with_boxes(o@, d@, w.view()),
{
    o.with("major_brand", text::from_ascii(slice_subrange(d, 8, 12))).with(
        "top_level_boxes",
        w.boxes,
    ).with("unknown_boxes", w.unknown).with("has_moov", w.saw_moov).with("has_mdat", w.saw_mdat)
}

/// What a whole walk comes to.
fn conclude(d: &[u8], w: &Walk) -> (r: Outcome)
    requires
        d@.len() >= 12,
        w.moov matches Some(m) ==> inside(d@, m),
    ensures
        r@ == concluded(d@, w.view()),
{
    if w.boxes < 2 {
        return Outcome::reject("only the ftyp box could be walked; not a media file").cut_if(
            w.cut.is_some() || w.at >= d.len(),
        );
    }
    if let Some(cut) = w.cut {
        let why: &'static str = if w.saw_moov && !w.saw_mdat {
            "truncated: the index is present but the media data is cut short"
        } else if w.saw_mdat && !w.saw_moov {
            "truncated: media data without a moov index; sample offsets are unknown"
        } else {
            "truncated: the box tree runs past the available data"
        };
        return evidence(
            Outcome::partial(bytes::max64(cut as u64, 1), why).truncated(),
            d,
            w,
        );
    }
    if !w.saw_moov || !w.saw_mdat {
        let missing: &'static str = if w.saw_moov {
            "mdat"
        } else {
            "moov"
        };
        return evidence(
            Outcome::partial(
                w.at as u64,
                text::cat3(
                    "the box tree is complete but there is no ",
                    missing,
                    " box",
                ).as_str(),
            ).cut_if(w.at >= d.len()),
            d,
            w,
        );
    }
    let valid = Outcome::valid(w.at as u64);
    let out = match w.moov {
        None => valid,
        Some(moov) => match check_avc_samples(d, moov) {
            AvcCheck::NotApplicable => valid,
            AvcCheck::Checked { samples } => valid.with("avc_samples_checked", samples),
            AvcCheck::Spliced { track, sample, offset, sound } => Outcome::partial(
                if offset <= d.len() as u64 {
                    offset
                } else {
                    sound
                },
                text::cat5(
                    "the box tree adds up, but sample ",
                    text::decimal(sample).as_str(),
                    " of H.264 track ",
                    text::decimal(track).as_str(),
                    " does not divide into NAL units; the media data is spliced into something else - a fragment boundary or an overwrite - at that sample",
                ).as_str(),
            ).with("spliced_after", offset).with("bad_sample", sample),
        },
    };
    evidence(out, d, w)
}

/// MP4: the end of the last top-level box.
pub fn validate(d: &[u8]) -> (r: Outcome)
    ensures
        r@ == verdict(d@),
{
    if d.len() < 16 {
        return Outcome::reject("shorter than a file type box").cut_if(begun_at(d));
    }
    // The size precedes the type.
    if bytes::get32(d, 4, true) != 0x6674_7970 {
        return Outcome::reject("no ftyp box at offset 4");
    }
    let ftyp: u32 = bytes::get32(d, 0, true);
    if ftyp < 8 {
        return Outcome::reject("the ftyp box declares a size below its own header");
    }
    if ftyp > 1024 {
        return Outcome::reject(
            text::cat3(
                "the ftyp box declares ",
                text::decimal(ftyp as u64).as_str(),
                " bytes; a real one is tens of bytes, so the preceding four bytes were not a size field",
            ).as_str(),
        );
    }
    if !is_printable(d, 8) {
        return Outcome::reject("the major brand is not four printable characters");
    }
    let w = walk(d);
    conclude(d, &w)
}

proof fn chunk_goes_forward(
    d: Seq<u8>,
    t: Track,
    pos: int,
    left: int,
    sample: int,
    checked: Count,
)
    requires
        pos >= 0,
        0 <= checked.end <= d.len(),
        forall|i: int| 0 <= i < t.sizes.len() ==> #[trigger] t.sizes[i] >= 0,
    ensures
        chunk_from(d, t, pos, left, sample, checked) matches Ok(done) ==> 0 <= done.1.end <= d.len(),
        chunk_from(d, t, pos, left, sample, checked) matches Err(Samples::Spliced { offset, sound, .. })
            ==> offset >= 0 && 0 <= sound <= d.len(),
    decreases left,
{
    if left > 0 && 0 <= sample < t.sizes.len() {
        let end = pos + t.sizes[sample];
        if end <= d.len() {
            chunk_goes_forward(
                d,
                t,
                end,
                left - 1,
                sample + 1,
                Count { samples: checked.samples + 1, end },
            );
        }
    }
}

proof fn chunks_go_forward(d: Seq<u8>, t: Track, k: int, run: int, sample: int, checked: Count)
    requires
        0 <= checked.end <= d.len(),
        forall|i: int| 0 <= i < t.sizes.len() ==> #[trigger] t.sizes[i] >= 0,
        forall|i: int| 0 <= i < t.chunks.len() ==> #[trigger] t.chunks[i] >= 0,
    ensures
        chunks_from(d, t, k, run, sample, checked) matches Ok(done) ==> 0 <= done.end <= d.len(),
        chunks_from(d, t, k, run, sample, checked) matches Err(Samples::Spliced { offset, sound, .. })
            ==> offset >= 0 && 0 <= sound <= d.len(),
    decreases t.chunks.len() - k,
{
    if 0 <= k < t.chunks.len() {
        let r = run_of(t.runs, run, k);
        chunk_goes_forward(d, t, t.chunks[k], t.runs[r].1, sample, checked);
        if let Ok((sample1, checked1)) = chunk_from(
            d,
            t,
            t.chunks[k],
            t.runs[r].1,
            sample,
            checked,
        ) {
            chunks_go_forward(d, t, k + 1, r, sample1, checked1);
        }
    }
}

proof fn tracks_go_forward(d: Seq<u8>, traks: Seq<(int, int)>, i: int, any: bool, checked: Count)
    requires
        0 <= checked.end <= d.len(),
    ensures
        tracks_from(d, traks, i, any, checked) matches Samples::Spliced { offset, sound, .. }
            ==> offset >= 0 && 0 <= sound <= d.len(),
    decreases traks.len() - i,
{
    if 0 <= i < traks.len() {
        match track_at(d, traks[i], i + 1) {
            None => {
                tracks_go_forward(d, traks, i + 1, any, checked);
            },
            Some(t) => {
                chunks_go_forward(d, t, 0, 0, 0, checked);
                if let Ok(checked1) = chunks_from(d, t, 0, 0, 0, checked) {
                    tracks_go_forward(d, traks, i + 1, true, checked1);
                }
            },
        }
    }
}

proof fn boxes_stay_inside(d: Seq<u8>, s: Progress)
    requires
        0 <= s.at <= d.len(),
        s.cut matches Some(c) ==> 0 <= c <= d.len(),
    ensures
        0 <= boxes_from(d, s).at <= d.len(),
        boxes_from(d, s).cut matches Some(c) ==> 0 <= c <= d.len(),
    decreases d.len() - s.at,
{
    if s.at + 8 <= d.len() && printable(d, s.at + 4) {
        if let Some((size, header)) = box_size(d, s.at, d.len() as int) {
            if size >= header && s.at + size <= d.len() {
                let s1 = counted(d, s, size, header);
                boxes_stay_inside(d, Progress { at: s.at + size, ..s1 });
            }
        }
    }
}

/// A rejection claims no length, a complete file is all there, and a damaged
/// one claims no more than was there unless it states its own size.
pub proof fn is_sound(d: Seq<u8>)
    ensures
        verdict(d).sound_for(d.len() as int),
{
    let s = Progress {
        at: 0,
        moov: None,
        saw_moov: false,
        saw_mdat: false,
        boxes: 0,
        unknown: 0,
        cut: None,
    };
    boxes_stay_inside(d, s);
    if let Some(moov) = boxes_from(d, s).moov {
        if bytes::u32_be(d, 0) <= d.len() {
            let traks = children(d, moov.0, moov.1, 0x7472_616B);
            tracks_go_forward(d, traks, 0, false, none_yet(d));
        }
    }
}

} // verus!
