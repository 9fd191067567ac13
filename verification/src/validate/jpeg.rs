//! JPEG: a marker walk, an entropy scan, and restart markers in sequence.
//!
//! `FF D8 FF` is three bytes, and it is also deliberately present inside every
//! JPEG that carries a thumbnail. What separates a real JPEG from a chance
//! match is that the marker segments chain: each declares its own length, and
//! following those lengths must land exactly on the next `FF`.
//!
//! The entropy-coded data is not Huffman-decoded here; see
//! [`super::jpeg_entropy`].

use vstd::prelude::*;
use vstd::slice::*;
use crate::bytes;
use crate::text;
use super::{Outcome, Verdict};

verus! {

broadcast use bytes::slice_fits;

/// How far the markers have been walked.
#[verifier::ext_equal]
pub struct Progress {
    pub at: int,
    pub saw_sof: bool,
    pub saw_sos: bool,
    pub width: int,
    pub height: int,
    pub components: int,
    /// Restart markers passed.
    pub restarts: int,
    /// MCUs between restart markers, or zero where none are declared.
    pub interval: int,
    pub blocks_per_mcu: int,
    pub segments: int,
    /// The furthest point the structure justifies.
    pub verified: int,
}

/// Start-of-frame markers; `C4`, `C8` and `CC` are holes in their range.
pub open spec fn is_frame(m: u8) -> bool {
    0xC0 <= m <= 0xCF && m != 0xC4 && m != 0xC8 && m != 0xCC
}

/// The first offset at or past `at` that holds no fill byte.
pub open spec fn past_fill(d: Seq<u8>, at: int) -> int
    decreases d.len() - at,
{
    if 0 <= at < d.len() && d[at] == 0xFF {
        past_fill(d, at + 1)
    } else {
        at
    }
}

/// Out of data, whatever was seen before.
pub open spec fn truncated_at(s: Progress, why: Seq<char>) -> Verdict {
    if s.saw_sof && s.saw_sos {
        Verdict::partial(s.verified, "truncated: "@ + why).truncated()
    } else {
        Verdict::reject(
            why + ", and no complete frame header and scan were seen first"@,
        ).truncated()
    }
}

/// The segment chain stopped making sense at `at`.
pub open spec fn desync_at(s: Progress, at: int) -> Verdict {
    if s.saw_sof && s.saw_sos {
        Verdict::partial(at, "the marker chain desynchronised after the scan began"@)
    } else {
        Verdict::reject("the marker chain does not hold together; a chance FF D8 FF"@)
    }
}

/// What stopped a scan's entropy-coded data.
pub enum Scan {
    /// A marker that is no restart, at `at`.
    Marker { at: int, verified: int, restarts: int },
    /// `run` bytes without a restart marker, more than the interval allows.
    Spliced { run: int, verified: int, restarts: int },
    /// The restart marker `got` where `expected` was due.
    OutOfSequence { expected: int, got: int, verified: int, restarts: int },
    /// The data ended.
    Ended { verified: int, restarts: int },
}

/// The entropy-coded data from `k` on. `expected` is the restart marker that
/// is due, `since` where the current interval began, and `limit` the most
/// bytes an interval can occupy, where there is one.
pub open spec fn entropy_from(
    d: Seq<u8>,
    k: int,
    expected: int,
    since: int,
    limit: Option<int>,
    verified: int,
    restarts: int,
) -> Scan
    decreases d.len() - k,
{
    if limit matches Some(most) && k - since > most {
        Scan::Spliced { run: k - since, verified, restarts }
    } else if k < 0 || k + 1 >= d.len() {
        Scan::Ended { verified, restarts }
    } else if d[k] != 0xFF {
        entropy_from(d, k + 1, expected, since, limit, verified, restarts)
    } else if d[k + 1] == 0x00 {
        entropy_from(d, k + 2, expected, since, limit, verified, restarts)
    } else if d[k + 1] == 0xFF {
        entropy_from(d, k + 1, expected, since, limit, verified, restarts)
    } else if 0xD0 <= d[k + 1] <= 0xD7 {
        let got = d[k + 1] - 0xD0;
        if got != expected {
            Scan::OutOfSequence { expected, got, verified, restarts }
        } else {
            entropy_from(d, k + 2, (got + 1) % 8, k + 2, limit, k + 2, restarts + 1)
        }
    } else {
        Scan::Marker { at: k, verified, restarts }
    }
}

/// A scan's data ends no earlier than it begins.
pub proof fn entropy_moves_on(
    d: Seq<u8>,
    k: int,
    expected: int,
    since: int,
    limit: Option<int>,
    verified: int,
    restarts: int,
)
    ensures
        entropy_from(d, k, expected, since, limit, verified, restarts) matches Scan::Marker {
            at,
            ..
        } ==> k <= at < d.len(),
    decreases d.len() - k,
{
    if limit matches Some(most) && k - since > most {
    } else if k < 0 || k + 1 >= d.len() {
    } else if d[k] != 0xFF {
        entropy_moves_on(d, k + 1, expected, since, limit, verified, restarts);
    } else if d[k + 1] == 0x00 {
        entropy_moves_on(d, k + 2, expected, since, limit, verified, restarts);
    } else if d[k + 1] == 0xFF {
        entropy_moves_on(d, k + 1, expected, since, limit, verified, restarts);
    } else if 0xD0 <= d[k + 1] <= 0xD7 && d[k + 1] - 0xD0 == expected {
        entropy_moves_on(
            d,
            k + 2,
            (expected + 1) % 8,
            k + 2,
            limit,
            k + 2,
            restarts + 1,
        );
    }
}

/// The most bytes one restart interval can occupy: 512 for each block, more
/// than the format's worst case. Without an interval there is no bound.
pub open spec fn interval_limit(s: Progress) -> Option<int> {
    if s.interval > 0 {
        Some(s.interval * s.blocks_per_mcu * 512)
    } else {
        None
    }
}

/// The blocks in an MCU: one for a single component, else the product of each
/// component's sampling factors, added up, and at least one.
pub open spec fn sampled_blocks(d: Seq<u8>, at: int, components: int, c: int) -> int
    decreases c,
{
    if c <= 0 {
        0
    } else {
        sampled_blocks(d, at, components, c - 1) + (if at + 9 + 3 * (c - 1) < d.len() {
            let s = d[at + 9 + 3 * (c - 1)] as int;
            (s / 16) * (s % 16)
        } else {
            0
        })
    }
}

pub open spec fn blocks_in_mcu(d: Seq<u8>, at: int, components: int) -> int {
    if components == 1 {
        1
    } else {
        bytes::larger(sampled_blocks(d, at, components, components), 1)
    }
}

/// What a segment of length `len` whose length field is at `at` adds, or what
/// is wrong with it.
pub open spec fn segment(d: Seq<u8>, marker: u8, at: int, len: int, s: Progress) -> Result<
    Progress,
    Verdict,
> {
    let s1 = Progress { at: at + len, segments: s.segments + 1, verified: at + len, ..s };
    if marker == 0xDD {
        Ok(
            Progress {
                interval: if bytes::fits(d, at + 2, 2) {
                    bytes::u16_be(d, at + 2)
                } else {
                    0
                },
                ..s1
            },
        )
    } else if is_frame(marker) {
        let height = bytes::u16_be(d, at + 3);
        let width = bytes::u16_be(d, at + 5);
        let components = d[at + 7] as int;
        if len < 8 {
            Ok(Progress { saw_sof: true, ..s1 })
        } else if width == 0 || height == 0 {
            Err(Verdict::reject("frame header declares a zero dimension"@))
        } else if components != 1 && components != 3 && components != 4 {
            Err(
                Verdict::reject(
                    "frame header declares "@ + text::dec(components)
                        + " components; a JPEG has 1, 3 or 4"@,
                ),
            )
        } else {
            Ok(
                Progress {
                    saw_sof: true,
                    width,
                    height,
                    components,
                    blocks_per_mcu: blocks_in_mcu(d, at, components),
                    ..s1
                },
            )
        }
    } else {
        Ok(s1)
    }
}

/// What a scan comes to: the progress at the marker that ends it, or the
/// verdict where it cannot go on.
pub open spec fn scanned(d: Seq<u8>, s: Progress) -> Result<Progress, Verdict> {
    match entropy_from(d, s.at, 0, s.at, interval_limit(s), s.verified, s.restarts) {
        Scan::Marker { at, verified, restarts } => Ok(
            Progress { at, verified, restarts, saw_sos: true, ..s },
        ),
        Scan::Ended { verified, restarts } => Err(
            truncated_at(
                Progress { verified, saw_sos: true, ..s },
                "entropy-coded data runs to the end without EOI"@,
            ),
        ),
        Scan::Spliced { run, verified, restarts } => Err(
            Verdict::partial(
                verified,
                text::dec(run) + " bytes of entropy data without a restart marker, where a "@
                    + text::dec(s.interval) + "-MCU interval allows at most "@ + text::dec(
                    s.interval * s.blocks_per_mcu * 512,
                )
                    + "; the stream is spliced into other data - a fragment boundary or an overwrite - after the last good restart marker"@,
            ).with("width"@, text::dec(s.width)).with("height"@, text::dec(s.height)).with(
                "restart_markers"@,
                text::dec(restarts),
            ).with("restart_interval"@, text::dec(s.interval)).with(
                "spliced_after"@,
                text::dec(verified),
            ),
        ),
        Scan::OutOfSequence { expected, got, verified, restarts } => Err(
            Verdict::partial(
                verified,
                "restart marker RST"@ + text::dec(got) + " where RST"@ + text::dec(expected)
                    + " was due; restart markers cycle strictly, so the entropy data is spliced from somewhere else after the last in-sequence marker"@,
            ).with("width"@, text::dec(s.width)).with("height"@, text::dec(s.height)).with(
                "restart_markers"@,
                text::dec(restarts),
            ).with("restarts_out_of_order"@, text::dec(1)).with(
                "spliced_after"@,
                text::dec(verified),
            ),
        ),
    }
}

/// The marker chain from `s` on.
pub open spec fn markers_from(d: Seq<u8>, s: Progress) -> Verdict
    decreases d.len() - s.at,
    when s.at >= 0
    via markers_move_on
{
    let j = past_fill(d, s.at);
    let marker = d[j];
    let at = j + 1;
    if j >= d.len() {
        truncated_at(s, "ran out of data looking for a marker"@)
    } else if j == s.at {
        desync_at(s, s.at)
    } else if marker == 0xD9 {
        if !s.saw_sof || !s.saw_sos {
            Verdict::reject("reached EOI without a frame header and a scan; not an image"@)
        } else {
            Verdict::valid(at).with("width"@, text::dec(s.width)).with(
                "height"@,
                text::dec(s.height),
            ).with("components"@, text::dec(s.components)).with("segments"@, text::dec(s.segments)).with(
                "restart_markers"@,
                text::dec(s.restarts),
            )
        }
    } else if marker == 0x01 || 0xD0 <= marker <= 0xD7 {
        markers_from(d, Progress { at, ..s })
    } else if marker == 0xD8 {
        desync_at(s, at)
    } else if !bytes::fits(d, at, 2) {
        truncated_at(s, "segment length field is past the end"@)
    } else if bytes::u16_be(d, at) < 2 {
        desync_at(s, at)
    } else if at + bytes::u16_be(d, at) > d.len() {
        truncated_at(s, "a segment extends past the available data"@)
    } else {
        match segment(d, marker, at, bytes::u16_be(d, at), s) {
            Err(v) => v,
            Ok(s1) => if marker == 0xDA {
                match scanned(d, s1) {
                    Err(v) => v,
                    Ok(s2) => markers_from(d, s2),
                }
            } else {
                markers_from(d, s1)
            },
        }
    }
}

/// Fill bytes are passed going forward.
pub proof fn fill_moves_on(d: Seq<u8>, at: int)
    ensures
        past_fill(d, at) >= at,
    decreases d.len() - at,
{
    if 0 <= at < d.len() && d[at] == 0xFF {
        fill_moves_on(d, at + 1);
    }
}

#[via_fn]
proof fn markers_move_on(d: Seq<u8>, s: Progress) {
    fill_moves_on(d, s.at);
    let j = past_fill(d, s.at);
    let at = j + 1;
    if j < d.len() && bytes::fits(d, at, 2) {
        if let Ok(s1) = segment(d, d[j], at, bytes::u16_be(d, at), s) {
            entropy_moves_on(d, s1.at, 0, s1.at, interval_limit(s1), s1.verified, s1.restarts);
        }
    }
}

/// Whether the bytes that are there begin a JPEG.
pub open spec fn begun(d: Seq<u8>) -> bool {
    bytes::may_hold(d, 0, 0xFF) && bytes::may_hold(d, 1, 0xD8)
}

fn begun_at(d: &[u8]) -> (r: bool)
    ensures
        r == begun(d@),
{
    bytes::may_be(d, 0, 0xFF) && bytes::may_be(d, 1, 0xD8)
}

/// What the bytes of `d` are as a JPEG.
pub open spec fn verdict(d: Seq<u8>) -> Verdict {
    if d.len() < 4 {
        Verdict::reject("shorter than a JPEG header"@).cut_if(begun(d))
    } else if d[0] != 0xFF || d[1] != 0xD8 {
        Verdict::reject("does not begin with SOI"@)
    } else {
        markers_from(
            d,
            Progress {
                at: 2,
                saw_sof: false,
                saw_sos: false,
                width: 0,
                height: 0,
                components: 0,
                restarts: 0,
                interval: 0,
                blocks_per_mcu: 1,
                segments: 0,
                verified: 2,
            },
        )
    }
}

/// How far the markers have been walked.
struct Walk {
    at: usize,
    saw_sof: bool,
    saw_sos: bool,
    width: u16,
    height: u16,
    components: u8,
    restarts: u64,
    interval: u64,
    blocks_per_mcu: u64,
    segments: u64,
    verified: usize,
}

impl Walk {
    spec fn view(self) -> Progress {
        Progress {
            at: self.at as int,
            saw_sof: self.saw_sof,
            saw_sos: self.saw_sos,
            width: self.width as int,
            height: self.height as int,
            components: self.components as int,
            restarts: self.restarts as int,
            interval: self.interval as int,
            blocks_per_mcu: self.blocks_per_mcu as int,
            segments: self.segments as int,
            verified: self.verified as int,
        }
    }

    spec fn wf(self, d: Seq<u8>) -> bool {
        &&& 2 <= self.at <= d.len()
        &&& self.interval <= 0xFFFF
        &&& self.blocks_per_mcu <= 900
        &&& self.segments <= self.at
        &&& self.restarts <= self.at
    }

    /// Out of data, but we know what it is.
    fn truncated(&self, why: &str) -> (r: Outcome)
        ensures
            r@ == truncated_at(self.view(), why@),
    {
        if self.saw_sof && self.saw_sos {
            Outcome::partial(
                self.verified as u64,
                text::cat2("truncated: ", why).as_str(),
            ).truncated()
        } else {
            Outcome::reject(
                text::cat2(
                    why,
                    ", and no complete frame header and scan were seen first",
                ).as_str(),
            ).truncated()
        }
    }

    /// The segment chain stopped making sense. For a real JPEG this cannot
    /// happen; for random data it happens almost immediately.
    fn desync(&self, at: usize) -> (r: Outcome)
        ensures
            r@ == desync_at(self.view(), at as int),
    {
        if self.saw_sof && self.saw_sos {
            Outcome::partial(at as u64, "the marker chain desynchronised after the scan began")
        } else {
            Outcome::reject("the marker chain does not hold together; a chance FF D8 FF")
        }
    }

    /// Take in a segment of `len` bytes whose length field is at `at`.
    fn segment(&mut self, d: &[u8], marker: u8, at: usize, len: usize) -> (r: Option<Outcome>)
        requires
            old(self).wf(d@),
            2 <= len <= 0xFFFF,
            old(self).at < at,
            at + len <= d@.len(),
        ensures
            match segment(d@, marker, at as int, len as int, old(self).view()) {
                Err(v) => r matches Some(o) && o@ == v,
                Ok(s) => r is None && final(self).view() == s && final(self).wf(d@)
                    && final(self).restarts == old(self).restarts,
            },
    {
        self.at = at + len;
        self.segments = self.segments + 1;
        self.verified = at + len;
        if marker == 0xDD {
            self.interval = match bytes::be16(d, at + 2) {
                Some(v) => v as u64,
                None => 0,
            };
            return None;
        }
        if is_sof(marker) {
            self.saw_sof = true;
            // Precision, height, width, component count, then three bytes for
            // each component.
            if len >= 8 {
                let h: u16 = bytes::get16(d, at + 3, true);
                let w: u16 = bytes::get16(d, at + 5, true);
                let components: u8 = d[at + 7];
                if w == 0 || h == 0 {
                    return Some(Outcome::reject("frame header declares a zero dimension"));
                }
                if components != 1 && components != 3 && components != 4 {
                    return Some(
                        Outcome::reject(
                            text::cat3(
                                "frame header declares ",
                                text::decimal(components as u64).as_str(),
                                " components; a JPEG has 1, 3 or 4",
                            ).as_str(),
                        ),
                    );
                }
                self.components = components;
                self.width = w;
                self.height = h;
                self.blocks_per_mcu = count_blocks(d, at, components);
            }
        }
        None
    }
}

/// Start-of-frame markers.
fn is_sof(m: u8) -> (r: bool)
    ensures
        r == is_frame(m),
{
    0xC0 <= m && m <= 0xCF && m != 0xC4 && m != 0xC8 && m != 0xCC
}

fn count_blocks(d: &[u8], at: usize, components: u8) -> (r: u64)
    requires
        at + 8 <= d@.len(),
        components <= 4,
    ensures
        r == blocks_in_mcu(d@, at as int, components as int),
        r <= 900,
{
    if components == 1 {
        return 1;
    }
    let mut sum: u64 = 0;
    let mut c: usize = 0;
    while c < components as usize
        invariant
            c <= components <= 4,
            at + 8 <= d@.len(),
            sum == sampled_blocks(d@, at as int, components as int, c as int),
            sum <= 225 * c,
        decreases components - c,
    {
        let past: usize = d.len() - at;
        if 9 + 3 * c < past {
            let s: u8 = d[at + 9 + 3 * c];
            assert(0 <= (s / 16) * (s % 16) <= 225) by (nonlinear_arith)
                requires
                    s / 16 <= 15,
                    s % 16 <= 15,
            ;
            sum = sum + (s / 16) as u64 * (s % 16) as u64;
        }
        c += 1;
    }
    bytes::max64(sum, 1)
}

/// What stopped a scan's entropy-coded data.
enum Stopped {
    Marker { at: usize },
    Spliced { run: u64 },
    OutOfSequence { expected: u8, got: u8 },
    Ended,
}

/// Walk the entropy-coded data that begins at `w.at`, and keep `w` up with the
/// last restart marker in sequence.
fn scan_entropy(d: &[u8], w: &mut Walk, limit: Option<u64>) -> (r: Stopped)
    requires
        old(w).wf(d@),
    ensures
        match (
            r,
            entropy_from(
                d@,
                old(w).at as int,
                0,
                old(w).at as int,
                match limit {
                    Some(n) => Some(n as int),
                    None => None,
                },
                old(w).verified as int,
                old(w).restarts as int,
            ),
        ) {
            (Stopped::Marker { at }, Scan::Marker { at: at2, verified, restarts }) => {
                &&& at == at2
                &&& old(w).at <= at < d@.len()
                &&& restarts <= at
                &&& final(w).view() == (Progress { verified, restarts, ..old(w).view() })
            },
            (Stopped::Spliced { run }, Scan::Spliced { run: run2, verified, restarts }) => run == run2
                && final(w).view() == (Progress { verified, restarts, ..old(w).view() }),
            (
                Stopped::OutOfSequence { expected, got },
                Scan::OutOfSequence { expected: e2, got: g2, verified, restarts },
            ) => expected == e2 && got == g2 && final(w).view() == (Progress {
                verified,
                restarts,
                ..old(w).view()
            }),
            (Stopped::Ended, Scan::Ended { verified, restarts }) => final(w).view() == (Progress {
                verified,
                restarts,
                ..old(w).view()
            }),
            _ => false,
        },
{
    let ghost most: Option<int> = match limit {
        Some(n) => Some(n as int),
        None => None,
    };
    let ghost whole = entropy_from(
        d@,
        w.at as int,
        0,
        w.at as int,
        most,
        w.verified as int,
        w.restarts as int,
    );
    let mut k: usize = w.at;
    let mut expected: u8 = 0;
    let mut since: usize = k;
    loop
        invariant
            w.at <= since <= k <= d@.len(),
            w.at == old(w).at,
            w.restarts <= k,
            expected < 8,
            most == (match limit {
                Some(n) => Some(n as int),
                None => None,
            }),
            w.view() == (Progress {
                verified: w.verified as int,
                restarts: w.restarts as int,
                ..old(w).view()
            }),
            whole == entropy_from(
                d@,
                k as int,
                expected as int,
                since as int,
                most,
                w.verified as int,
                w.restarts as int,
            ),
            whole == entropy_from(
                d@,
                old(w).at as int,
                0,
                old(w).at as int,
                most,
                old(w).verified as int,
                old(w).restarts as int,
            ),
        decreases d@.len() - k,
    {
        if let Some(n) = limit {
            let run: u64 = (k - since) as u64;
            if run > n {
                // Far more data between two restart markers than the declared
                // interval can hold: the stream is spliced into something else.
                return Stopped::Spliced { run };
            }
        }
        if k >= d.len() || d.len() - k < 2 {
            return Stopped::Ended;
        }
        if d[k] != 0xFF {
            k += 1;
            continue;
        }
        let b: u8 = d[k + 1];
        if b == 0x00 {
            k = k + 2;
        } else if b == 0xFF {
            k = k + 1;
        } else if 0xD0 <= b && b <= 0xD7 {
            if b - 0xD0 != expected {
                // Restart markers cycle strictly within a scan, so one out of
                // sequence is data from somewhere else.
                return Stopped::OutOfSequence { expected, got: b - 0xD0 };
            }
            w.restarts = w.restarts + 1;
            expected = (b - 0xD0 + 1) % 8;
            k = k + 2;
            // A restart marker is a structural landmark, so everything up to
            // it is justified.
            w.verified = k;
            since = k;
        } else {
            return Stopped::Marker { at: k };
        }
    }
}

/// Walk the scan that begins at `w.at` up to the marker that ends it.
fn walk_scan(d: &[u8], w: &mut Walk) -> (r: Option<Outcome>)
    requires
        old(w).wf(d@),
    ensures
        match scanned(d@, old(w).view()) {
            Err(v) => r matches Some(o) && o@ == v,
            Ok(s) => r is None && final(w).view() == s && final(w).wf(d@) && old(w).at
                <= final(w).at,
        },
{
    let ghost s = w.view();
    assert(0 <= w.interval * w.blocks_per_mcu <= 0xFFFF * 900) by (nonlinear_arith)
        requires
            w.interval <= 0xFFFF,
            w.blocks_per_mcu <= 900,
    ;
    let most: u64 = w.interval * w.blocks_per_mcu * 512;
    let limit: Option<u64> = if w.interval > 0 {
        Some(most)
    } else {
        None
    };
    let stopped = scan_entropy(d, w, limit);
    w.saw_sos = true;
    match stopped {
        Stopped::Marker { at } => {
            w.at = at;
            None
        },
        Stopped::Ended => Some(w.truncated("entropy-coded data runs to the end without EOI")),
        Stopped::Spliced { run } => Some(
            Outcome::partial(
                w.verified as u64,
                text::cat6(
                    text::decimal(run).as_str(),
                    " bytes of entropy data without a restart marker, where a ",
                    text::decimal(w.interval).as_str(),
                    "-MCU interval allows at most ",
                    text::decimal(most).as_str(),
                    "; the stream is spliced into other data - a fragment boundary or an overwrite - after the last good restart marker",
                ).as_str(),
            ).with("width", w.width).with("height", w.height).with(
                "restart_markers",
                w.restarts,
            ).with("restart_interval", w.interval).with("spliced_after", w.verified),
        ),
        Stopped::OutOfSequence { expected, got } => Some(
            Outcome::partial(
                w.verified as u64,
                text::cat5(
                    "restart marker RST",
                    text::decimal(got as u64).as_str(),
                    " where RST",
                    text::decimal(expected as u64).as_str(),
                    " was due; restart markers cycle strictly, so the entropy data is spliced from somewhere else after the last in-sequence marker",
                ).as_str(),
            ).with("width", w.width).with("height", w.height).with(
                "restart_markers",
                w.restarts,
            ).with("restarts_out_of_order", 1u64).with("spliced_after", w.verified),
        ),
    }
}

/// The first offset at or past `at` that holds no fill byte.
fn skip_fill(d: &[u8], at: usize) -> (j: usize)
    requires
        at <= d@.len(),
    ensures
        j == past_fill(d@, at as int),
        at <= j <= d@.len(),
{
    let mut j: usize = at;
    while j < d.len() && d[j] == 0xFF
        invariant
            at <= j <= d@.len(),
            past_fill(d@, at as int) == past_fill(d@, j as int),
        decreases d@.len() - j,
    {
        j += 1;
    }
    j
}

/// JPEG: the end-of-image marker, reached along the marker chain.
pub fn validate(d: &[u8]) -> (r: Outcome)
    ensures
        r@ == verdict(d@),
{
    if d.len() < 4 {
        return Outcome::reject("shorter than a JPEG header").cut_if(begun_at(d));
    }
    if d[0] != 0xFF || d[1] != 0xD8 {
        return Outcome::reject("does not begin with SOI");
    }
    let mut w = Walk {
        at: 2,
        saw_sof: false,
        saw_sos: false,
        width: 0,
        height: 0,
        components: 0,
        restarts: 0,
        interval: 0,
        blocks_per_mcu: 1,
        segments: 0,
        verified: 2,
    };
    loop
        invariant
            w.wf(d@),
            verdict(d@) == markers_from(d@, w.view()),
        decreases d@.len() - w.at,
    {
        // A stream may pad with any number of FFs before a marker.
        let j: usize = skip_fill(d, w.at);
        if j >= d.len() {
            return w.truncated("ran out of data looking for a marker");
        }
        // We must have crossed at least one FF to be at a marker at all.
        if j == w.at {
            return w.desync(j);
        }
        let marker: u8 = d[j];
        let at: usize = j + 1;
        if marker == 0xD9 {
            if !w.saw_sof || !w.saw_sos {
                return Outcome::reject(
                    "reached EOI without a frame header and a scan; not an image",
                );
            }
            return Outcome::valid(at as u64).with("width", w.width).with(
                "height",
                w.height,
            ).with("components", w.components).with("segments", w.segments).with(
                "restart_markers",
                w.restarts,
            );
        }
        if marker == 0x01 || (0xD0 <= marker && marker <= 0xD7) {
            w.at = at;
            continue;
        }
        if marker == 0xD8 {
            // A second SOI at the top level is not legal.
            return w.desync(at);
        }
        // Everything else carries a two-byte length that counts itself.
        let len: usize = match bytes::be16(d, at) {
            Some(n) => n as usize,
            None => {
                return w.truncated("segment length field is past the end");
            },
        };
        if len < 2 {
            return w.desync(at);
        }
        if len > d.len() - at {
            return w.truncated("a segment extends past the available data");
        }
        if let Some(out) = w.segment(d, marker, at, len) {
            return out;
        }
        if marker == 0xDA {
            if let Some(out) = walk_scan(d, &mut w) {
                return out;
            }
        }
    }
}

/// How far a scan vouches lies inside the data.
pub open spec fn vouched(s: Scan) -> int {
    match s {
        Scan::Marker { verified, .. } => verified,
        Scan::Spliced { verified, .. } => verified,
        Scan::OutOfSequence { verified, .. } => verified,
        Scan::Ended { verified, .. } => verified,
    }
}

proof fn entropy_stays_inside(
    d: Seq<u8>,
    k: int,
    expected: int,
    since: int,
    limit: Option<int>,
    verified: int,
    restarts: int,
)
    requires
        0 <= verified <= d.len(),
    ensures
        0 <= vouched(entropy_from(d, k, expected, since, limit, verified, restarts)) <= d.len(),
    decreases d.len() - k,
{
    if limit matches Some(most) && k - since > most {
    } else if k < 0 || k + 1 >= d.len() {
    } else if d[k] != 0xFF {
        entropy_stays_inside(d, k + 1, expected, since, limit, verified, restarts);
    } else if d[k + 1] == 0x00 {
        entropy_stays_inside(d, k + 2, expected, since, limit, verified, restarts);
    } else if d[k + 1] == 0xFF {
        entropy_stays_inside(d, k + 1, expected, since, limit, verified, restarts);
    } else if 0xD0 <= d[k + 1] <= 0xD7 && d[k + 1] - 0xD0 == expected {
        entropy_stays_inside(
            d,
            k + 2,
            (expected + 1) % 8,
            k + 2,
            limit,
            k + 2,
            restarts + 1,
        );
    }
}

proof fn markers_stay_inside(d: Seq<u8>, s: Progress)
    requires
        0 <= s.at <= d.len(),
        0 <= s.verified <= d.len(),
    ensures
        markers_from(d, s).sound_for(d.len() as int),
    decreases d.len() - s.at,
{
    fill_moves_on(d, s.at);
    let j = past_fill(d, s.at);
    let at = j + 1;
    if j < d.len() && j != s.at && d[j] != 0xD9 {
        if d[j] == 0x01 || 0xD0 <= d[j] <= 0xD7 {
            markers_stay_inside(d, Progress { at, ..s });
        } else if d[j] != 0xD8 && bytes::fits(d, at, 2) && bytes::u16_be(d, at) >= 2 && at
            + bytes::u16_be(d, at) <= d.len() {
            if let Ok(s1) = segment(d, d[j], at, bytes::u16_be(d, at), s) {
                if d[j] == 0xDA {
                    entropy_moves_on(
                        d,
                        s1.at,
                        0,
                        s1.at,
                        interval_limit(s1),
                        s1.verified,
                        s1.restarts,
                    );
                    entropy_stays_inside(
                        d,
                        s1.at,
                        0,
                        s1.at,
                        interval_limit(s1),
                        s1.verified,
                        s1.restarts,
                    );
                    if let Ok(s2) = scanned(d, s1) {
                        markers_stay_inside(d, s2);
                    }
                } else {
                    markers_stay_inside(d, s1);
                }
            }
        }
    }
}

/// A rejection claims no length, a complete file is all there, and a damaged
/// one claims no more than was there unless it states its own size.
pub proof fn is_sound(d: Seq<u8>)
    ensures
        verdict(d).sound_for(d.len() as int),
{
    if d.len() >= 4 {
        markers_stay_inside(
            d,
            Progress {
                at: 2,
                saw_sof: false,
                saw_sos: false,
                width: 0,
                height: 0,
                components: 0,
                restarts: 0,
                interval: 0,
                blocks_per_mcu: 1,
                segments: 0,
                verified: 2,
            },
        );
    }
}

} // verus!
