//! The scanner: find candidate files in raw sectors.
//!
//! A scan reads large blocks, finds header matches in each, and puts every
//! match to its validator on a second, bounded read. Reading is the caller's
//! work: the functions here plan each read and decide what its bytes mean.
//! [`scan`] and [`scan_segment`] do the whole of it over a device image that is
//! already in memory.
//!
//! A scan may be split into segments, so that it can checkpoint and resume.
//! Segments with their [`Carry`] threaded through find what one scan finds;
//! [`segments_add_up`] states it.

pub mod contain;
pub mod hits;
pub mod laws;
pub mod session;

use vstd::prelude::*;
use vstd::slice::*;
use vstd::string::*;
use crate::bytes;
use crate::error::{CarveError, Result};
use crate::prefilter;
use crate::prefilter::ScanIndex;
use crate::signature;
use crate::signature::{Category, Format, Signature, SignatureDb};
use crate::text;
use crate::validate;
use crate::validate::{Outcome, Status, Verdict};
use hits::Hit;

verus! {

broadcast use bytes::slice_fits;

/// How much data to hand a validator for one candidate. Most validators must
/// walk to the end of the file, so this bounds how large a file can be
/// established exactly.
pub const DEFAULT_VALIDATION_WINDOW: usize = 0x100_0000;

/// Bytes read per sequential read.
pub const DEFAULT_BLOCK: usize = 0x40_0000;

#[derive(Clone, Debug)]
pub struct ScanOptions {
    pub block_bytes: usize,
    /// Worker threads. `None` uses the available parallelism, capped.
    pub threads: Option<usize>,
    /// Run validators. With this off the scan reports raw header matches.
    pub validate: bool,
    pub validation_window: usize,
    /// Restrict the scan to these signature ids.
    pub only: Option<Vec<String>>,
    /// Drop candidates wholly inside a structurally complete candidate.
    pub suppress_contained: bool,
    /// Stop after this many candidates. A safety bound: hitting it is reported
    /// in [`ScanStats::truncated`].
    pub max_candidates: usize,
}

impl Default for ScanOptions {
    fn default() -> (r: ScanOptions)
        ensures
            r.block_bytes == DEFAULT_BLOCK,
            r.threads is None,
            r.validate,
            r.validation_window == DEFAULT_VALIDATION_WINDOW,
            r.only is None,
            r.suppress_contained,
            r.max_candidates == 5_000_000,
    {
        ScanOptions {
            block_bytes: DEFAULT_BLOCK,
            threads: None,
            validate: true,
            validation_window: DEFAULT_VALIDATION_WINDOW,
            only: None,
            suppress_contained: true,
            max_candidates: 5_000_000,
        }
    }
}

/// Every number needed to judge a scan, kept separate on purpose.
#[derive(Clone, Debug)]
pub struct ScanStats {
    pub bytes_scanned: u64,
    /// How long the scan took, where the caller measured it.
    pub elapsed_nanos: u64,
    /// Positions the prefilter flagged as worth a full comparison.
    pub prefilter_hits: u64,
    /// Prefilter hits that actually matched a signature header. This is the
    /// scanner's raw output and the denominator that matters.
    pub header_matches: u64,
    /// Header matches a validator accepted.
    pub validated: u64,
    /// Header matches a validator rejected.
    pub rejected: u64,
    /// Accepted candidates dropped as contained inside a larger one.
    pub suppressed_contained: u64,
    /// Candidates whose format permits a file larger than the validation
    /// window, so their verdict was reached on a truncated view.
    pub window_capped: u64,
    /// Candidates whose reported length was discarded because it was just the
    /// size of the validation window rather than anything the file established.
    pub window_artifact_lengths: u64,
    /// `max_candidates` was reached and the scan stopped early.
    pub truncated: bool,
    pub strategy: &'static str,
    pub threads: usize,
    pub signatures: usize,
}

impl Default for ScanStats {
    fn default() -> (r: ScanStats)
        ensures
            r.bytes_scanned == 0,
            r.elapsed_nanos == 0,
            r.prefilter_hits == 0,
            r.header_matches == 0,
            r.validated == 0,
            r.rejected == 0,
            r.suppressed_contained == 0,
            r.window_capped == 0,
            r.window_artifact_lengths == 0,
            !r.truncated,
            r.strategy@ == ""@,
            r.threads == 0,
            r.signatures == 0,
    {
        ScanStats {
            bytes_scanned: 0,
            elapsed_nanos: 0,
            prefilter_hits: 0,
            header_matches: 0,
            validated: 0,
            rejected: 0,
            suppressed_contained: 0,
            window_capped: 0,
            window_artifact_lengths: 0,
            truncated: false,
            strategy: "",
            threads: 0,
            signatures: 0,
        }
    }
}

impl ScanStats {
    /// What is to be said of the throughput, where the region scanned is small
    /// enough to sit in memory.
    pub open spec fn warned(self) -> Option<Seq<char>> {
        if self.bytes_scanned < 0x8000_0000 {
            Some(
                "the scanned region is small enough to be served from the page cache; this MB/s figure is not a device throughput"@,
            )
        } else {
            None
        }
    }

    /// A throughput figure from a source small enough to sit in RAM measures
    /// the page cache. Say so rather than printing it as a device speed.
    pub fn cache_warning(&self) -> (r: Option<&'static str>)
        ensures
            match r {
                Some(w) => self.warned() == Some(w@),
                None => self.warned() is None,
            },
    {
        if self.bytes_scanned < 0x8000_0000 {
            Some(
                "the scanned region is small enough to be served from the page cache; this MB/s figure is not a device throughput",
            )
        } else {
            None
        }
    }
}

pub struct ScanResult {
    pub candidates: Vec<Candidate>,
    pub stats: ScanStats,
}

/// What one segment of a scan hands to the next: the furthest end of a complete
/// file already kept, so that what lies inside one that began in an earlier
/// segment is still suppressed, and how many candidates were counted.
#[derive(Clone, Copy, Debug, PartialEq, Eq, Structural)]
pub struct Carry {
    pub cover_end: u64,
    pub candidates: u64,
}

impl Default for Carry {
    fn default() -> (r: Carry)
        ensures
            r == (Carry { cover_end: 0, candidates: 0 }),
    {
        Carry { cover_end: 0, candidates: 0 }
    }
}

/// How many workers to use: as many as asked for, else as many as the machine
/// has, else four; between one and eight, since past that the reader is the
/// limit.
pub open spec fn workers(asked: Option<usize>, available: Option<usize>) -> int {
    let n = match (asked, available) {
        (Some(n), _) => n as int,
        (None, Some(n)) => n as int,
        (None, None) => 4,
    };
    if n < 1 {
        1
    } else if n > 8 {
        8
    } else {
        n
    }
}

pub fn worker_count(asked: Option<usize>, available: Option<usize>) -> (r: usize)
    ensures
        r == workers(asked, available),
{
    let n: usize = match asked {
        Some(n) => n,
        None => match available {
            Some(n) => n,
            None => 4,
        },
    };
    if n < 1 {
        1
    } else if n > 8 {
        8
    } else {
        n
    }
}

/// One thing the scanner thinks might be a file.
#[derive(Clone, Debug)]
pub struct Candidate {
    /// Byte offset from the start of the scanned device.
    pub offset: u64,
    /// Established length. Zero when the candidate was never validated.
    pub length: u64,
    pub signature_id: String,
    /// The extension to use, after any refinement a validator made: `docx`
    /// rather than `zip`.
    pub ext: String,
    pub category: Category,
    pub status: Status,
    pub detail: String,
    pub evidence: Vec<(&'static str, String)>,
    /// Whether `length` is the file's real size or a floor. Only an
    /// established length is allowed to suppress overlapping candidates.
    pub length_established: bool,
    /// How many bytes of header this signature had to match, counting the
    /// offset it sits at. Where two signatures describe the same bytes, the
    /// longer match is the more specific claim.
    pub header_span: usize,
}

/// The mathematical content of a [`Candidate`].
#[verifier::ext_equal]
pub struct Found {
    pub offset: int,
    pub length: int,
    pub signature_id: Seq<char>,
    pub ext: Seq<char>,
    pub category: Category,
    pub status: Status,
    pub detail: Seq<char>,
    pub evidence: Seq<(Seq<char>, Seq<char>)>,
    pub length_established: bool,
    pub header_span: int,
}

impl View for Candidate {
    type V = Found;

    open spec fn view(&self) -> Found {
        Found {
            offset: self.offset as int,
            length: self.length as int,
            signature_id: self.signature_id@,
            ext: self.ext@,
            category: self.category,
            status: self.status,
            detail: self.detail@,
            evidence: self.evidence@.map_values(|e: (&'static str, String)| validate::entry(e)),
            length_established: self.length_established,
            header_span: self.header_span as int,
        }
    }
}

/// The content of every candidate.
pub open spec fn all_found(c: Seq<Candidate>) -> Seq<Found> {
    Seq::new(c.len(), |i: int| c[i]@)
}

impl Found {
    /// Where it ends, as far as 64 bits can say.
    pub open spec fn end(self) -> int {
        bytes::capped(self.offset + self.length)
    }
}

impl Candidate {
    pub fn end(&self) -> (r: u64)
        ensures
            r == self@.end(),
    {
        bytes::add_capped(self.offset, self.length)
    }
}

// ---------------------------------------------------------------------------
// Choosing signatures
// ---------------------------------------------------------------------------

/// The ids a scan is restricted to.
pub open spec fn wanted(only: Option<Vec<String>>) -> Option<Seq<Seq<char>>> {
    match only {
        Some(ids) => Some(text::texts(ids@)),
        None => None,
    }
}

/// Of the first `n` formats, those the scan is restricted to.
pub open spec fn chosen_upto(f: Seq<Format>, only: Option<Seq<Seq<char>>>, n: int) -> Seq<Format>
    decreases n,
{
    if n <= 0 {
        Seq::empty()
    } else if only is None || only->Some_0.contains(f[n - 1].id) {
        chosen_upto(f, only, n - 1).push(f[n - 1])
    } else {
        chosen_upto(f, only, n - 1)
    }
}

/// The formats a scan looks for.
pub open spec fn chosen(f: Seq<Format>, only: Option<Seq<Seq<char>>>) -> Seq<Format> {
    chosen_upto(f, only, f.len() as int)
}

fn is_among(ids: &Vec<String>, id: &str) -> (r: bool)
    ensures
        r == text::texts(ids@).contains(id@),
{
    let mut i: usize = 0;
    while i < ids.len()
        invariant
            i <= ids@.len(),
            forall|k: int| 0 <= k < i ==> text::texts(ids@)[k] != id@,
        decreases ids@.len() - i,
    {
        assert(text::texts(ids@)[i as int] == ids@[i as int]@);
        if text::same_text(ids[i].as_str(), id) {
            return true;
        }
        i += 1;
    }
    false
}

/// A format that a scan is restricted to is one of those it looks for.
proof fn what_is_wanted_is_chosen(f: Seq<Format>, only: Option<Seq<Seq<char>>>, i: int, n: int)
    requires
        0 <= i < n <= f.len(),
        only is None || only->Some_0.contains(f[i].id),
    ensures
        chosen_upto(f, only, n).contains(f[i]),
    decreases n,
{
    let now = chosen_upto(f, only, n);
    if i == n - 1 {
        assert(now.last() == f[i]);
    } else {
        what_is_wanted_is_chosen(f, only, i, n - 1);
        let before = chosen_upto(f, only, n - 1);
        let k = choose|k: int| 0 <= k < before.len() && before[k] == f[i];
        assert(now[k] == f[i]);
    }
}

/// Whether every header's end can be counted in a `usize`.
pub open spec fn countable(f: Seq<Format>) -> bool {
    forall|i: int| 0 <= i < f.len() ==> (#[trigger] f[i]).span() <= usize::MAX
}

/// Index the signatures a scan is restricted to.
pub fn prepare<'a>(db: &'a SignatureDb, only: &Option<Vec<String>>) -> (r: Result<ScanIndex<'a>>)
    requires
        countable(chosen(db@, wanted(*only))),
    ensures
        match r {
            Ok(index) => {
                &&& index.wf()
                &&& index.lets_through()
                &&& index.formats() == chosen(db@, wanted(*only))
                &&& index.formats().len() > 0
                &&& index.span() == signature::longest_span(
                    index.formats(),
                    index.formats().len() as int,
                )
            },
            Err(e) => {
                &&& chosen(db@, wanted(*only)).len() == 0
                &&& e matches CarveError::SignatureDb { detail } && detail@
                    == "no signatures selected for the scan"@
            },
        },
{
    let mut sigs: Vec<&'a Signature> = Vec::new();
    let mut span: usize = 0;
    let mut i: usize = 0;
    assert(prefilter::formats_of(sigs@) =~= Seq::<Format>::empty());
    while i < db.signatures.len()
        invariant
            i <= db.signatures@.len(),
            countable(chosen(db@, wanted(*only))),
            sigs@.len() <= i,
            prefilter::formats_of(sigs@) == chosen_upto(db@, wanted(*only), i as int),
            forall|k: int| 0 <= k < sigs@.len() ==> (#[trigger] sigs@[k]).fits(),
            span == signature::longest_span(prefilter::formats_of(sigs@), sigs@.len() as int),
        decreases db.signatures@.len() - i,
    {
        assert(db@[i as int] == db.signatures@[i as int]@);
        let take: bool = match only {
            None => true,
            Some(ids) => is_among(ids, db.signatures[i].id.as_str()),
        };
        if take {
            let ghost before = prefilter::formats_of(sigs@);
            let s: &'a Signature = &db.signatures[i];
            proof {
                what_is_wanted_is_chosen(db@, wanted(*only), i as int, db@.len() as int);
                assert(s.fits());
            }
            sigs.push(s);
            assert(prefilter::formats_of(sigs@) =~= before.push(s@));
            proof {
                spans_of_a_prefix(before, s@, before.len() as int);
            }
            let here: usize = s.header_offset + s.header.len();
            if here > span {
                span = here;
            }
        }
        i += 1;
    }
    if sigs.len() == 0 {
        assert(prefilter::formats_of(sigs@).len() == 0);
        return Err(
            CarveError::SignatureDb { detail: "no signatures selected for the scan".to_owned() },
        );
    }
    Ok(ScanIndex::from_signatures(sigs, span))
}

proof fn spans_of_a_prefix(f: Seq<Format>, x: Format, n: int)
    requires
        0 <= n <= f.len(),
    ensures
        signature::longest_span(f.push(x), n) == signature::longest_span(f, n),
    decreases n,
{
    if n > 0 {
        spans_of_a_prefix(f, x, n - 1);
    }
}

// ---------------------------------------------------------------------------
// Judging a header match
// ---------------------------------------------------------------------------

/// The read that a validator needs for one candidate.
#[derive(Clone, Copy, Debug, PartialEq, Eq, Structural)]
pub struct ReadPlan {
    /// Bytes to read.
    pub want: usize,
    /// Whether the format permits a file larger than the window, and the range
    /// holds more than that.
    pub capped: bool,
}

/// How much of a candidate can be reached: what its format permits, and what
/// the range holds.
pub open spec fn reachable(f: Format, offset: int, range_end: int) -> int {
    let remaining = if range_end >= offset {
        range_end - offset
    } else {
        0
    };
    if f.max_size <= remaining {
        f.max_size
    } else {
        remaining
    }
}

/// How many bytes to read of a candidate.
pub open spec fn window_of(f: Format, offset: int, range_end: int, window: int) -> int {
    if reachable(f, offset, range_end) <= window {
        reachable(f, offset, range_end)
    } else {
        window
    }
}

/// Plan the read of a candidate. It is bounded by the whole range, not by the
/// segment: a file may run on past the segment it starts in.
pub fn plan_read(sig: &Signature, offset: u64, range_end: u64, window: usize) -> (r: ReadPlan)
    ensures
        r.want == window_of(sig@, offset as int, range_end as int, window as int),
        r.capped == (reachable(sig@, offset as int, range_end as int) > window),
{
    let remaining: u64 = if range_end >= offset {
        range_end - offset
    } else {
        0
    };
    let reach: u64 = if sig.max_size <= remaining {
        sig.max_size
    } else {
        remaining
    };
    let capped: bool = reach > window as u64;
    let want: usize = if capped {
        window
    } else {
        reach as usize
    };
    ReadPlan { want, capped }
}

/// A candidate that no validator judged.
pub open spec fn unjudged(f: Format, offset: int, detail: Seq<char>) -> Found {
    Found {
        offset,
        length: 0,
        signature_id: f.id,
        ext: f.ext,
        category: f.category,
        status: Status::Partial,
        detail,
        evidence: Seq::empty(),
        length_established: false,
        header_span: f.span(),
    }
}

/// Whether a length is only the size of the view: the view was cut by the
/// window, the file established no length, and all of the view is claimed.
pub open spec fn window_artifact(v: Verdict, got: int, capped: bool) -> bool {
    capped && !v.length_established && v.length >= got
}

/// The candidate that an accepted verdict on `got` bytes makes.
pub open spec fn judged(
    f: Format,
    offset: int,
    v: Verdict,
    got: int,
    capped: bool,
    window: int,
) -> Found {
    let artifact = window_artifact(v, got, capped);
    Found {
        offset,
        length: if artifact {
            0
        } else {
            v.length
        },
        signature_id: f.id,
        ext: match v.refined_ext {
            Some(e) => e,
            None => f.ext,
        },
        category: f.category,
        status: v.status,
        detail: if artifact {
            v.detail + " (length not established: the "@ + text::dec(window / 0x10_0000)
                + " MiB validation window was reached, so no end could be found)"@
        } else {
            v.detail
        },
        evidence: v.evidence,
        length_established: v.length_established,
        header_span: f.span(),
    }
}

/// What the validation of one header match came to.
pub enum Judgement {
    /// The signature names a validator that does not exist.
    Unknown,
    Rejected,
    Kept { candidate: Candidate, artifact: bool },
}

/// The candidate of a header match that is not put to a validator.
pub fn without_verdict(sig: &Signature, offset: u64, detail: &str) -> (r: Candidate)
    requires
        sig.fits(),
    ensures
        r@ == unjudged(sig@, offset as int, detail@),
{
    let r = Candidate {
        offset,
        length: 0,
        signature_id: sig.id.clone(),
        ext: sig.ext.clone(),
        category: sig.category,
        status: Status::Partial,
        detail: detail.to_owned(),
        evidence: Vec::new(),
        length_established: false,
        header_span: sig.header_offset + sig.header.len(),
    };
    assert(r@.evidence =~= Seq::<(Seq<char>, Seq<char>)>::empty());
    r
}

/// Put a header match to the validator `id`, on the bytes `data` read at its
/// offset.
pub fn judge(
    sig: &Signature,
    id: &str,
    offset: u64,
    data: &[u8],
    capped: bool,
    window: usize,
) -> (r: Judgement)
    requires
        sig.fits(),
    ensures
        match r {
            Judgement::Unknown => validate::verdict_of(id@, data@) is None,
            Judgement::Rejected => validate::verdict_of(id@, data@) matches Some(v) && v.status
                == Status::Rejected,
            Judgement::Kept { candidate, artifact } => validate::verdict_of(id@, data@) matches Some(
                v,
            ) && v.status != Status::Rejected && candidate@ == judged(
                sig@,
                offset as int,
                v,
                data@.len() as int,
                capped,
                window as int,
            ) && artifact == window_artifact(v, data@.len() as int, capped),
        },
{
    let out: Outcome = match validate::validate(id, data) {
        Some(o) => o,
        None => {
            return Judgement::Unknown;
        },
    };
    if out.status == Status::Rejected {
        return Judgement::Rejected;
    }
    // A length equal to the window is not a length, it is the window.
    let artifact: bool = capped && !out.length_established && out.length >= data.len() as u64;
    let length: u64 = if artifact {
        0
    } else {
        out.length
    };
    let ext: String = match out.refined_ext {
        Some(e) => e.to_owned(),
        None => sig.ext.clone(),
    };
    let detail: String = if artifact {
        text::cat4(
            out.detail.as_str(),
            " (length not established: the ",
            text::decimal((window / 0x10_0000) as u64).as_str(),
            " MiB validation window was reached, so no end could be found)",
        )
    } else {
        out.detail
    };
    let candidate = Candidate {
        offset,
        length,
        signature_id: sig.id.clone(),
        ext,
        category: sig.category,
        status: out.status,
        detail,
        evidence: out.evidence,
        length_established: out.length_established,
        header_span: sig.header_offset + sig.header.len(),
    };
    Judgement::Kept { candidate, artifact }
}

// ---------------------------------------------------------------------------
// A whole scan
// ---------------------------------------------------------------------------

/// The part of a device that a read of `want` bytes at `at` gives.
pub open spec fn read_of(dev: Seq<u8>, at: int, want: int) -> Seq<u8> {
    let lo = least(at, dev.len() as int);
    dev.subrange(lo, least(at + want, dev.len() as int))
}

pub open spec fn least(a: int, b: int) -> int {
    if a <= b {
        a
    } else {
        b
    }
}

/// What a scan goes by, besides the signatures.
pub struct Terms {
    pub validate: bool,
    pub window: int,
    pub suppress: bool,
    pub most: int,
}

impl ScanOptions {
    pub open spec fn terms(self) -> Terms {
        Terms {
            validate: self.validate,
            window: self.validation_window as int,
            suppress: self.suppress_contained,
            most: self.max_candidates as int,
        }
    }
}

/// What the validation of header matches has come to.
#[verifier::ext_equal]
pub struct Tally {
    pub found: Seq<Found>,
    pub validated: int,
    pub rejected: int,
    pub capped: int,
    pub artifacts: int,
}

/// The tally with one more header match, of format `f` at `at`, put to its
/// validator with the bytes `data` that stand there.
pub open spec fn put(
    f: Format,
    at: int,
    range_end: int,
    terms: Terms,
    data: Seq<u8>,
    t: Tally,
) -> Tally {
    if !terms.validate {
        Tally { found: t.found.push(unjudged(f, at, "not validated"@)), ..t }
    } else {
        match f.validator {
            None => Tally {
                found: t.found.push(
                    unjudged(f, at, "header match only; this format has no validator"@),
                ),
                ..t
            },
            Some(id) => {
                let cut = reachable(f, at, range_end) > terms.window;
                let t1 = Tally {
                    capped: if cut {
                        t.capped + 1
                    } else {
                        t.capped
                    },
                    ..t
                };
                match validate::verdict_of(id, data) {
                    None => t1,
                    Some(v) => if v.status == Status::Rejected {
                        Tally { rejected: t1.rejected + 1, ..t1 }
                    } else {
                        Tally {
                            found: t1.found.push(
                                judged(f, at, v, data.len() as int, cut, terms.window),
                            ),
                            validated: t1.validated + 1,
                            artifacts: if window_artifact(v, data.len() as int, cut) {
                                t1.artifacts + 1
                            } else {
                                t1.artifacts
                            },
                            ..t1
                        }
                    },
                }
            },
        }
    }
}

/// The tally with one more header match, `m`, put to its validator.
pub open spec fn examined(
    f: Seq<Format>,
    dev: Seq<u8>,
    range_end: int,
    terms: Terms,
    m: (int, int),
    t: Tally,
) -> Tally {
    let (at, i) = m;
    let data = read_of(dev, at, window_of(f[i], at, range_end, terms.window));
    put(f[i], at, range_end, terms, data, t)
}

/// The tally of nothing.
pub open spec fn nothing() -> Tally {
    Tally { found: Seq::empty(), validated: 0, rejected: 0, capped: 0, artifacts: 0 }
}

/// The tally over the first `n` header matches.
pub open spec fn tally(
    f: Seq<Format>,
    dev: Seq<u8>,
    range_end: int,
    terms: Terms,
    m: Seq<(int, int)>,
    n: int,
) -> Tally
    decreases n,
{
    if n <= 0 {
        nothing()
    } else {
        examined(f, dev, range_end, terms, m[n - 1], tally(f, dev, range_end, terms, m, n - 1))
    }
}

/// The device up to the end of the range.
pub open spec fn ranged(dev: Seq<u8>, range_end: int) -> Seq<u8> {
    dev.subrange(0, least(range_end, dev.len() as int))
}

/// How many candidates may still be counted.
pub open spec fn budget(most: int, counted: int) -> int {
    if most >= counted {
        most - counted
    } else {
        0
    }
}

/// What one segment of a scan finds, and what it hands to the next.
#[verifier::ext_equal]
pub struct Pass {
    pub found: Seq<Found>,
    pub cover_end: int,
    pub counted: int,
    pub header_matches: int,
    pub truncated: bool,
    pub validated: int,
    pub rejected: int,
    pub capped: int,
    pub artifacts: int,
    pub dropped: int,
}

/// What the header matches `all` of a segment come to.
pub open spec fn concluded(
    f: Seq<Format>,
    dev: Seq<u8>,
    range_end: int,
    terms: Terms,
    all: Seq<(int, int)>,
    cover_end: int,
    counted: int,
) -> Pass {
    let n = least(all.len() as int, budget(terms.most, counted));
    let t = tally(f, dev, range_end, terms, all.subrange(0, n), n);
    let s = if terms.suppress {
        contain::suppressed(t.found, cover_end)
    } else {
        contain::Sweep { kept: t.found, cover: cover_end, dropped: 0 }
    };
    Pass {
        found: s.kept,
        cover_end: s.cover,
        counted: counted + n,
        header_matches: all.len() as int,
        truncated: all.len() > budget(terms.most, counted),
        validated: t.validated,
        rejected: t.rejected,
        capped: t.capped,
        artifacts: t.artifacts,
        dropped: s.dropped,
    }
}

/// The segment from `start` to `end` of a scan whose range ends at `range_end`,
/// `cover_end` being covered and `counted` candidates counted before.
pub open spec fn pass(
    f: Seq<Format>,
    dev: Seq<u8>,
    start: int,
    end: int,
    range_end: int,
    terms: Terms,
    cover_end: int,
    counted: int,
) -> Pass {
    let limit = bytes::larger(range_end, end);
    concluded(
        f,
        dev,
        limit,
        terms,
        hits::matches_in(f, ranged(dev, limit), start, end),
        cover_end,
        counted,
    )
}

proof fn tallies_read_a_prefix(
    f: Seq<Format>,
    dev: Seq<u8>,
    range_end: int,
    terms: Terms,
    a: Seq<(int, int)>,
    b: Seq<(int, int)>,
    n: int,
)
    requires
        0 <= n <= a.len(),
    ensures
        tally(f, dev, range_end, terms, a + b, n) == tally(f, dev, range_end, terms, a, n),
    decreases n,
{
    if n > 0 {
        tallies_read_a_prefix(f, dev, range_end, terms, a, b, n - 1);
        assert((a + b)[n - 1] == a[n - 1]);
    }
}

proof fn tallies_add_up(
    f: Seq<Format>,
    dev: Seq<u8>,
    range_end: int,
    terms: Terms,
    a: Seq<(int, int)>,
    b: Seq<(int, int)>,
    n: int,
)
    requires
        0 <= n <= b.len(),
    ensures
        ({
            let x = tally(f, dev, range_end, terms, a, a.len() as int);
            let y = tally(f, dev, range_end, terms, b, n);
            tally(f, dev, range_end, terms, a + b, a.len() + n) == Tally {
                found: x.found + y.found,
                validated: x.validated + y.validated,
                rejected: x.rejected + y.rejected,
                capped: x.capped + y.capped,
                artifacts: x.artifacts + y.artifacts,
            }
        }),
    decreases n,
{
    let x = tally(f, dev, range_end, terms, a, a.len() as int);
    if n > 0 {
        tallies_add_up(f, dev, range_end, terms, a, b, n - 1);
        assert((a + b)[a.len() + n - 1] == b[n - 1]);
        let y = tally(f, dev, range_end, terms, b, n - 1);
        let z = tally(f, dev, range_end, terms, b, n);
        if z.found.len() > y.found.len() {
            assert((x.found + y.found).push(z.found.last()) =~= x.found + y.found.push(
                z.found.last(),
            ));
        }
    } else {
        tallies_read_a_prefix(f, dev, range_end, terms, a, b, a.len() as int);
        assert(x.found + Seq::<Found>::empty() =~= x.found);
    }
}

/// Every candidate begins where a header match is.
proof fn found_where_matched(
    f: Seq<Format>,
    dev: Seq<u8>,
    range_end: int,
    terms: Terms,
    m: Seq<(int, int)>,
    n: int,
    k: int,
)
    requires
        0 <= n <= m.len(),
        0 <= k < tally(f, dev, range_end, terms, m, n).found.len(),
    ensures
        exists|j: int|
            0 <= j < n && (#[trigger] m[j]).0 == tally(f, dev, range_end, terms, m, n).found[k].offset,
    decreases n,
{
    if n > 0 {
        let t = tally(f, dev, range_end, terms, m, n - 1);
        let now = tally(f, dev, range_end, terms, m, n);
        if k < t.found.len() {
            assert(now.found[k] == t.found[k]);
            found_where_matched(f, dev, range_end, terms, m, n - 1, k);
        } else {
            assert(m[n - 1].0 == now.found[k].offset);
        }
    }
}

/// Whether every validator that a format names is one.
pub open spec fn validators_known(f: Seq<Format>) -> bool {
    forall|i: int|
        0 <= i < f.len() ==> ((#[trigger] f[i]).validator matches Some(id) ==> validate::known(id))
}

proof fn tallied(
    f: Seq<Format>,
    dev: Seq<u8>,
    range_end: int,
    terms: Terms,
    m: Seq<(int, int)>,
    n: int,
)
    requires
        validators_known(f),
        0 <= n <= m.len(),
        forall|k: int| 0 <= k < m.len() ==> 0 <= (#[trigger] m[k]).1 < f.len(),
    ensures
        ({
            let t = tally(f, dev, range_end, terms, m, n);
            &&& t.found.len() + t.rejected == n
            &&& 0 <= t.validated <= t.found.len()
            &&& !terms.validate ==> t.rejected == 0 && t.validated == 0
        }),
    decreases n,
{
    if n > 0 {
        tallied(f, dev, range_end, terms, m, n - 1);
        let (at, i) = m[n - 1];
        if let Some(id) = f[i].validator {
            let data = read_of(dev, at, window_of(f[i], at, range_end, terms.window));
            validate::every_listed_id_is_dispatched(id, data);
        }
    }
}

/// Every header match of a segment is accounted for: as far as matches were
/// still counted, each was rejected by its validator, or dropped as contained,
/// or is a candidate. A scan without validation rejects none.
pub proof fn every_match_is_accounted_for(
    f: Seq<Format>,
    dev: Seq<u8>,
    start: int,
    end: int,
    range_end: int,
    terms: Terms,
    cover_end: int,
    counted: int,
)
    requires
        0 <= start,
        0 <= counted,
        validators_known(f),
    ensures
        ({
            let p = pass(f, dev, start, end, range_end, terms, cover_end, counted);
            &&& p.found.len() + p.dropped + p.rejected == p.counted - counted
            &&& p.truncated ==> p.counted - counted == budget(terms.most, counted)
            &&& !p.truncated ==> p.counted - counted == p.header_matches
            &&& p.validated <= p.found.len() + p.dropped
            &&& !terms.validate ==> p.rejected == 0 && p.validated == 0
        }),
{
    let limit = bytes::larger(range_end, end);
    let hay = ranged(dev, limit);
    let all = hits::matches_in(f, hay, start, end);
    hits::matches_are_those(f, hay, start, end);
    let n = least(all.len() as int, budget(terms.most, counted));
    let m = all.subrange(0, n);
    assert forall|k: int| 0 <= k < m.len() implies 0 <= (#[trigger] m[k]).1 < f.len() by {
        assert(m[k] == all[k]);
    }
    tallied(f, dev, limit, terms, m, n);
    let t = tally(f, dev, limit, terms, m, n);
    contain::ordered_keeps_count(t.found);
    contain::nothing_goes_missing(contain::ordered(t.found), cover_end, t.found.len() as int);
}

/// The candidate that one header match makes, where it makes one.
pub open spec fn made_of(
    f: Seq<Format>,
    dev: Seq<u8>,
    range_end: int,
    terms: Terms,
    m: (int, int),
) -> Option<Found> {
    let t = examined(f, dev, range_end, terms, m, nothing());
    if t.found.len() > 0 {
        Some(t.found[0])
    } else {
        None
    }
}

proof fn tally_holds(
    f: Seq<Format>,
    dev: Seq<u8>,
    range_end: int,
    terms: Terms,
    m: Seq<(int, int)>,
    n: int,
    k: int,
)
    requires
        0 <= k < n <= m.len(),
        made_of(f, dev, range_end, terms, m[k]) is Some,
    ensures
        tally(f, dev, range_end, terms, m, n).found.contains(
            made_of(f, dev, range_end, terms, m[k])->0,
        ),
    decreases n,
{
    let x = made_of(f, dev, range_end, terms, m[k])->0;
    let was = tally(f, dev, range_end, terms, m, n - 1).found;
    let now = tally(f, dev, range_end, terms, m, n).found;
    if k == n - 1 {
        assert(now[was.len() as int] == x);
    } else {
        tally_holds(f, dev, range_end, terms, m, n - 1, k);
        let j = choose|j: int| 0 <= j < was.len() && was[j] == x;
        assert(now[j] == x);
    }
}

/// Nothing that stands in the range is passed over: where a format begins and
/// its validator accepts what is there, the scan reports that candidate, or,
/// if contained candidates are to be dropped, a complete one that contains it.
/// Only a scan that ran out of candidates to count is excused.
pub proof fn what_is_there_is_found(
    f: Seq<Format>,
    dev: Seq<u8>,
    start: int,
    end: int,
    range_end: int,
    terms: Terms,
    cover_end: int,
    counted: int,
    at: int,
    i: int,
)
    requires
        0 <= start <= at < end,
        hits::found(f, ranged(dev, bytes::larger(range_end, end)), at, i),
        made_of(f, dev, bytes::larger(range_end, end), terms, (at, i)) is Some,
        !pass(f, dev, start, end, range_end, terms, cover_end, counted).truncated,
    ensures
        ({
            let p = pass(f, dev, start, end, range_end, terms, cover_end, counted);
            let x = made_of(f, dev, bytes::larger(range_end, end), terms, (at, i))->0;
            p.found.contains(x) || (terms.suppress && contain::contained(x, p.found, cover_end))
        }),
{
    let limit = bytes::larger(range_end, end);
    let hay = ranged(dev, limit);
    let all = hits::matches_in(f, hay, start, end);
    hits::matches_are_those(f, hay, start, end);
    assert(all.contains((at, i)));
    let k = choose|k: int| 0 <= k < all.len() && all[k] == (at, i);
    let n = least(all.len() as int, budget(terms.most, counted));
    let m = all.subrange(0, n);
    tally_holds(f, dev, limit, terms, m, n, k);
    let t = tally(f, dev, limit, terms, m, n).found;
    let x = made_of(f, dev, limit, terms, (at, i))->0;
    let l = choose|l: int| 0 <= l < t.len() && t[l] == x;
    contain::kept_or_contained(t, cover_end, l);
}

/// Consecutive segments, with what one hands on carried to the next, give the
/// same candidates as one scan of the whole: a scan may be split anywhere.
pub proof fn segments_add_up(
    f: Seq<Format>,
    dev: Seq<u8>,
    start: int,
    mid: int,
    end: int,
    range_end: int,
    terms: Terms,
    cover_end: int,
    counted: int,
)
    requires
        0 <= start <= mid <= end <= range_end,
    ensures
        ({
            let one = pass(f, dev, start, mid, range_end, terms, cover_end, counted);
            let two = pass(f, dev, mid, end, range_end, terms, one.cover_end, one.counted);
            let whole = pass(f, dev, start, end, range_end, terms, cover_end, counted);
            &&& whole.found == one.found + two.found
            &&& whole.cover_end == two.cover_end
            &&& whole.counted == two.counted
            &&& whole.header_matches == one.header_matches + two.header_matches
            &&& whole.truncated == (one.truncated || two.truncated)
            &&& whole.validated == one.validated + two.validated
            &&& whole.rejected == one.rejected + two.rejected
            &&& whole.capped == one.capped + two.capped
            &&& whole.artifacts == one.artifacts + two.artifacts
            &&& whole.dropped == one.dropped + two.dropped
        }),
{
    let hay = ranged(dev, range_end);
    let a = hits::matches_in(f, hay, start, mid);
    let b = hits::matches_in(f, hay, mid, end);
    let all = hits::matches_in(f, hay, start, end);
    hits::matches_add_up(f, hay, start, mid, end);
    let bud = budget(terms.most, counted);
    let n = least(a.len() as int, bud);
    let m = least(b.len() as int, budget(terms.most, counted + n));
    let x = a.subrange(0, n);
    let y = b.subrange(0, m);
    let k = least(all.len() as int, bud);
    assert(k == n + m);
    assert(all.subrange(0, k) =~= x + y);
    tallies_add_up(f, dev, range_end, terms, x, y, m);
    let t = tally(f, dev, range_end, terms, x, n);
    let u = tally(f, dev, range_end, terms, y, m);
    assert forall|i: int, j: int|
        0 <= i < t.found.len() && 0 <= j < u.found.len() implies (#[trigger] t.found[i]).offset < (
    #[trigger] u.found[j]).offset by {
        found_where_matched(f, dev, range_end, terms, x, n, i);
        found_where_matched(f, dev, range_end, terms, y, m, j);
        let p = choose|p: int| 0 <= p < n && (#[trigger] x[p]).0 == t.found[i].offset;
        let q = choose|q: int| 0 <= q < m && (#[trigger] y[q]).0 == u.found[j].offset;
        hits::matches_are_those(f, hay, start, mid);
        hits::matches_are_those(f, hay, mid, end);
        assert(a[p] == x[p] && b[q] == y[q]);
    }
    contain::order_adds_up(t.found, u.found, u.found.len() as int);
    contain::ordered_keeps_count(t.found);
    contain::ordered_keeps_count(u.found);
    contain::sweeps_add_up(
        contain::ordered(t.found),
        contain::ordered(u.found),
        cover_end,
        u.found.len() as int,
    );
    assert((t.found + u.found).len() == t.found.len() + u.found.len());
}

/// What the blocks of a scan flag, added up: the segment from `pos` to `end`,
/// read on to the end of `hay`, after `acc`.
pub open spec fn flagged_from(
    p: prefilter::Prefilter,
    hay: Seq<u8>,
    pos: int,
    end: int,
    block: int,
    overlap: int,
    acc: int,
) -> int
    decreases end - pos,
{
    if pos >= end || block <= 0 {
        acc
    } else {
        let data = read_of(hay, pos, block + overlap);
        flagged_from(
            p,
            hay,
            pos + least(block, end - pos),
            end,
            block,
            overlap,
            bytes::capped(acc + hits::flagged(p, data, data.len() as int)),
        )
    }
}

/// What reading every block of a segment finds.
struct Collected {
    hits: Vec<Hit>,
    prefilter_hits: u64,
    bytes: u64,
}

fn at_most(a: u64, b: usize) -> (r: usize)
    ensures
        r == least(a as int, b as int),
{
    if a <= b as u64 {
        a as usize
    } else {
        b
    }
}

/// Read part of a device image.
fn read<'a>(device: &'a [u8], at: u64, want: usize) -> (r: &'a [u8])
    ensures
        r@ == read_of(device@, at as int, want as int),
{
    let lo: usize = at_most(at, device.len());
    let hi: usize = if want <= device.len() - lo {
        lo + want
    } else {
        device.len()
    };
    assert(hi == least(at + want, device@.len() as int));
    slice_subrange(device, lo, hi)
}

fn collect(
    device: &[u8],
    index: &ScanIndex<'_>,
    start: u64,
    end: u64,
    range_end: u64,
    block_bytes: usize,
    overlap: usize,
) -> (r: Collected)
    requires
        index.wf(),
        index.lets_through(),
        end <= range_end,
        block_bytes > 0,
        block_bytes + overlap <= usize::MAX,
        forall|i: int|
            0 <= i < index.formats().len() ==> (#[trigger] index.formats()[i]).header.len() > 0
                && index.formats()[i].span() - 1 <= overlap,
    ensures
        hits::spots(r.hits@).no_duplicates(),
        forall|at: int, i: int| #[trigger]
            hits::spots(r.hits@).contains((at, i)) <==> start <= at < end && hits::found(
                index.formats(),
                ranged(device@, range_end as int),
                at,
                i,
            ),
        r.prefilter_hits == flagged_from(
            index.filter(),
            ranged(device@, range_end as int),
            start as int,
            end as int,
            block_bytes as int,
            overlap as int,
            0,
        ),
        r.bytes == bytes::larger(least(end as int, device@.len() as int) - start, 0),
{
    let ghost f = index.formats();
    let ghost hay = ranged(device@, range_end as int);
    let mut all: Vec<Hit> = Vec::new();
    let mut flags: u64 = 0;
    let mut bytes_read: u64 = 0;
    let mut pos: u64 = start;
    let ghost whole = flagged_from(
        index.filter(),
        hay,
        start as int,
        end as int,
        block_bytes as int,
        overlap as int,
        0,
    );
    while pos < end
        invariant
            start <= pos,
            start < end ==> pos <= end,
            start >= end ==> pos == start,
            index.wf(),
            index.lets_through(),
            f == index.formats(),
            hay == ranged(device@, range_end as int),
            end <= range_end,
            block_bytes > 0,
            block_bytes + overlap <= usize::MAX,
            forall|i: int|
                0 <= i < f.len() ==> (#[trigger] f[i]).header.len() > 0 && f[i].span() - 1
                    <= overlap,
            hits::spots(all@).no_duplicates(),
            forall|at: int, i: int| #[trigger]
                hits::spots(all@).contains((at, i)) <==> start <= at < pos && hits::found(
                    f,
                    hay,
                    at,
                    i,
                ),
            whole == flagged_from(
                index.filter(),
                hay,
                pos as int,
                end as int,
                block_bytes as int,
                overlap as int,
                flags as int,
            ),
            bytes_read == bytes::larger(least(pos as int, device@.len() as int) - start, 0),
        decreases end - pos,
    {
        let plan: hits::BlockPlan = hits::plan_block(pos, end, range_end, block_bytes, overlap);
        let data: &[u8] = read(device, pos, plan.want);
        proof {
            let n = device@.len() as int;
            let lo = least(pos as int, n);
            assert(data@ =~= read_of(hay, pos as int, block_bytes + overlap));
            assert(pos <= n ==> data@ =~= hay.subrange(pos as int, pos + data@.len()));
        }
        let here: hits::BlockMatches = hits::match_block(index, data, pos, plan.owned);
        proof {
            assert forall|at: int, i: int| #[trigger]
                hits::spots(here.hits@).contains((at, i)) <==> pos <= at < pos + plan.owned
                && hits::found(f, hay, at, i) by {
                if 0 <= i < f.len() && pos <= at < pos + plan.owned {
                    if pos <= device@.len() {
                        assert(data@ == hay.subrange(pos as int, pos + data@.len()));
                        hits::a_block_sees_enough(
                            f,
                            hay,
                            pos as int,
                            plan.owned as int,
                            data@.len() as int,
                            at - pos,
                            i,
                        );
                    } else {
                        assert(data@.len() == 0);
                    }
                }
            }
            spots_join(all@, here.hits@);
        }
        let got: usize = if plan.owned <= data.len() {
            plan.owned
        } else {
            data.len()
        };
        bytes_read = bytes_read + got as u64;
        flags = bytes::add_capped(flags, here.prefilter_hits);
        let mut more: Vec<Hit> = here.hits;
        all.append(&mut more);
        pos = pos + plan.owned as u64;
    }
    Collected { hits: all, prefilter_hits: flags, bytes: bytes_read }
}

proof fn spots_join(a: Seq<Hit>, b: Seq<Hit>)
    requires
        hits::spots(a).no_duplicates(),
        hits::spots(b).no_duplicates(),
        forall|at: int, i: int| #[trigger]
            hits::spots(b).contains((at, i)) ==> !hits::spots(a).contains((at, i)),
    ensures
        hits::spots(a + b).no_duplicates(),
        forall|at: int, i: int| #[trigger]
            hits::spots(a + b).contains((at, i)) <==> hits::spots(a).contains((at, i))
                || hits::spots(b).contains((at, i)),
{
    let x = hits::spots(a);
    let y = hits::spots(b);
    let all = hits::spots(a + b);
    assert(all =~= x + y);
    assert forall|at: int, i: int| #[trigger] all.contains((at, i)) <==> x.contains((at, i))
        || y.contains((at, i)) by {
        let p = (at, i);
        if x.contains(p) {
            let k = choose|k: int| 0 <= k < x.len() && x[k] == p;
            assert(all[k] == p);
        }
        if y.contains(p) {
            let k = choose|k: int| 0 <= k < y.len() && y[k] == p;
            assert(all[x.len() + k] == p);
        }
        if all.contains(p) {
            let k = choose|k: int| 0 <= k < all.len() && all[k] == p;
            if k < x.len() {
                assert(x[k] == p);
            } else {
                assert(y[k - x.len()] == p);
            }
        }
    }
    assert forall|m: int, n: int| 0 <= m < n < all.len() implies all[m] != all[n] by {
        if n < x.len() {
            assert(x[m] != x[n]);
        } else if m >= x.len() {
            assert(y[m - x.len()] != y[n - x.len()]);
        } else {
            assert(x[m] == all[m] && y[n - x.len()] == all[n]);
            assert(x.contains((all[m].0, all[m].1)));
            assert(y.contains((all[n].0, all[n].1)));
        }
    }
}

/// Header matches put in device order, and no more of them than may still be
/// counted.
pub fn settle(raw: Vec<Hit>, max_candidates: usize, counted: u64) -> (r: (Vec<Hit>, bool))
    ensures
        exists|s: Seq<Hit>|
            {
                &&& #[trigger] hits::in_order(s)
                &&& s.to_multiset() == raw@.to_multiset()
                &&& r.0@ == s.subrange(
                    0,
                    least(s.len() as int, budget(max_candidates as int, counted as int)),
                )
            },
        r.1 == (raw@.len() > budget(max_candidates as int, counted as int)),
{
    broadcast use vstd::seq_lib::group_to_multiset_ensures;

    let mut sorted = hits::sort_hits(raw);
    let ghost s = sorted@;
    proof {
        assert(s.len() == s.to_multiset().len());
        assert(raw@.len() == raw@.to_multiset().len());
        assert(hits::in_order(s));
    }
    let left: u64 = if max_candidates as u64 >= counted {
        max_candidates as u64 - counted
    } else {
        0
    };
    if sorted.len() as u64 > left {
        sorted.truncate(left as usize);
        (sorted, true)
    } else {
        assert(s.subrange(0, s.len() as int) =~= s);
        (sorted, false)
    }
}

/// What the validation of header matches has come to.
pub struct Examined {
    candidates: Vec<Candidate>,
    validated: u64,
    rejected: u64,
    capped: u64,
    artifacts: u64,
}

/// How many bytes from `offset` on a header match there needs, to be put to its
/// validator; none where there is no validator to run.
pub fn needs(sig: &Signature, offset: u64, range_end: u64, opts: &ScanOptions) -> (r: usize)
    ensures
        r == (if opts.validate && sig.validator is Some {
            window_of(
                sig@,
                offset as int,
                range_end as int,
                opts.validation_window as int,
            )
        } else {
            0
        }),
{
    if opts.validate && sig.validator.is_some() {
        plan_read(sig, offset, range_end, opts.validation_window).want
    } else {
        0
    }
}

impl Examined {
    pub closed spec fn view(self) -> Tally {
        Tally {
            found: all_found(self.candidates@),
            validated: self.validated as int,
            rejected: self.rejected as int,
            capped: self.capped as int,
            artifacts: self.artifacts as int,
        }
    }

    /// Whether `n` more matches can still be counted.
    pub open spec fn room(self, n: int) -> bool {
        &&& self.view().validated + n <= u64::MAX
        &&& self.view().rejected + n <= u64::MAX
        &&& self.view().capped + n <= u64::MAX
        &&& self.view().artifacts + n <= u64::MAX
    }

    pub fn new() -> (r: Examined)
        ensures
            r.view() == nothing(),
    {
        let r = Examined {
            candidates: Vec::new(),
            validated: 0,
            rejected: 0,
            capped: 0,
            artifacts: 0,
        };
        assert(r.view() =~= nothing());
        r
    }

    fn keep(&mut self, c: Candidate)
        ensures
            final(self).view() == (Tally { found: old(self).view().found.push(c@), ..old(self).view() }),
    {
        let ghost before = all_found(self.candidates@);
        self.candidates.push(c);
        assert(all_found(self.candidates@) =~= before.push(c@));
    }

    /// Put one header match to its validator, with the bytes that stand there:
    /// as many as it [`needs`], or as could be read.
    pub fn examine(
        &mut self,
        sig: &Signature,
        offset: u64,
        data: &[u8],
        range_end: u64,
        opts: &ScanOptions,
    )
        requires
            sig.fits(),
            old(self).room(1),
        ensures
            final(self).view() == put(
                sig@,
                offset as int,
                range_end as int,
                opts.terms(),
                data@,
                old(self).view(),
            ),
    {
        if !opts.validate {
            self.keep(without_verdict(sig, offset, "not validated"));
            return;
        }
        let id: &String = match &sig.validator {
            Some(v) => v,
            None => {
                self.keep(
                    without_verdict(
                        sig,
                        offset,
                        "header match only; this format has no validator",
                    ),
                );
                return;
            },
        };
        let plan: ReadPlan = plan_read(sig, offset, range_end, opts.validation_window);
        if plan.capped {
            self.capped = self.capped + 1;
        }
        match judge(sig, id.as_str(), offset, data, plan.capped, opts.validation_window) {
            Judgement::Unknown => {},
            Judgement::Rejected => {
                self.rejected = self.rejected + 1;
            },
            Judgement::Kept { candidate, artifact } => {
                self.validated = self.validated + 1;
                if artifact {
                    self.artifacts = self.artifacts + 1;
                }
                self.keep(candidate);
            },
        }
    }

    /// What the matches of a segment come to, once all that were `looked` at
    /// are examined; `carry` is handed on to the next segment.
    pub fn conclude(self, looked: Looked, opts: &ScanOptions, carry: &mut Carry) -> (r: ScanResult)
        requires
            old(carry).candidates + looked.taken <= u64::MAX,
        ensures
            ({
                let t = self.view();
                let s = if opts.suppress_contained {
                    contain::suppressed(t.found, old(carry).cover_end as int)
                } else {
                    contain::Sweep {
                        kept: t.found,
                        cover: old(carry).cover_end as int,
                        dropped: 0,
                    }
                };
                &&& all_found(r.candidates@) == s.kept
                &&& final(carry).cover_end == s.cover
                &&& final(carry).candidates == old(carry).candidates + looked.taken
                &&& r.stats.bytes_scanned == looked.bytes
                &&& r.stats.elapsed_nanos == 0
                &&& r.stats.prefilter_hits == looked.prefilter_hits
                &&& r.stats.header_matches == looked.header_matches
                &&& r.stats.validated == t.validated
                &&& r.stats.rejected == t.rejected
                &&& r.stats.suppressed_contained == s.dropped
                &&& r.stats.window_capped == t.capped
                &&& r.stats.window_artifact_lengths == t.artifacts
                &&& r.stats.truncated == looked.truncated
                &&& r.stats.strategy == looked.strategy
                &&& r.stats.threads == looked.threads
                &&& r.stats.signatures == looked.signatures
            }),
    {
        let mut stats = ScanStats {
            bytes_scanned: looked.bytes,
            elapsed_nanos: 0,
            prefilter_hits: looked.prefilter_hits,
            header_matches: looked.header_matches,
            validated: self.validated,
            rejected: self.rejected,
            suppressed_contained: 0,
            window_capped: self.capped,
            window_artifact_lengths: self.artifacts,
            truncated: looked.truncated,
            strategy: looked.strategy,
            threads: looked.threads,
            signatures: looked.signatures,
        };
        let mut candidates: Vec<Candidate> = self.candidates;
        if opts.suppress_contained {
            let mut cover: u64 = carry.cover_end;
            let (kept, dropped): (Vec<Candidate>, u64) = contain::suppress_contained(
                candidates,
                &mut cover,
            );
            candidates = kept;
            stats.suppressed_contained = dropped;
            carry.cover_end = cover;
        }
        carry.candidates = carry.candidates + looked.taken;
        ScanResult { candidates, stats }
    }
}

proof fn counts_stay_small(
    f: Seq<Format>,
    dev: Seq<u8>,
    range_end: int,
    terms: Terms,
    m: Seq<(int, int)>,
    n: int,
)
    requires
        0 <= n <= m.len(),
    ensures
        ({
            let t = tally(f, dev, range_end, terms, m, n);
            &&& 0 <= t.validated <= n
            &&& 0 <= t.rejected <= n
            &&& 0 <= t.capped <= n
            &&& 0 <= t.artifacts <= n
        }),
    decreases n,
{
    if n > 0 {
        counts_stay_small(f, dev, range_end, terms, m, n - 1);
    }
}

/// How a segment was looked at.
#[derive(Clone, Debug)]
pub struct Looked {
    pub bytes: u64,
    pub prefilter_hits: u64,
    pub header_matches: u64,
    /// How many of the matches are put to a validator.
    pub taken: u64,
    pub truncated: bool,
    pub strategy: &'static str,
    pub threads: usize,
    pub signatures: usize,
}

/// Whether a scan can look for these formats: every one has a header, and a
/// block with the overlap that the longest of them needs can be counted.
pub open spec fn scannable(f: Seq<Format>, block_bytes: usize) -> bool {
    f.len() > 0 ==> {
        &&& forall|i: int| 0 <= i < f.len() ==> (#[trigger] f[i]).header.len() > 0
        &&& block_bytes > 0
        &&& block_bytes + signature::longest_span(f, f.len() as int) <= usize::MAX
    }
}

/// Whether a scan can look for the chosen signatures in blocks of this size.
pub fn is_scannable(db: &SignatureDb, only: &Option<Vec<String>>, block_bytes: usize) -> (r: bool)
    ensures
        r == scannable(chosen(db@, wanted(*only)), block_bytes),
{
    let ghost f = chosen(db@, wanted(*only));
    let mut any: bool = false;
    let mut span: usize = 0;
    let mut i: usize = 0;
    while i < db.signatures.len()
        invariant
            i <= db.signatures@.len(),
            f == chosen(db@, wanted(*only)),
            ({
                let g = chosen_upto(db@, wanted(*only), i as int);
                &&& any == (g.len() > 0)
                &&& span == signature::longest_span(g, g.len() as int)
                &&& forall|k: int| 0 <= k < g.len() ==> (#[trigger] g[k]).header.len() > 0
            }),
        decreases db.signatures@.len() - i,
    {
        assert(db@[i as int] == db.signatures@[i as int]@);
        let take: bool = match only {
            None => true,
            Some(ids) => is_among(ids, db.signatures[i].id.as_str()),
        };
        if take {
            let s: &Signature = &db.signatures[i];
            proof {
                what_is_wanted_is_chosen(db@, wanted(*only), i as int, db@.len() as int);
                let k = choose|k: int| 0 <= k < f.len() && f[k] == s@;
                assert(f[k] == s@);
                signature::longest_is_longest(f, f.len() as int, k);
                let before = chosen_upto(db@, wanted(*only), i as int);
                spans_of_a_prefix(before, s@, before.len() as int);
            }
            if s.header.len() == 0 || !s.is_countable() {
                return false;
            }
            any = true;
            let here: usize = s.header_offset + s.header.len();
            if here > span {
                span = here;
            }
        }
        i += 1;
    }
    !any || (block_bytes > 0 && block_bytes <= usize::MAX - span)
}

/// Scan a device image between `start` and `end`, where the database and the
/// block size allow a scan at all.
pub fn scan_checked(
    device: &[u8],
    db: &SignatureDb,
    start: u64,
    end: u64,
    opts: &ScanOptions,
) -> (r: Result<ScanResult>)
    ensures
        ({
            let f = chosen(db@, wanted(opts.only));
            let p = pass(
                f,
                device@,
                start as int,
                end as int,
                end as int,
                opts.terms(),
                0,
                0,
            );
            match r {
                Ok(s) => {
                    &&& f.len() > 0
                    &&& scannable(f, opts.block_bytes)
                    &&& tells(s, p)
                    &&& counted_out(s.stats, f, device@, start as int, end as int, end as int, *opts)
                },
                Err(e) => e matches CarveError::SignatureDb { detail } && if scannable(
                    f,
                    opts.block_bytes,
                ) {
                    f.len() == 0 && detail@ == "no signatures selected for the scan"@
                } else {
                    detail@ == "no scan can go by these signatures in blocks of this size"@
                },
            }
        }),
{
    if is_scannable(db, &opts.only, opts.block_bytes) {
        scan(device, db, start, end, opts)
    } else {
        Err(
            CarveError::SignatureDb {
                detail: "no scan can go by these signatures in blocks of this size".to_owned(),
            },
        )
    }
}

/// Scan a device image between `start` and `end` for anything the database
/// knows.
pub fn scan(device: &[u8], db: &SignatureDb, start: u64, end: u64, opts: &ScanOptions) -> (r:
    Result<ScanResult>)
    requires
        scannable(chosen(db@, wanted(opts.only)), opts.block_bytes),
    ensures
        ({
            let f = chosen(db@, wanted(opts.only));
            let p = pass(
                f,
                device@,
                start as int,
                end as int,
                end as int,
                opts.terms(),
                0,
                0,
            );
            match r {
                Ok(s) => {
                    &&& f.len() > 0
                    &&& tells(s, p)
                    &&& counted_out(s.stats, f, device@, start as int, end as int, end as int, *opts)
                },
                Err(e) => {
                    &&& f.len() == 0
                    &&& e matches CarveError::SignatureDb { detail } && detail@
                        == "no signatures selected for the scan"@
                },
            }
        }),
{
    let mut carry = Carry { cover_end: 0, candidates: 0 };
    scan_segment(device, db, start, end, end, opts, &mut carry)
}

/// Whether a result says what a pass came to.
pub open spec fn tells(r: ScanResult, p: Pass) -> bool {
    &&& all_found(r.candidates@) == p.found
    &&& r.stats.header_matches == p.header_matches
    &&& r.stats.truncated == p.truncated
    &&& r.stats.validated == p.validated
    &&& r.stats.rejected == p.rejected
    &&& r.stats.window_capped == p.capped
    &&& r.stats.window_artifact_lengths == p.artifacts
    &&& r.stats.suppressed_contained == p.dropped
}

/// Whether the statistics say how an index of the formats `f` looked at the
/// segment from `start` to `end` of `hay`: by which strategy, and at how many
/// positions.
pub open spec fn looked(
    stats: ScanStats,
    f: Seq<Format>,
    hay: Seq<u8>,
    start: int,
    end: int,
    block: int,
) -> bool {
    exists|index: ScanIndex<'_>|
        {
            &&& #[trigger] index.lets_through()
            &&& index.formats() == f
            &&& stats.strategy@ == index.filter().named()
            &&& stats.prefilter_hits == flagged_from(
                index.filter(),
                hay,
                start,
                end,
                block,
                bytes::larger(signature::longest_span(f, f.len() as int) - 1, 0),
                0,
            )
        }
}

/// Whether the statistics of the segment from `start` to `end` say how much was
/// read, for how many formats, by how many threads and how it was looked at. No
/// time is measured here.
pub open spec fn counted_out(
    stats: ScanStats,
    f: Seq<Format>,
    device: Seq<u8>,
    start: int,
    end: int,
    range_end: int,
    opts: ScanOptions,
) -> bool {
    &&& stats.bytes_scanned == bytes::larger(least(end, device.len() as int) - start, 0)
    &&& stats.signatures == f.len()
    &&& stats.threads == workers(opts.threads, None)
    &&& stats.elapsed_nanos == 0
    &&& looked(
        stats,
        f,
        ranged(device, bytes::larger(range_end, end)),
        start,
        end,
        opts.block_bytes as int,
    )
}

/// Scan one segment `[start, end)` of a scan whose range ends at `range_end`.
///
/// Headers are claimed only if they begin inside the segment. Everything else
/// (overlap reads, validation, containment) behaves as it would for the whole
/// range.
pub fn scan_segment(
    device: &[u8],
    db: &SignatureDb,
    start: u64,
    end: u64,
    range_end: u64,
    opts: &ScanOptions,
    carry: &mut Carry,
) -> (r: Result<ScanResult>)
    requires
        scannable(chosen(db@, wanted(opts.only)), opts.block_bytes),
    ensures
        ({
            let f = chosen(db@, wanted(opts.only));
            let p = pass(
                f,
                device@,
                start as int,
                end as int,
                range_end as int,
                opts.terms(),
                old(carry).cover_end as int,
                old(carry).candidates as int,
            );
            match r {
                Ok(s) => {
                    &&& f.len() > 0
                    &&& tells(s, p)
                    &&& final(carry).cover_end == p.cover_end
                    &&& final(carry).candidates == p.counted
                    &&& counted_out(
                        s.stats,
                        f,
                        device@,
                        start as int,
                        end as int,
                        range_end as int,
                        *opts,
                    )
                },
                Err(e) => {
                    &&& f.len() == 0
                    &&& *final(carry) == *old(carry)
                    &&& e matches CarveError::SignatureDb { detail } && detail@
                        == "no signatures selected for the scan"@
                },
            }
        }),
{
    let limit: u64 = if range_end >= end {
        range_end
    } else {
        end
    };
    let ghost f = chosen(db@, wanted(opts.only));
    proof {
        assert forall|i: int| 0 <= i < f.len() implies (#[trigger] f[i]).span() <= usize::MAX by {
            signature::longest_is_longest(f, f.len() as int, i);
        }
    }
    let index: ScanIndex<'_> = match prepare(db, &opts.only) {
        Ok(i) => i,
        Err(e) => {
            return Err(e);
        },
    };
    // One byte less than the longest header: a header that begins at the last
    // owned byte is still seen whole.
    let span: usize = index.max_header_span();
    let overlap: usize = if span > 0 {
        span - 1
    } else {
        0
    };
    proof {
        assert forall|i: int| 0 <= i < f.len() implies (#[trigger] f[i]).span() <= span by {
            signature::longest_is_longest(f, f.len() as int, i);
        }
    }
    let c: Collected = collect(device, &index, start, end, limit, opts.block_bytes, overlap);
    let ghost raw = c.hits@;
    let matched: u64 = c.hits.len() as u64;
    let ghost all = hits::matches_in(f, ranged(device@, limit as int), start as int, end as int);
    let (settled, truncated): (Vec<Hit>, bool) = settle(
        c.hits,
        opts.max_candidates,
        carry.candidates,
    );
    let ghost bud = budget(opts.max_candidates as int, carry.candidates as int);
    let ghost n = least(all.len() as int, bud);
    proof {
        let s = choose|s: Seq<Hit>|
            {
                &&& #[trigger] hits::in_order(s)
                &&& s.to_multiset() == raw.to_multiset()
                &&& settled@ == s.subrange(0, least(s.len() as int, bud))
            };
        hits::ordered_hits_are_matches(
            s,
            raw,
            f,
            ranged(device@, limit as int),
            start as int,
            end as int,
        );
        same_length(s, raw);
        assert(hits::spots(settled@) =~= all.subrange(0, n));
        hits::matches_are_those(f, ranged(device@, limit as int), start as int, end as int);
    }
    let mut seen: Examined = Examined::new();
    let ghost some = all.subrange(0, n);
    let mut k: usize = 0;
    while k < settled.len()
        invariant
            k <= settled@.len(),
            settled@.len() == some.len(),
            index.wf(),
            f == index.formats(),
            hits::spots(settled@) == some,
            forall|j: int| 0 <= j < some.len() ==> 0 <= (#[trigger] some[j]).1 < f.len(),
            seen.view() == tally(f, device@, limit as int, opts.terms(), some, k as int),
        decreases settled@.len() - k,
    {
        let hit: Hit = settled[k];
        assert(some[k as int] == (hit.offset as int, hit.sig as int));
        let sig: &Signature = index.signature(hit.sig);
        let data: &[u8] = read(device, hit.offset, needs(sig, hit.offset, limit, opts));
        proof {
            counts_stay_small(f, device@, limit as int, opts.terms(), some, k as int);
        }
        seen.examine(sig, hit.offset, data, limit, opts);
        k += 1;
    }
    let looked = Looked {
        bytes: c.bytes,
        prefilter_hits: c.prefilter_hits,
        header_matches: matched,
        taken: settled.len() as u64,
        truncated,
        strategy: index.strategy(),
        threads: worker_count(opts.threads, None),
        signatures: index.len(),
    };
    assert(index.lets_through());
    Ok(seen.conclude(looked, opts, carry))
}

proof fn same_length(a: Seq<Hit>, b: Seq<Hit>)
    requires
        a.to_multiset() == b.to_multiset(),
    ensures
        a.len() == b.len(),
{
    broadcast use vstd::seq_lib::group_to_multiset_ensures;

    assert(a.len() == a.to_multiset().len());
    assert(b.len() == b.to_multiset().len());
}

} // verus!
