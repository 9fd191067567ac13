//! A scan in segments, that can be stopped after any of them and taken up again
//! to the same candidates.

use vstd::prelude::*;
use vstd::string::*;
use crate::bytes;
use crate::error::{CarveError, Result};
use crate::hash;
use crate::scan;
use crate::scan::{scan_segment, Candidate, Carry, Pass, ScanOptions, ScanStats, Terms};
use crate::signature::{Format, SignatureDb};
use crate::text;

verus! {

/// What a scan is of: enough to tell that a checkpoint belongs to it.
#[derive(Clone, Debug)]
pub struct Source {
    pub total_bytes: u64,
    /// The hash of its first bytes.
    pub head: String,
    /// The hash of the signatures that are looked for.
    pub signatures: String,
}

/// Describe a source by its length, its first bytes, and the text of the
/// signatures that are looked for.
pub fn describe(total_bytes: u64, head: &[u8], signatures: &[u8]) -> (r: Source)
    ensures
        r.total_bytes == total_bytes,
        r.head@ == hash::hash_text(head@),
        r.signatures@ == hash::hash_text(signatures@),
{
    Source { total_bytes, head: hash::hashed(head), signatures: hash::hashed(signatures) }
}

/// How far a scan has come, and what it needs to go on.
#[derive(Clone, Debug)]
pub struct Checkpoint {
    pub source: Source,
    pub start: u64,
    /// Everything before this is scanned.
    pub next_offset: u64,
    pub range_end: u64,
    pub carry: Carry,
    /// How many candidates were found.
    pub rows: u64,
}

impl Checkpoint {
    /// A scan of `start` to `range_end` that has not begun.
    pub fn begin(source: Source, start: u64, range_end: u64) -> (r: Checkpoint)
        ensures
            r == (Checkpoint {
                source,
                start,
                next_offset: start,
                range_end,
                carry: Carry { cover_end: 0, candidates: 0 },
                rows: 0,
            }),
    {
        Checkpoint {
            source,
            start,
            next_offset: start,
            range_end,
            carry: Carry { cover_end: 0, candidates: 0 },
            rows: 0,
        }
    }

    /// Whether there is nothing left to scan.
    pub fn is_complete(&self) -> (r: bool)
        ensures
            r == (self.next_offset >= self.range_end),
    {
        self.next_offset >= self.range_end
    }

    /// The segment to scan next, of at most `most` bytes.
    pub fn next_segment(&self, most: u64) -> (r: Option<(u64, u64)>)
        requires
            most > 0,
        ensures
            match r {
                None => self.next_offset >= self.range_end,
                Some((from, to)) => from == self.next_offset < self.range_end && to == scan::least(
                    from + most,
                    self.range_end as int,
                ),
            },
    {
        if self.next_offset >= self.range_end {
            None
        } else if self.range_end - self.next_offset <= most {
            Some((self.next_offset, self.range_end))
        } else {
            Some((self.next_offset, self.next_offset + most))
        }
    }

    /// Note that the scan has come to `to`, handing on `carry`, with `found`
    /// more candidates.
    pub fn commit(&mut self, to: u64, carry: Carry, found: usize)
        ensures
            *final(self) == (Checkpoint {
                next_offset: to,
                carry,
                rows: bytes::capped(old(self).rows + found) as u64,
                ..*old(self)
            }),
    {
        self.next_offset = to;
        self.carry = carry;
        self.rows = self.rows.saturating_add(found as u64);
    }
}

// ---------------------------------------------------------------------------
// Taking a scan up again
// ---------------------------------------------------------------------------

/// Why a scan of `s`, of which `have` candidates are kept, cannot go on from
/// `c`.
pub open spec fn refusal(c: Checkpoint, s: Source, have: int) -> Option<Seq<char>> {
    if c.source.total_bytes != s.total_bytes {
        Some(
            "refusing to resume: the checkpoint is of a source of "@ + text::dec(
                c.source.total_bytes as int,
            ) + " bytes, and this one has "@ + text::dec(s.total_bytes as int),
        )
    } else if c.source.head@ != s.head@ {
        Some("refusing to resume: the checkpoint is of a source that begins otherwise"@)
    } else if c.source.signatures@ != s.signatures@ {
        Some("refusing to resume: the checkpoint was made with other signatures"@)
    } else if have < c.rows {
        Some(
            "refusing to resume: "@ + text::dec(c.rows as int)
                + " candidates were found, and the index holds "@ + text::dec(have),
        )
    } else {
        None
    }
}

/// Whether a scan of `s` can go on from `c`: it is of the same source, and with
/// the same signatures, and none of the candidates that it found is missing of
/// the `have` that are kept. Those past the ones it found come from a segment
/// that was not finished, and are to be dropped.
pub fn resume(c: &Checkpoint, s: &Source, have: u64) -> (r: core::result::Result<u64, String>)
    ensures
        match r {
            Ok(keep) => refusal(*c, *s, have as int) is None && keep == c.rows,
            Err(m) => refusal(*c, *s, have as int) == Some(m@),
        },
{
    if c.source.total_bytes != s.total_bytes {
        return Err(
            text::cat4(
                "refusing to resume: the checkpoint is of a source of ",
                text::decimal(c.source.total_bytes).as_str(),
                " bytes, and this one has ",
                text::decimal(s.total_bytes).as_str(),
            ),
        );
    }
    if !text::same_text(c.source.head.as_str(), s.head.as_str()) {
        return Err(
            "refusing to resume: the checkpoint is of a source that begins otherwise".to_owned(),
        );
    }
    if !text::same_text(c.source.signatures.as_str(), s.signatures.as_str()) {
        return Err("refusing to resume: the checkpoint was made with other signatures".to_owned());
    }
    if have < c.rows {
        return Err(
            text::cat4(
                "refusing to resume: ",
                text::decimal(c.rows).as_str(),
                " candidates were found, and the index holds ",
                text::decimal(have).as_str(),
            ),
        );
    }
    Ok(c.rows)
}

// ---------------------------------------------------------------------------
// What a scan in segments finds
// ---------------------------------------------------------------------------

impl Checkpoint {
    /// What a scan finds from its start to where this has come.
    pub open spec fn so_far(self, f: Seq<Format>, dev: Seq<u8>, terms: Terms) -> Pass {
        scan::pass(
            f,
            dev,
            self.start as int,
            self.next_offset as int,
            self.range_end as int,
            terms,
            0,
            0,
        )
    }

    /// What a scan that goes on from here finds up to `to`.
    pub open spec fn onward(self, f: Seq<Format>, dev: Seq<u8>, terms: Terms, to: int) -> Pass {
        scan::pass(
            f,
            dev,
            self.next_offset as int,
            to,
            self.range_end as int,
            terms,
            self.carry.cover_end as int,
            self.carry.candidates as int,
        )
    }

    /// Whether a checkpoint holds what a scan has handed on so far.
    pub open spec fn on_course(self, f: Seq<Format>, dev: Seq<u8>, terms: Terms) -> bool {
        let p = self.so_far(f, dev, terms);
        &&& self.start <= self.next_offset <= self.range_end
        &&& self.carry.cover_end == p.cover_end
        &&& self.carry.candidates == p.counted
        &&& self.rows == p.found.len()
    }
}

/// A scan that has not begun is on course.
pub proof fn a_scan_begins_on_course(c: Checkpoint, f: Seq<Format>, dev: Seq<u8>, terms: Terms)
    requires
        c.next_offset == c.start,
        c.start <= c.range_end,
        c.carry == (Carry { cover_end: 0, candidates: 0 }),
        c.rows == 0,
        terms.most >= 0,
    ensures
        c.on_course(f, dev, terms),
{
}

/// Committing what a segment found keeps a scan on course.
pub proof fn a_commit_stays_on_course(
    c: Checkpoint,
    d: Checkpoint,
    f: Seq<Format>,
    dev: Seq<u8>,
    terms: Terms,
)
    requires
        c.on_course(f, dev, terms),
        c.next_offset <= d.next_offset <= c.range_end,
        d.start == c.start,
        d.range_end == c.range_end,
        ({
            let p = c.onward(f, dev, terms, d.next_offset as int);
            &&& d.carry.cover_end == p.cover_end
            &&& d.carry.candidates == p.counted
            &&& d.rows == c.rows + p.found.len()
        }),
    ensures
        d.on_course(f, dev, terms),
{
    scan::segments_add_up(
        f,
        dev,
        c.start as int,
        c.next_offset as int,
        d.next_offset as int,
        c.range_end as int,
        terms,
        0,
        0,
    );
}

/// A scan that is stopped at any checkpoint and taken up again finds the same
/// candidates as one that was never stopped: those from before, and then the
/// rest.
pub proof fn resuming_finds_the_rest(c: Checkpoint, f: Seq<Format>, dev: Seq<u8>, terms: Terms)
    requires
        c.on_course(f, dev, terms),
    ensures
        c.so_far(f, dev, terms).found + c.onward(f, dev, terms, c.range_end as int).found
            == scan::pass(
            f,
            dev,
            c.start as int,
            c.range_end as int,
            c.range_end as int,
            terms,
            0,
            0,
        ).found,
{
    scan::segments_add_up(
        f,
        dev,
        c.start as int,
        c.next_offset as int,
        c.range_end as int,
        c.range_end as int,
        terms,
        0,
        0,
    );
}

/// Add the numbers of one segment to those of the segments before it.
pub fn gather(total: &mut ScanStats, more: &ScanStats)
    ensures
        final(total).bytes_scanned == bytes::capped(old(total).bytes_scanned + more.bytes_scanned),
        final(total).elapsed_nanos == bytes::capped(old(total).elapsed_nanos + more.elapsed_nanos),
        final(total).prefilter_hits == bytes::capped(
            old(total).prefilter_hits + more.prefilter_hits,
        ),
        final(total).header_matches == bytes::capped(
            old(total).header_matches + more.header_matches,
        ),
        final(total).validated == bytes::capped(old(total).validated + more.validated),
        final(total).rejected == bytes::capped(old(total).rejected + more.rejected),
        final(total).suppressed_contained == bytes::capped(
            old(total).suppressed_contained + more.suppressed_contained,
        ),
        final(total).window_capped == bytes::capped(old(total).window_capped + more.window_capped),
        final(total).window_artifact_lengths == bytes::capped(
            old(total).window_artifact_lengths + more.window_artifact_lengths,
        ),
        final(total).truncated == (old(total).truncated || more.truncated),
        final(total).strategy == more.strategy,
        final(total).threads == more.threads,
        final(total).signatures == more.signatures,
{
    total.bytes_scanned = total.bytes_scanned.saturating_add(more.bytes_scanned);
    total.elapsed_nanos = total.elapsed_nanos.saturating_add(more.elapsed_nanos);
    total.prefilter_hits = total.prefilter_hits.saturating_add(more.prefilter_hits);
    total.header_matches = total.header_matches.saturating_add(more.header_matches);
    total.validated = total.validated.saturating_add(more.validated);
    total.rejected = total.rejected.saturating_add(more.rejected);
    total.suppressed_contained = total.suppressed_contained.saturating_add(
        more.suppressed_contained,
    );
    total.window_capped = total.window_capped.saturating_add(more.window_capped);
    total.window_artifact_lengths = total.window_artifact_lengths.saturating_add(
        more.window_artifact_lengths,
    );
    total.truncated = total.truncated || more.truncated;
    total.strategy = more.strategy;
    total.threads = more.threads;
    total.signatures = more.signatures;
}

/// Scan what is left of a device image, a segment of at most `most` bytes at a
/// time.
pub fn scan_on(
    device: &[u8],
    db: &SignatureDb,
    c: &mut Checkpoint,
    most: u64,
    opts: &ScanOptions,
) -> (r: Result<Vec<Candidate>>)
    requires
        scan::scannable(scan::chosen(db@, scan::wanted(opts.only)), opts.block_bytes),
        most > 0,
        old(c).next_offset <= old(c).range_end,
    ensures
        ({
            let f = scan::chosen(db@, scan::wanted(opts.only));
            let p = old(c).onward(f, device@, opts.terms(), old(c).range_end as int);
            match r {
                Ok(v) => {
                    &&& scan::all_found(v@) == p.found
                    &&& final(c).next_offset == old(c).range_end
                    &&& final(c).range_end == old(c).range_end
                    &&& final(c).start == old(c).start
                    &&& final(c).source == old(c).source
                    &&& final(c).carry.cover_end == p.cover_end
                    &&& final(c).carry.candidates == p.counted
                    &&& final(c).rows == bytes::capped(old(c).rows + p.found.len())
                },
                Err(e) => {
                    &&& f.len() == 0
                    &&& old(c).next_offset < old(c).range_end
                    &&& *final(c) == *old(c)
                    &&& e matches CarveError::SignatureDb { detail } && detail@
                        == "no signatures selected for the scan"@
                },
            }
        }),
{
    let ghost f = scan::chosen(db@, scan::wanted(opts.only));
    let ghost was = *c;
    let mut all: Vec<Candidate> = Vec::new();
    proof {
        assert(scan::all_found(all@) =~= was.onward(
            f,
            device@,
            opts.terms(),
            was.next_offset as int,
        ).found);
    }
    loop
        invariant
            scan::scannable(f, opts.block_bytes),
            most > 0,
            was == *old(c),
            f == scan::chosen(db@, scan::wanted(opts.only)),
            was.next_offset <= c.next_offset <= c.range_end == was.range_end,
            c.start == was.start,
            c.source == was.source,
            ({
                let p = was.onward(f, device@, opts.terms(), c.next_offset as int);
                &&& scan::all_found(all@) == p.found
                &&& c.carry.cover_end == p.cover_end
                &&& c.carry.candidates == p.counted
                &&& c.rows == bytes::capped(was.rows + p.found.len())
            }),
            f.len() > 0 || *c == was,
        decreases c.range_end - c.next_offset,
    {
        let (from, to): (u64, u64) = match c.next_segment(most) {
            None => {
                return Ok(all);
            },
            Some(s) => s,
        };
        let mut carry: Carry = c.carry;
        match scan_segment(device, db, from, to, c.range_end, opts, &mut carry) {
            Err(e) => {
                return Err(e);
            },
            Ok(found) => {
                let mut more: Vec<Candidate> = found.candidates;
                let ghost before = scan::all_found(all@);
                let ghost after = scan::all_found(more@);
                let n: usize = more.len();
                all.append(&mut more);
                proof {
                    scan::segments_add_up(
                        f,
                        device@,
                        was.next_offset as int,
                        from as int,
                        to as int,
                        was.range_end as int,
                        opts.terms(),
                        was.carry.cover_end as int,
                        was.carry.candidates as int,
                    );
                    assert(scan::all_found(all@) =~= before + after);
                }
                c.commit(to, carry, n);
            },
        }
    }
}

} // verus!
