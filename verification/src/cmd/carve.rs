//! Signature carving, with the numbers that make it judgeable.
//!
//! A carve is judged by its denominator, not by its hit count. Reporting how
//! many files were recovered says nothing without saying how many candidates
//! had to be produced to get them, so the report has both, whether or not the
//! carve went well.

use vstd::prelude::*;
use vstd::string::*;
use crate::output;
use crate::scan::{Candidate, ScanOptions, ScanStats};
use crate::text;
use crate::validate::Status;

verus! {

/// Where a carve ends: where it was told to, or at the end of the device,
/// whichever is first. There must be something before that.
pub fn range_end(start: u64, end: Option<u64>, total: u64) -> (r: Result<u64, String>)
    ensures
        ({
            let want = match end {
                Some(e) => e,
                None => total,
            };
            let stop = if want <= total {
                want
            } else {
                total
            };
            match r {
                Ok(e) => start < stop && e == stop,
                Err(m) => start >= stop && m@ == "nothing to scan: start "@ + text::dec(
                    start as int,
                ) + " is not before end "@ + text::dec(stop as int),
            }
        }),
{
    let want: u64 = match end {
        Some(e) => e,
        None => total,
    };
    let stop: u64 = if want <= total {
        want
    } else {
        total
    };
    if start < stop {
        Ok(stop)
    } else {
        Err(
            text::cat4(
                "nothing to scan: start ",
                text::decimal(start).as_str(),
                " is not before end ",
                text::decimal(stop).as_str(),
            ),
        )
    }
}

/// The name of the index that goes beside a source of this file name.
pub fn index_name(source: Option<&str>) -> (r: String)
    ensures
        r@ == (match source {
            Some(n) => n@,
            None => "carve"@,
        }) + ".rcindex"@,
{
    match source {
        Some(n) => text::cat2(n, ".rcindex"),
        None => text::cat2("carve", ".rcindex"),
    }
}

/// The options of a scan, from the flags of the command.
pub fn options(
    block_bytes: usize,
    threads: Option<usize>,
    no_validate: bool,
    validation_window: usize,
    only: Vec<String>,
    keep_contained: bool,
) -> (r: ScanOptions)
    ensures
        r.block_bytes == block_bytes,
        r.threads == threads,
        r.validate == !no_validate,
        r.validation_window == validation_window,
        r.only == (if only@.len() == 0 {
            None
        } else {
            Some(only)
        }),
        r.suppress_contained == !keep_contained,
        r.max_candidates == 5_000_000,
{
    let base = ScanOptions::default();
    ScanOptions {
        block_bytes,
        threads,
        validate: !no_validate,
        validation_window,
        only: if only.len() == 0 {
            None
        } else {
            Some(only)
        },
        suppress_contained: !keep_contained,
        max_candidates: base.max_candidates,
    }
}

// ---------------------------------------------------------------------------
// Candidates by extension
// ---------------------------------------------------------------------------

/// How many of the first `n` candidates have an extension.
pub open spec fn of_extension(c: Seq<Candidate>, ext: Seq<char>, n: int) -> int
    decreases n,
{
    if n <= 0 {
        0
    } else {
        of_extension(c, ext, n - 1) + (if c[n - 1].ext@ == ext {
            1int
        } else {
            0
        })
    }
}

/// Whether `counts` lists each extension of the first `n` candidates once, in
/// order, with the number of candidates that have it.
pub open spec fn counted(counts: Seq<(String, u64)>, c: Seq<Candidate>, n: int) -> bool {
    &&& forall|i: int, j: int|
        0 <= i < j < counts.len() ==> text::sooner(
            (#[trigger] counts[i]).0@,
            (#[trigger] counts[j]).0@,
        )
    &&& forall|i: int|
        0 <= i < counts.len() ==> (#[trigger] counts[i]).1 == of_extension(c, counts[i].0@, n)
    &&& forall|i: int| 0 <= i < counts.len() ==> (#[trigger] counts[i]).1 > 0
    &&& forall|k: int| 0 <= k < n ==> #[trigger] names(counts, c[k].ext@)
}

/// Whether an extension is listed.
pub open spec fn names(counts: Seq<(String, u64)>, ext: Seq<char>) -> bool {
    exists|i: int| 0 <= i < counts.len() && (#[trigger] counts[i]).0@ == ext
}

proof fn no_more_than_there_are(c: Seq<Candidate>, ext: Seq<char>, n: int)
    requires
        0 <= n,
    ensures
        0 <= of_extension(c, ext, n) <= n,
    decreases n,
{
    if n > 0 {
        no_more_than_there_are(c, ext, n - 1);
    }
}

/// Where `ext` stands in the list, or would stand.
fn place(counts: &Vec<(String, u64)>, ext: &str) -> (r: usize)
    requires
        forall|i: int, j: int|
            0 <= i < j < counts@.len() ==> text::sooner(
                (#[trigger] counts@[i]).0@,
                (#[trigger] counts@[j]).0@,
            ),
    ensures
        r <= counts@.len(),
        forall|i: int| 0 <= i < r ==> text::sooner((#[trigger] counts@[i]).0@, ext@),
        forall|i: int| r <= i < counts@.len() ==> !text::sooner((#[trigger] counts@[i]).0@, ext@),
{
    let mut i: usize = 0;
    while i < counts.len() && text::comes_first(counts[i].0.as_str(), ext)
        invariant
            i <= counts@.len(),
            forall|k: int| 0 <= k < i ==> text::sooner((#[trigger] counts@[k]).0@, ext@),
        decreases counts@.len() - i,
    {
        i += 1;
    }
    assert forall|k: int| i <= k < counts@.len() implies !text::sooner(
        (#[trigger] counts@[k]).0@,
        ext@,
    ) by {
        let here = counts@[i as int].0@;
        text::texts_are_ordered(here, counts@[k].0@, ext@);
    }
    i
}

/// How many candidates there are of each extension, in order.
pub fn by_extension(candidates: &Vec<Candidate>) -> (r: Vec<(String, u64)>)
    ensures
        counted(r@, candidates@, candidates@.len() as int),
{
    let mut counts: Vec<(String, u64)> = Vec::new();
    let mut n: usize = 0;
    while n < candidates.len()
        invariant
            n <= candidates@.len(),
            counted(counts@, candidates@, n as int),
        decreases candidates@.len() - n,
    {
        let ext: &str = candidates[n].ext.as_str();
        let at: usize = place(&counts, ext);
        let ghost was = counts@;
        let ghost e = ext@;
        if at < counts.len() && text::same_text(counts[at].0.as_str(), ext) {
            let more: u64 = {
                proof {
                    no_more_than_there_are(candidates@, e, n as int);
                }
                counts[at].1 + 1
            };
            let name: String = counts[at].0.clone();
            counts.set(at, (name, more));
            proof {
                assert forall|i: int| 0 <= i < counts@.len() implies (#[trigger] counts@[i]).1
                    == of_extension(candidates@, counts@[i].0@, n + 1) && counts@[i].1 > 0
                    && counts@[i].0@ == was[i].0@ by {
                    if i != at {
                        text::texts_are_ordered(was[i].0@, was[at as int].0@, e);
                        if i < at {
                            assert(text::sooner(was[i].0@, was[at as int].0@));
                        } else {
                            assert(text::sooner(was[at as int].0@, was[i].0@));
                        }
                    }
                }
                assert forall|k: int| 0 <= k < n + 1 implies #[trigger] names(
                    counts@,
                    candidates@[k].ext@,
                ) by {
                    if k < n {
                        assert(names(was, candidates@[k].ext@));
                        let i = choose|i: int|
                            0 <= i < was.len() && (#[trigger] was[i]).0@ == candidates@[k].ext@;
                        assert(counts@[i].0@ == candidates@[k].ext@);
                    } else {
                        assert(counts@[at as int].0@ == e);
                    }
                }
                assert forall|i: int, j: int| 0 <= i < j < counts@.len() implies text::sooner(
                    (#[trigger] counts@[i]).0@,
                    (#[trigger] counts@[j]).0@,
                ) by {
                    assert(text::sooner(was[i].0@, was[j].0@));
                }
            }
        } else {
            counts.insert(at, (ext.to_owned(), 1));
            proof {
                new_extension(was, candidates@, n as int, at as int, counts@);
            }
        }
        n += 1;
    }
    counts
}

proof fn new_extension(
    was: Seq<(String, u64)>,
    c: Seq<Candidate>,
    n: int,
    at: int,
    now: Seq<(String, u64)>,
)
    requires
        0 <= n < c.len(),
        0 <= at <= was.len(),
        counted(was, c, n),
        forall|i: int| 0 <= i < at ==> text::sooner((#[trigger] was[i]).0@, c[n].ext@),
        forall|i: int| at <= i < was.len() ==> !text::sooner((#[trigger] was[i]).0@, c[n].ext@),
        at < was.len() ==> was[at].0@ != c[n].ext@,
        now == was.insert(at, now[at]),
        now[at].0@ == c[n].ext@,
        now[at].1 == 1,
    ensures
        counted(now, c, n + 1),
{
    let e = c[n].ext@;
    assert forall|i: int| 0 <= i < was.len() implies (#[trigger] was[i]).0@ != e && (i >= at
        ==> text::sooner(e, was[i].0@)) by {
        text::texts_are_ordered(was[i].0@, e, e);
        if at < was.len() {
            text::texts_are_ordered(was[at].0@, e, e);
            text::texts_are_ordered(e, was[at].0@, was[i].0@);
            if i > at {
                assert(text::sooner(was[at].0@, was[i].0@));
            }
        }
    }
    assert(!names(was, e));
    none_of(was, c, e, n);
    assert forall|i: int, j: int| 0 <= i < j < now.len() implies text::sooner(
        (#[trigger] now[i]).0@,
        (#[trigger] now[j]).0@,
    ) by {
        let a = if i < at {
            i
        } else {
            i - 1
        };
        let b = if j < at {
            j
        } else {
            j - 1
        };
        if i != at && j != at {
            assert(now[i] == was[a] && now[j] == was[b]);
            assert(text::sooner(was[a].0@, was[b].0@));
        } else if i == at {
            assert(now[j] == was[b]);
        } else {
            assert(now[i] == was[a]);
        }
    }
    assert forall|i: int| 0 <= i < now.len() implies (#[trigger] now[i]).1 == of_extension(
        c,
        now[i].0@,
        n + 1,
    ) && now[i].1 > 0 by {
        if i < at {
            assert(now[i] == was[i]);
        } else if i > at {
            assert(now[i] == was[i - 1]);
        }
    }
    assert forall|k: int| 0 <= k < n + 1 implies #[trigger] names(now, c[k].ext@) by {
        if k < n {
            assert(names(was, c[k].ext@));
            let i = choose|i: int| 0 <= i < was.len() && (#[trigger] was[i]).0@ == c[k].ext@;
            let j = if i < at {
                i
            } else {
                i + 1
            };
            assert(now[j] == was[i]);
        } else {
            assert(now[at].0@ == e);
        }
    }
}

proof fn none_of(was: Seq<(String, u64)>, c: Seq<Candidate>, e: Seq<char>, n: int)
    requires
        0 <= n <= c.len(),
        forall|k: int| 0 <= k < n ==> #[trigger] names(was, c[k].ext@),
        !names(was, e),
    ensures
        of_extension(c, e, n) == 0,
    decreases n,
{
    if n > 0 {
        none_of(was, c, e, n - 1);
        assert(names(was, c[n - 1].ext@));
    }
}

// ---------------------------------------------------------------------------
// The report
// ---------------------------------------------------------------------------

pub open spec fn status_name(s: Status) -> Seq<char> {
    match s {
        Status::Valid => "valid"@,
        Status::Partial => "partial"@,
        Status::Rejected => "rejected"@,
    }
}

/// A status in one word.
pub fn status_text(s: Status) -> (r: &'static str)
    ensures
        r@ == status_name(s),
{
    match s {
        Status::Valid => "valid",
        Status::Partial => "partial",
        Status::Rejected => "rejected",
    }
}

/// What is to be said about the speed that a scan reports, if anything.
pub fn speed_note(unbuffered: bool, stats: &ScanStats) -> (r: Option<String>)
    ensures
        match r {
            Some(m) => if unbuffered {
                m@
                    == "note: read unbuffered - this figure describes the storage device, not the page cache"@
            } else {
                stats.warned() is Some && m@ == "note: "@ + stats.warned()->Some_0
                    + " (pass --unbuffered to measure the disk instead)"@
            },
            None => !unbuffered && stats.warned() is None,
        },
{
    if unbuffered {
        Some(
            "note: read unbuffered - this figure describes the storage device, not the page cache".to_owned(),
        )
    } else {
        match stats.cache_warning() {
            Some(w) => Some(
                text::cat3("note: ", w, " (pass --unbuffered to measure the disk instead)"),
            ),
            None => None,
        }
    }
}

/// A number at the end of a line's first 40 columns.
pub open spec fn counter(label: Seq<char>, n: int) -> Seq<char> {
    label + output::indented(text::dec(n), 12)
}

/// What the scanner produced, before and after validation. `per_gb` and
/// `survived` are the header matches per GB scanned and the percentage of them
/// that survived, as text.
pub open spec fn produced_text(
    s: ScanStats,
    per_gb: Seq<char>,
    survived: Seq<char>,
    window: int,
    emitted: int,
) -> Seq<Seq<char>> {
    seq![
        "what the scanner produced, before and after validation:"@,
        counter("  prefilter hits            "@, s.prefilter_hits as int),
        counter("  header matches            "@, s.header_matches as int) + "   = "@ + per_gb
            + " per GB scanned"@,
        counter("  rejected by a validator   "@, s.rejected as int) + "   ("@ + survived
            + "% of header matches survived)"@,
        counter("  suppressed as contained   "@, s.suppressed_contained as int)
            + "   (thumbnails, images inside documents)"@,
    ] + (if s.window_capped > 0 {
        seq![
            counter("  validated on a part view  "@, s.window_capped as int)
                + "   (format allows more than the "@ + output::size_text(window) + " window)"@,
        ]
    } else {
        Seq::<Seq<char>>::empty()
    }) + (if s.window_artifact_lengths > 0 {
        seq![
            counter("  length discarded          "@, s.window_artifact_lengths as int)
                + "   (was the window size, not a file length)"@,
        ]
    } else {
        Seq::<Seq<char>>::empty()
    }) + seq![counter("  candidates emitted        "@, emitted)] + (if s.truncated {
        seq!["  WARNING: the candidate limit was reached; results are incomplete."@]
    } else {
        Seq::<Seq<char>>::empty()
    })
}

fn count_line(label: &str, n: u64) -> (r: String)
    ensures
        r@ == counter(label@, n as int),
{
    text::cat2(label, output::indent(text::decimal(n).as_str(), 12).as_str())
}

/// What the scanner produced, before and after validation, as lines of text.
pub fn produced_lines(
    s: &ScanStats,
    per_gb: &str,
    survived: &str,
    window: u64,
    emitted: usize,
) -> (r: Vec<String>)
    ensures
        text::texts(r@) == produced_text(*s, per_gb@, survived@, window as int, emitted as int),
{
    let mut out: Vec<String> = Vec::new();
    text::say(&mut out, "what the scanner produced, before and after validation:".to_owned());
    text::say(&mut out, count_line("  prefilter hits            ", s.prefilter_hits));
    text::say(
        &mut out,
        text::cat4(
            count_line("  header matches            ", s.header_matches).as_str(),
            "   = ",
            per_gb,
            " per GB scanned",
        ),
    );
    text::say(
        &mut out,
        text::cat4(
            count_line("  rejected by a validator   ", s.rejected).as_str(),
            "   (",
            survived,
            "% of header matches survived)",
        ),
    );
    text::say(
        &mut out,
        text::cat2(
            count_line("  suppressed as contained   ", s.suppressed_contained).as_str(),
            "   (thumbnails, images inside documents)",
        ),
    );
    if s.window_capped > 0 {
        text::say(
            &mut out,
            text::cat4(
                count_line("  validated on a part view  ", s.window_capped).as_str(),
                "   (format allows more than the ",
                output::human_bytes(window).as_str(),
                " window)",
            ),
        );
    }
    if s.window_artifact_lengths > 0 {
        text::say(
            &mut out,
            text::cat2(
                count_line("  length discarded          ", s.window_artifact_lengths).as_str(),
                "   (was the window size, not a file length)",
            ),
        );
    }
    text::say(&mut out, count_line("  candidates emitted        ", emitted as u64));
    if s.truncated {
        text::say(
            &mut out,
            "  WARNING: the candidate limit was reached; results are incomplete.".to_owned(),
        );
    }
    assert(text::texts(out@) =~= produced_text(
        *s,
        per_gb@,
        survived@,
        window as int,
        emitted as int,
    ));
    out
}

/// The extensions with their counts, as lines of text.
pub open spec fn extensions_text(counts: Seq<(String, u64)>) -> Seq<Seq<char>> {
    Seq::new(
        counts.len(),
        |i: int|
            "  "@ + output::padded(counts[i].0@, 10) + " "@ + output::indented(
                text::dec(counts[i].1 as int),
                10,
            ),
    )
}

/// The extensions with their counts, as lines of text.
pub fn extension_lines(counts: &Vec<(String, u64)>) -> (r: Vec<String>)
    ensures
        text::texts(r@) == extensions_text(counts@),
{
    let mut out: Vec<String> = Vec::new();
    let mut i: usize = 0;
    while i < counts.len()
        invariant
            i <= counts@.len(),
            text::texts(out@) =~= extensions_text(counts@).subrange(0, i as int),
        decreases counts@.len() - i,
    {
        let line: String = text::cat4(
            "  ",
            output::pad(counts[i].0.as_str(), 10).as_str(),
            " ",
            output::indent(text::decimal(counts[i].1).as_str(), 10).as_str(),
        );
        text::say(&mut out, line);
        i += 1;
    }
    assert(extensions_text(counts@).subrange(0, i as int) =~= extensions_text(counts@));
    out
}

/// A candidate as one line of text: at most sixty characters of its detail, and
/// a dash for a length that is not known.
pub open spec fn candidate_text(c: Candidate) -> Seq<char> {
    "  "@ + output::indented(text::dec(c.offset as int), 14) + "  "@ + output::indented(
        if c.length > 0 {
            text::dec(c.length as int)
        } else {
            "-"@
        },
        12,
    ) + "  "@ + output::padded(c.ext@, 8) + " "@ + output::padded(status_name(c.status), 8) + " "@
        + text::cut(c.detail@, 60)
}

/// A candidate as one line of text.
pub fn candidate_line(c: &Candidate) -> (r: String)
    ensures
        r@ == candidate_text(*c),
{
    let length: String = if c.length > 0 {
        text::decimal(c.length)
    } else {
        "-".to_owned()
    };
    let start: String = text::cat6(
        "  ",
        output::indent(text::decimal(c.offset).as_str(), 14).as_str(),
        "  ",
        output::indent(length.as_str(), 12).as_str(),
        "  ",
        output::pad(c.ext.as_str(), 8).as_str(),
    );
    text::cat5(
        start.as_str(),
        " ",
        output::pad(status_text(c.status), 8).as_str(),
        " ",
        text::take(c.detail.as_str(), 60),
    )
}

/// How many candidates are shown.
pub open spec fn how_many(n: int, show: int) -> int {
    if show <= n {
        show
    } else {
        n
    }
}

/// The first candidates, as lines of text; none where none are to be shown.
pub open spec fn first_text(c: Seq<Candidate>, show: int) -> Seq<Seq<char>> {
    let n = how_many(c.len() as int, show);
    if n <= 0 {
        Seq::empty()
    } else {
        seq![
            "first "@ + text::dec(n) + " candidates:"@,
            "          offset        length  ext      status   detail"@,
        ] + Seq::new(n as nat, |i: int| candidate_text(c[i]))
    }
}

/// The first candidates, as lines of text.
pub fn first_lines(c: &Vec<Candidate>, show: usize) -> (r: Vec<String>)
    ensures
        text::texts(r@) == first_text(c@, show as int),
{
    let mut out: Vec<String> = Vec::new();
    let n: usize = if show <= c.len() {
        show
    } else {
        c.len()
    };
    if n == 0 {
        assert(text::texts(out@) =~= Seq::<Seq<char>>::empty());
        return out;
    }
    text::say(
        &mut out,
        text::cat3("first ", text::decimal(n as u64).as_str(), " candidates:"),
    );
    text::say(&mut out, "          offset        length  ext      status   detail".to_owned());
    let mut i: usize = 0;
    while i < n
        invariant
            i <= n <= c@.len(),
            n == how_many(c@.len() as int, show as int),
            n > 0,
            text::texts(out@) =~= first_text(c@, show as int).subrange(0, i + 2),
        decreases n - i,
    {
        text::say(&mut out, candidate_line(&c[i]));
        i += 1;
    }
    assert(first_text(c@, show as int).subrange(0, i + 2) =~= first_text(c@, show as int));
    out
}

} // verus!
