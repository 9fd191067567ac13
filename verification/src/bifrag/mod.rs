//! Fragment reassembly.
//!
//! A carved file whose clusters are not contiguous on the disk comes back from
//! the scanner as a truncated or spliced candidate. Reassembly tries to put it
//! back together, under one assumption: a file's fragments are in ascending
//! order on the disk.
//!
//! Given that, a file is an increasing sequence of clusters, grown one decision
//! at a time: the physically next cluster first, then each one further on, up
//! to a window. Every candidate is judged by the format's validator, through
//! whether it ran out of data or found something that cannot belong, and how
//! far it can vouch for the bytes. A wrong choice is undone by backtracking.
//! The window deepens: 16 clusters first, then 256, then the configured
//! maximum.
//!
//! The search reads no device itself. [`Search`] says which bytes it wants next
//! and is fed them.

pub mod ending;
pub mod finding;
pub mod laws;
pub mod search;
pub mod turning;

use vstd::prelude::*;
use vstd::string::*;
use crate::text;
use crate::validate::Status;

pub use search::{Request, Search, Texture};

verus! {

#[derive(Debug)]
pub enum BifragError {
    /// There is nothing to judge a splice by.
    NoValidator(String),
}

impl BifragError {
    /// The error as text.
    pub open spec fn told(self) -> Seq<char> {
        match self {
            BifragError::NoValidator(id) => "no validator named "@ + text::quoted(id@)
                + "; reassembly needs one to judge each splice"@,
        }
    }

    pub fn message(&self) -> (r: String)
        ensures
            r@ == self.told(),
    {
        match self {
            BifragError::NoValidator(id) => text::cat3(
                "no validator named ",
                text::quote(id.as_str()).as_str(),
                "; reassembly needs one to judge each splice",
            ),
        }
    }
}

#[derive(Clone, Copy, Debug)]
pub struct Options {
    /// Allocation unit of the filesystem the file lived on. Fragments start and
    /// end on these boundaries.
    pub cluster: u64,
    /// The widest search for the next fragment, in clusters past the end of
    /// the last one. A cost bound, not a model of disks.
    pub max_gap_clusters: u64,
    /// Longest file to assemble, in clusters. A safety bound.
    pub max_clusters: u64,
    /// Validator calls allowed for one attempt at one window.
    pub budget: u64,
    /// Clusters a path may grow without the verified length moving before the
    /// branch is abandoned.
    pub max_unverified_clusters: u64,
    /// Window used when re-trying a cluster that was taken from the middle of a
    /// run the validator was vouching for.
    pub continuation_window: u64,
    /// Bytes validated per attempt. Every call re-validates the whole file so
    /// far, so this is the honest cost measure.
    pub budget_bytes: u64,
    /// Clusters validated in one call when extending a run that is verifying.
    pub run_clusters: u64,
    /// Clusters past a non-adjacent candidate to append when the candidate
    /// alone neither verifies nor contradicts.
    pub lookahead_clusters: u64,
}

impl Default for Options {
    fn default() -> (r: Options)
        ensures
            r == (Options {
                cluster: 4096,
                max_gap_clusters: 4096,
                max_clusters: 65536,
                budget: 200_000,
                max_unverified_clusters: 64,
                continuation_window: 16,
                budget_bytes: 0x1_0000_0000,
                run_clusters: 256,
                lookahead_clusters: 8,
            }),
    {
        Options {
            cluster: 4096,
            // 16 MiB at 4 KiB clusters.
            max_gap_clusters: 4096,
            max_clusters: 65536,
            budget: 200_000,
            // 256 KiB with nothing verified.
            max_unverified_clusters: 64,
            continuation_window: 16,
            // 4 GiB of validation.
            budget_bytes: 0x1_0000_0000,
            // 1 MiB per call.
            run_clusters: 256,
            // 32 KiB: twice the distance of restart markers in a camera's JPEG.
            lookahead_clusters: 8,
        }
    }
}

/// A list of numbers.
pub open spec fn ints(v: Seq<u64>) -> Seq<int> {
    Seq::new(v.len(), |i: int| v[i] as int)
}

/// How far a window is from the maximum.
pub open spec fn to_go(w: int, max: int) -> int {
    if w < max {
        max - w
    } else {
        0
    }
}

/// The windows from `w` on: each sixteen times as wide as the one before, and
/// last of all `max`, which is at least one.
pub open spec fn windows_from(w: int, max: int) -> Seq<int>
    decreases to_go(w, max),
{
    if 0 < w && w < max {
        seq![w] + windows_from(16 * w, max)
    } else {
        seq![if max >= 1 {
            max
        } else {
            1
        }]
    }
}

/// The windows the search deepens through.
pub open spec fn windows_of(max: int) -> Seq<int> {
    windows_from(16, max)
}

/// The windows the search deepens through: 16, then 16 times wider, up to
/// `max`.
pub fn windows(max: u64) -> (r: Vec<u64>)
    ensures
        ints(r@) == windows_of(max as int),
{
    let mut out: Vec<u64> = Vec::new();
    let mut w: u64 = 16;
    assert(ints(out@) + windows_from(16, max as int) =~= windows_of(max as int));
    while w < max
        invariant
            w > 0,
            ints(out@) + windows_from(w as int, max as int) == windows_of(max as int),
        decreases to_go(w as int, max as int),
    {
        let ghost before = ints(out@);
        out.push(w);
        assert(ints(out@) =~= before.push(w as int));
        let ghost rest = windows_from(16 * w, max as int);
        assert(before + (seq![w as int] + rest) =~= ints(out@) + rest);
        if w > 0xFFF_FFFF_FFFF_FFFF {
            // Sixteen times this is more than any maximum.
            assert(windows_from(16 * w, max as int) == windows_from(max as int, max as int));
            w = max;
        } else {
            w = w * 16;
        }
    }
    let last: u64 = if max >= 1 {
        max
    } else {
        1
    };
    let ghost before = ints(out@);
    out.push(last);
    assert(ints(out@) =~= before + seq![last as int]);
    out
}

/// The windows only deepen, and the last is the widest there is.
pub proof fn windows_deepen(w: int, max: int)
    requires
        0 < w,
    ensures
        windows_from(w, max).len() > 0,
        windows_from(w, max).last() == if max >= 1 {
            max
        } else {
            1
        },
        forall|i: int|
            0 <= i < windows_from(w, max).len() - 1 ==> (#[trigger] windows_from(w, max)[i]) < max,
        forall|i: int, j: int|
            0 <= i < j < windows_from(w, max).len() ==> (#[trigger] windows_from(w, max)[i]) < (
            #[trigger] windows_from(w, max)[j]),
        forall|i: int|
            0 <= i < windows_from(w, max).len() ==> (#[trigger] windows_from(w, max)[i]) >= 1 && (w
                < max ==> windows_from(w, max)[i] >= w),
    decreases to_go(w, max),
{
    if w < max {
        windows_deepen(16 * w, max);
        let rest = windows_from(16 * w, max);
        let all = windows_from(w, max);
        assert(all =~= seq![w] + rest);
        assert(all.last() == rest.last());
        assert forall|i: int| 0 <= i < all.len() - 1 implies (#[trigger] all[i]) < max by {
            if i > 0 {
                assert(all[i] == rest[i - 1]);
            }
        }
        assert forall|i: int, j: int| 0 <= i < j < all.len() implies (#[trigger] all[i]) < (
        #[trigger] all[j]) by {
            assert(all[j] == rest[j - 1]);
            if i > 0 {
                assert(all[i] == rest[i - 1]);
            }
        }
        assert forall|i: int| 0 <= i < all.len() implies (#[trigger] all[i]) >= 1 && all[i]
            >= w by {
            if i > 0 {
                assert(all[i] == rest[i - 1]);
            }
        }
    }
}

/// One contiguous run of the reassembled file.
#[derive(Clone, Copy, Debug, PartialEq, Eq, Structural)]
pub struct Piece {
    pub offset: u64,
    pub length: u64,
}

#[derive(Clone, Copy, Debug, PartialEq, Eq, Structural)]
pub enum Method {
    /// The file lay in one run on the disk. No reassembly was needed.
    Contiguous,
    /// Stitched from this many in-order fragments.
    Sequential { fragments: usize },
}

#[derive(Clone, Debug)]
pub struct Reassembly {
    /// The file's runs, in order.
    pub pieces: Vec<Piece>,
    pub method: Method,
    /// The validator's verdict on the assembled bytes. `Valid` means complete
    /// and internally consistent; anything else means reassembly stopped short
    /// and `pieces` is the furthest-verified path it found.
    pub status: Status,
    /// Bytes the validator vouches for.
    pub length: u64,
    /// Validator calls spent. The cost of the result, and part of its evidence.
    pub validator_calls: u64,
    /// Times the search abandoned a decision and tried another.
    pub backtracks: u64,
    /// Bytes handed to the validator, summed over every call.
    pub validated_bytes: u64,
    /// Candidate clusters refused on entropy before any validator saw them.
    pub prefiltered: u64,
    /// The search window, in clusters, of the attempt that produced this.
    pub window: u64,
    pub detail: String,
}

/// The mathematical content of a [`Reassembly`], its method aside.
#[verifier::ext_equal]
pub struct Report {
    pub pieces: Seq<(int, int)>,
    pub status: Status,
    pub length: int,
    pub calls: int,
    pub backtracks: int,
    pub bytes: int,
    pub prefiltered: int,
    pub window: int,
    pub detail: Seq<char>,
}

/// Runs as pairs of offset and length.
pub open spec fn spans(p: Seq<Piece>) -> Seq<(int, int)> {
    Seq::new(p.len(), |i: int| (p[i].offset as int, p[i].length as int))
}

impl Reassembly {
    pub open spec fn report(self) -> Report {
        Report {
            pieces: spans(self.pieces@),
            status: self.status,
            length: self.length as int,
            calls: self.validator_calls as int,
            backtracks: self.backtracks as int,
            bytes: self.validated_bytes as int,
            prefiltered: self.prefiltered as int,
            window: self.window as int,
            detail: self.detail@,
        }
    }

    /// Whether the method is the one that the number of runs makes it.
    pub open spec fn method_fits(self) -> bool {
        self.method == if self.pieces@.len() <= 1 {
            Method::Contiguous
        } else {
            Method::Sequential { fragments: self.pieces@.len() as usize }
        }
    }

    pub fn fragments(&self) -> (r: usize)
        ensures
            r == self.pieces@.len(),
    {
        self.pieces.len()
    }
}

// ---------------------------------------------------------------------------
// Runs
// ---------------------------------------------------------------------------

/// Whether clusters of `c` bytes lie in ascending order without overlapping.
pub open spec fn apart(chosen: Seq<int>, c: int) -> bool {
    forall|i: int, j: int|
        0 <= i < j < chosen.len() ==> (#[trigger] chosen[i]) + c <= (#[trigger] chosen[j])
}

/// The first `n` clusters collapsed into runs.
pub open spec fn runs_upto(chosen: Seq<int>, c: int, n: int) -> Seq<(int, int)>
    decreases n,
{
    if n <= 0 {
        Seq::empty()
    } else {
        let before = runs_upto(chosen, c, n - 1);
        if before.len() > 0 && before.last().0 + before.last().1 == chosen[n - 1] {
            before.update(before.len() - 1, (before.last().0, before.last().1 + c))
        } else {
            before.push((chosen[n - 1], c))
        }
    }
}

/// The bytes in the first `n` runs.
pub open spec fn held(runs: Seq<(int, int)>, n: int) -> int
    decreases n,
{
    if n <= 0 {
        0
    } else {
        held(runs, n - 1) + runs[n - 1].1
    }
}

/// The first `n` runs cut off after `length` bytes, with nothing left empty.
pub open spec fn cut_upto(runs: Seq<(int, int)>, length: int, n: int) -> Seq<(int, int)>
    decreases n,
{
    if n <= 0 {
        Seq::empty()
    } else {
        let left = length - held(runs, n - 1);
        let before = cut_upto(runs, length, n - 1);
        if left <= 0 || runs[n - 1].1 <= 0 {
            before
        } else {
            before.push((runs[n - 1].0, least(left, runs[n - 1].1)))
        }
    }
}

pub open spec fn least(a: int, b: int) -> int {
    if a <= b {
        a
    } else {
        b
    }
}

/// The length that clusters can hold of a claimed one.
pub open spec fn kept_length(chosen: Seq<int>, c: int, length: int) -> int {
    let runs = runs_upto(chosen, c, chosen.len() as int);
    least(length, held(runs, runs.len() as int))
}

/// The runs of a file of `length` bytes in the chosen clusters.
pub open spec fn pieces_of(chosen: Seq<int>, c: int, length: int) -> Seq<(int, int)> {
    let runs = runs_upto(chosen, c, chosen.len() as int);
    cut_upto(runs, kept_length(chosen, c, length), runs.len() as int)
}

proof fn runs_are_where_chosen(chosen: Seq<int>, c: int, n: int)
    requires
        0 < n <= chosen.len(),
        c >= 0,
        apart(chosen, c),
    ensures
        ({
            let runs = runs_upto(chosen, c, n);
            &&& 0 < runs.len() <= n
            &&& runs.last().0 + runs.last().1 == chosen[n - 1] + c
            &&& runs.last().0 >= chosen[0]
            &&& runs.last().1 >= c
            &&& held(runs, runs.len() as int) == c * n
            &&& forall|i: int| 0 <= i < runs.len() ==> (#[trigger] runs[i]).1 >= c && runs[i].0
                >= chosen[0]
        }),
    decreases n,
{
    if n == 1 {
        reveal_with_fuel(runs_upto, 2);
        reveal_with_fuel(held, 2);
        assert(runs_upto(chosen, c, 1) =~= seq![(chosen[0], c)]);
    } else {
        runs_are_where_chosen(chosen, c, n - 1);
        let before = runs_upto(chosen, c, n - 1);
        let now = runs_upto(chosen, c, n);
        assert(c * n == c * (n - 1) + c) by (nonlinear_arith);
        assert(chosen[0] + c <= chosen[n - 1]);
        if before.last().0 + before.last().1 == chosen[n - 1] {
            held_of_a_prefix(before, now, before.len() - 1);
        } else {
            held_of_a_prefix(before, now, before.len() as int);
        }
    }
}

proof fn held_of_a_prefix(a: Seq<(int, int)>, b: Seq<(int, int)>, n: int)
    requires
        0 <= n <= a.len(),
        n <= b.len(),
        forall|i: int| 0 <= i < n ==> a[i] == b[i],
    ensures
        held(a, n) == held(b, n),
    decreases n,
{
    if n > 0 {
        held_of_a_prefix(a, b, n - 1);
    }
}

proof fn clusters_fit(chosen: Seq<int>, c: int, n: int)
    requires
        0 < n <= chosen.len(),
        c >= 0,
        apart(chosen, c),
    ensures
        c * n <= chosen[n - 1] + c - chosen[0],
    decreases n,
{
    if n == 1 {
        assert(c * 1 == c) by (nonlinear_arith);
    } else {
        clusters_fit(chosen, c, n - 1);
        assert(c * n == c * (n - 1) + c) by (nonlinear_arith);
        assert(chosen[n - 2] + c <= chosen[n - 1]);
    }
}

/// Collapse clusters into runs.
fn collapse(chosen: &Vec<u64>, c: u64) -> (r: Vec<Piece>)
    requires
        apart(ints(chosen@), c as int),
        forall|i: int| 1 <= i < chosen@.len() ==> #[trigger] chosen@[i] + c <= u64::MAX,
    ensures
        spans(r@) == runs_upto(ints(chosen@), c as int, chosen@.len() as int),
{
    let ghost all = ints(chosen@);
    let mut pieces: Vec<Piece> = Vec::new();
    let mut i: usize = 0;
    assert(spans(pieces@) =~= runs_upto(all, c as int, 0));
    while i < chosen.len()
        invariant
            i <= chosen@.len(),
            all == ints(chosen@),
            apart(all, c as int),
            forall|k: int| 1 <= k < chosen@.len() ==> #[trigger] chosen@[k] + c <= u64::MAX,
            spans(pieces@) == runs_upto(all, c as int, i as int),
            i > 0 ==> pieces@.len() > 0,
            i == 0 ==> pieces@.len() == 0,
        decreases chosen@.len() - i,
    {
        let start: u64 = chosen[i];
        let n: usize = pieces.len();
        let ghost before = spans(pieces@);
        assert(all[i as int] == start);
        proof {
            if i > 0 {
                runs_are_where_chosen(all, c as int, i as int);
                assert(all[i - 1] + c <= all[i as int]);
                assert(before.last() == (
                    pieces@[n - 1].offset as int,
                    pieces@[n - 1].length as int,
                ));
                assert(chosen@[i as int] + c <= u64::MAX);
            }
        }
        if n > 0 && pieces[n - 1].offset + pieces[n - 1].length == start {
            let p: Piece = pieces[n - 1];
            pieces.set(n - 1, Piece { offset: p.offset, length: p.length + c });
            assert(spans(pieces@) =~= before.update(n - 1, (p.offset as int, p.length + c)));
        } else {
            pieces.push(Piece { offset: start, length: c });
            assert(spans(pieces@) =~= before.push((start as int, c as int)));
        }
        i += 1;
    }
    pieces
}

/// Cut runs off after `length` bytes.
fn cut(pieces: &Vec<Piece>, length: u64) -> (r: Vec<Piece>)
    requires
        held(spans(pieces@), pieces@.len() as int) <= u64::MAX,
        length <= held(spans(pieces@), pieces@.len() as int),
    ensures
        spans(r@) == cut_upto(spans(pieces@), length as int, pieces@.len() as int),
{
    let ghost runs = spans(pieces@);
    let mut out: Vec<Piece> = Vec::new();
    let mut remaining: u64 = length;
    let mut i: usize = 0;
    assert(spans(out@) =~= cut_upto(runs, length as int, 0));
    while i < pieces.len()
        invariant
            i <= pieces@.len(),
            runs == spans(pieces@),
            spans(out@) == cut_upto(runs, length as int, i as int),
            remaining == if length - held(runs, i as int) >= 0 {
                length - held(runs, i as int)
            } else {
                0
            },
        decreases pieces@.len() - i,
    {
        let p: Piece = pieces[i];
        assert(runs[i as int] == (p.offset as int, p.length as int));
        let take: u64 = if remaining < p.length {
            remaining
        } else {
            p.length
        };
        if take > 0 {
            let ghost before = spans(out@);
            out.push(Piece { offset: p.offset, length: take });
            assert(spans(out@) =~= before.push((p.offset as int, take as int)));
        }
        remaining = remaining - take;
        i += 1;
    }
    out
}

/// What a search has spent.
#[derive(Clone, Copy)]
pub struct Spent {
    pub calls: u64,
    pub bytes: u64,
    pub backtracks: u64,
    pub prefiltered: u64,
}

/// The result of a search whose path is `chosen`.
pub open spec fn reported(
    chosen: Seq<int>,
    c: int,
    length: int,
    status: Status,
    window: int,
    detail: Seq<char>,
    spent: (int, int, int, int),
) -> Report {
    Report {
        pieces: pieces_of(chosen, c, length),
        status,
        length: kept_length(chosen, c, length),
        calls: spent.0,
        backtracks: spent.2,
        bytes: spent.1,
        prefiltered: spent.3,
        window,
        detail,
    }
}

/// Collapse chosen clusters into runs and describe the result. The last run
/// ends where the verified bytes end, not at a cluster edge.
pub fn finish(
    chosen: &Vec<u64>,
    cluster: u64,
    length: u64,
    status: Status,
    window: u64,
    detail: String,
    spent: Spent,
) -> (r: Reassembly)
    requires
        apart(ints(chosen@), cluster as int),
        forall|i: int| 1 <= i < chosen@.len() ==> #[trigger] chosen@[i] + cluster <= u64::MAX,
    ensures
        r.report() == reported(
            ints(chosen@),
            cluster as int,
            length as int,
            status,
            window as int,
            detail@,
            (
                spent.calls as int,
                spent.bytes as int,
                spent.backtracks as int,
                spent.prefiltered as int,
            ),
        ),
        r.method_fits(),
{
    let runs: Vec<Piece> = collapse(chosen, cluster);
    let ghost all = ints(chosen@);
    let n: usize = chosen.len();
    proof {
        if n > 0 {
            runs_are_where_chosen(all, cluster as int, n as int);
            clusters_fit(all, cluster as int, n as int);
            if n > 1 {
                assert(chosen@[n - 1] + cluster <= u64::MAX);
                assert(all[n - 1] == chosen@[n - 1]);
            }
        }
        assert(0 <= cluster * n) by (nonlinear_arith)
            requires
                cluster >= 0,
                n >= 0,
        ;
    }
    assert(n == 1 ==> cluster * n == cluster) by (nonlinear_arith);
    assert(n == 0 ==> cluster * n == 0) by (nonlinear_arith);
    let space: u128 = cluster as u128 * n as u128;
    let length: u64 = if length as u128 <= space {
        length
    } else {
        space as u64
    };
    let pieces: Vec<Piece> = cut(&runs, length);
    let method: Method = if pieces.len() <= 1 {
        Method::Contiguous
    } else {
        Method::Sequential { fragments: pieces.len() }
    };
    Reassembly {
        pieces,
        method,
        status,
        length,
        validator_calls: spent.calls,
        backtracks: spent.backtracks,
        validated_bytes: spent.bytes,
        prefiltered: spent.prefiltered,
        window,
        detail,
    }
}

/// The bytes of a file read run by run, cut off after `length`.
pub open spec fn joined(parts: Seq<Seq<u8>>, n: int) -> Seq<u8>
    decreases n,
{
    if n <= 0 {
        Seq::empty()
    } else {
        joined(parts, n - 1) + parts[n - 1]
    }
}

/// Bytes read, run by run.
pub open spec fn contents(parts: Seq<Vec<u8>>) -> Seq<Seq<u8>> {
    Seq::new(parts.len(), |i: int| parts[i]@)
}

/// What was read, run by run, put together.
pub fn join(parts: &Vec<Vec<u8>>) -> (out: Vec<u8>)
    ensures
        out@ == joined(contents(parts@), parts@.len() as int),
{
    let mut out: Vec<u8> = Vec::new();
    let mut i: usize = 0;
    while i < parts.len()
        invariant
            i <= parts@.len(),
            out@ == joined(contents(parts@), i as int),
        decreases parts@.len() - i,
    {
        let ghost before = out@;
        let p: &Vec<u8> = &parts[i];
        out.extend_from_slice(p.as_slice());
        assert(out@ =~= before + p@);
        i += 1;
    }
    out
}

/// Put the bytes of a reassembled file together: `parts` holds what was read of
/// each of its runs.
pub fn assemble(parts: &Vec<Vec<u8>>, length: u64) -> (r: Vec<u8>)
    ensures
        ({
            let all = joined(contents(parts@), parts@.len() as int);
            r@ == all.subrange(0, least(length as int, all.len() as int))
        }),
{
    let mut out: Vec<u8> = join(parts);
    let ghost all = out@;
    if length < out.len() as u64 {
        out.truncate(length as usize);
    } else {
        assert(all.subrange(0, all.len() as int) =~= all);
    }
    out
}

} // verus!
