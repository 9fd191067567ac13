//! The search for a file's clusters, one read at a time.

use vstd::prelude::*;
use vstd::slice::*;
use vstd::string::*;
use crate::bifrag;
use crate::bytes;
use crate::text;
use crate::validate;
use crate::validate::{Outcome, Status, Verdict};
use super::{BifragError, Options, Reassembly, Report, Spent};

verus! {

broadcast use bytes::slice_fits;

/// What the entropy of a cluster says of it. Compressed media runs close to
/// eight bits per byte; a run of one repeated byte is zero.
#[derive(Clone, Copy, Debug, PartialEq, Eq, Structural)]
pub struct Texture {
    /// More than seven bits per byte.
    pub high: bool,
    /// Less than one bit per byte: filler.
    pub uniform: bool,
}

/// The texture of the `i`-th cluster of a read; nothing at all is uniform.
pub open spec fn texture(t: Seq<Texture>, i: int) -> Texture {
    if 0 <= i < t.len() {
        t[i]
    } else {
        Texture { high: false, uniform: true }
    }
}

/// A read that the search wants.
#[derive(Clone, Copy, Debug, PartialEq, Eq, Structural)]
pub struct Request {
    pub offset: u64,
    pub length: u64,
}

// ---------------------------------------------------------------------------
// The path
// ---------------------------------------------------------------------------

/// The path being grown: clusters, and the bytes they spell.
#[verifier::ext_equal]
pub struct Trail {
    pub chosen: Seq<int>,
    /// How long `buf` was after each chosen cluster.
    pub ends: Seq<int>,
    /// How far the validator vouched when each cluster was accepted.
    pub verified: Seq<int>,
    /// Clusters taken since the verified length last moved.
    pub stale: Seq<int>,
    /// Whether every cluster up to each was of high entropy.
    pub high: Seq<bool>,
    pub buf: Seq<u8>,
}

/// The last of a list, or `otherwise`.
pub open spec fn last_or(s: Seq<int>, otherwise: int) -> int {
    if s.len() > 0 {
        s.last()
    } else {
        otherwise
    }
}

impl Trail {
    pub open spec fn new() -> Trail {
        Trail {
            chosen: Seq::empty(),
            ends: Seq::empty(),
            verified: Seq::empty(),
            stale: Seq::empty(),
            high: Seq::empty(),
            buf: Seq::empty(),
        }
    }

    /// The path with one more cluster.
    pub open spec fn push(self, at: int, bytes: Seq<u8>, verified: int, high: bool) -> Trail {
        let previous = last_or(self.verified, 0);
        let v = bytes::larger(previous, verified);
        Trail {
            chosen: self.chosen.push(at),
            ends: self.ends.push((self.buf.len() + bytes.len()) as int),
            verified: self.verified.push(v),
            stale: self.stale.push(
                if v > previous {
                    0
                } else {
                    bytes::capped(last_or(self.stale, 0) + 1)
                },
            ),
            high: self.high.push((self.high.len() == 0 || self.high.last()) && high),
            buf: self.buf + bytes,
        }
    }

    /// The first `n` clusters of the path.
    pub open spec fn back_to(self, n: int) -> Trail {
        if n >= self.chosen.len() {
            self
        } else {
            Trail {
                chosen: self.chosen.subrange(0, n),
                ends: self.ends.subrange(0, n),
                verified: self.verified.subrange(0, n),
                stale: self.stale.subrange(0, n),
                high: self.high.subrange(0, n),
                buf: self.buf.subrange(0, last_or(self.ends.subrange(0, n), 0)),
            }
        }
    }

    /// Whether every cluster so far is of high entropy, so that filler cannot
    /// be part of the file.
    pub open spec fn all_high(self) -> bool {
        self.high.len() > 0 && self.high.last()
    }

    /// Whether the lists belong together.
    pub open spec fn wf(self) -> bool {
        let n = self.chosen.len();
        &&& self.ends.len() == n
        &&& self.verified.len() == n
        &&& self.stale.len() == n
        &&& self.high.len() == n
        &&& forall|i: int| 0 <= i < n ==> 0 <= (#[trigger] self.ends[i]) <= self.buf.len()
        &&& forall|i: int, j: int|
            0 <= i < j < n ==> (#[trigger] self.ends[i]) <= (#[trigger] self.ends[j])
        &&& n > 0 ==> self.ends.last() == self.buf.len()
        &&& forall|i: int| 0 <= i < n ==> (#[trigger] self.stale[i]) >= 0
        &&& forall|i: int| 0 <= i < n ==> (#[trigger] self.verified[i]) >= 0
        &&& forall|i: int| 0 <= i < n ==> (#[trigger] self.chosen[i]) >= 0
    }
}

/// The path being grown.
struct Path {
    chosen: Vec<u64>,
    ends: Vec<usize>,
    verified: Vec<u64>,
    stale: Vec<u64>,
    high: Vec<bool>,
    buf: Vec<u8>,
}

spec fn sizes(v: Seq<usize>) -> Seq<int> {
    Seq::new(v.len(), |i: int| v[i] as int)
}

impl Path {
    spec fn view(self) -> Trail {
        Trail {
            chosen: bifrag::ints(self.chosen@),
            ends: sizes(self.ends@),
            verified: bifrag::ints(self.verified@),
            stale: bifrag::ints(self.stale@),
            high: self.high@,
            buf: self.buf@,
        }
    }

    fn new() -> (r: Path)
        ensures
            r.view() == Trail::new(),
            r.view().wf(),
    {
        let r = Path {
            chosen: Vec::new(),
            ends: Vec::new(),
            verified: Vec::new(),
            stale: Vec::new(),
            high: Vec::new(),
            buf: Vec::new(),
        };
        assert(r.view() =~= Trail::new());
        r
    }

    fn last(&self) -> (r: u64)
        requires
            self.view().chosen.len() > 0,
        ensures
            r == self.view().chosen.last(),
    {
        self.chosen[self.chosen.len() - 1]
    }

    fn push(&mut self, at: u64, bytes: &[u8], verified: u64, high: bool)
        requires
            old(self).view().wf(),
        ensures
            final(self).view() == old(self).view().push(at as int, bytes@, verified as int, high),
            final(self).view().wf(),
    {
        let ghost before = self.view();
        let n: usize = self.chosen.len();
        let previous: u64 = if n > 0 {
            self.verified[n - 1]
        } else {
            0
        };
        let v: u64 = bytes::max64(previous, verified);
        let stale: u64 = if v > previous {
            0
        } else if n > 0 {
            bytes::add_capped(self.stale[n - 1], 1)
        } else {
            1
        };
        let all: bool = (n == 0 || self.high[n - 1]) && high;
        self.chosen.push(at);
        self.buf.extend_from_slice(bytes);
        let end: usize = self.buf.len();
        self.ends.push(end);
        self.verified.push(v);
        self.stale.push(stale);
        self.high.push(all);
        assert(self.buf@ =~= before.buf + bytes@);
        assert(self.view() =~= before.push(at as int, bytes@, verified as int, high));
    }

    fn back_to(&mut self, n: usize)
        requires
            old(self).view().wf(),
        ensures
            final(self).view() == old(self).view().back_to(n as int),
            final(self).view().wf(),
    {
        let ghost before = self.view();
        if n < self.chosen.len() {
            self.chosen.truncate(n);
            self.ends.truncate(n);
            self.verified.truncate(n);
            self.stale.truncate(n);
            self.high.truncate(n);
            let end: usize = if n > 0 {
                self.ends[n - 1]
            } else {
                0
            };
            proof {
                if n > 0 {
                    assert(before.ends[n - 1] == end);
                    assert(before.ends[n - 1] <= before.buf.len());
                }
            }
            self.buf.truncate(end);
            assert(self.view() =~= before.back_to(n as int));
            assert(self.view().wf()) by {
                let now = self.view();
                assert forall|i: int| 0 <= i < n implies 0 <= (#[trigger] now.ends[i])
                    <= now.buf.len() by {
                    assert(now.ends[i] == before.ends[i]);
                    if i < n - 1 {
                        assert(before.ends[i] <= before.ends[n - 1]);
                    }
                }
                assert forall|i: int, j: int| 0 <= i < j < n implies (#[trigger] now.ends[i]) <= (
                #[trigger] now.ends[j]) by {
                    assert(before.ends[i] <= before.ends[j]);
                }
                assert forall|i: int| 0 <= i < n implies (#[trigger] now.stale[i]) >= 0 by {
                    assert(now.stale[i] == before.stale[i]);
                }
                assert forall|i: int| 0 <= i < n implies (#[trigger] now.verified[i]) >= 0 by {
                    assert(now.verified[i] == before.verified[i]);
                }
                assert forall|i: int| 0 <= i < n implies (#[trigger] now.chosen[i]) >= 0 by {
                    assert(now.chosen[i] == before.chosen[i]);
                }
            }
        }
    }

    fn stale_now(&self) -> (r: u64)
        requires
            self.view().wf(),
        ensures
            r == last_or(self.view().stale, 0),
    {
        if self.stale.len() > 0 {
            self.stale[self.stale.len() - 1]
        } else {
            0
        }
    }

    fn all_high(&self) -> (r: bool)
        ensures
            r == self.view().all_high(),
    {
        self.high.len() > 0 && self.high[self.high.len() - 1]
    }

    /// The path's bytes with more appended.
    fn with(&self, more: &[u8]) -> (r: Vec<u8>)
        ensures
            r@ == self.view().buf + more@,
    {
        let mut trial: Vec<u8> = self.buf.clone();
        assert(trial@ =~= self.buf@);
        trial.extend_from_slice(more);
        assert(trial@ =~= self.buf@ + more@);
        trial
    }
}

// ---------------------------------------------------------------------------
// The state
// ---------------------------------------------------------------------------

/// A decision point: which cluster follows the first `base` of the path.
#[derive(Clone, Copy)]
struct Frame {
    base: usize,
    /// The next candidate to try: 0 is the physically next cluster, `k` is `k`
    /// clusters further on.
    next_k: u64,
    /// How far this decision may look.
    window: u64,
}

/// A decision point.
#[verifier::ext_equal]
pub struct Branch {
    pub base: int,
    pub next_k: int,
    pub window: int,
}

/// The furthest-verified path seen.
#[verifier::ext_equal]
pub struct Best {
    pub chosen: Seq<int>,
    pub length: int,
    pub status: Status,
    pub detail: Seq<char>,
}

/// What the search waits for.
pub enum Stage {
    /// The header's cluster.
    Head,
    /// A run straight on from the path, at `at`.
    Run { at: int },
    /// One cluster, `k` clusters further on than the next, at `at`.
    One { at: int, k: int },
    /// Clusters past a candidate that says nothing alone; alone it is `one`
    /// bytes.
    Look { at: int, one: int },
    /// Nothing: this is the result.
    Done { report: Report },
}

/// What does not change during a search.
pub struct Setup {
    pub validator: Seq<char>,
    pub opts: Options,
    pub header: int,
    pub dev_end: int,
}

/// A search in progress.
#[verifier::ext_equal]
pub struct State {
    pub calls: int,
    pub bytes: int,
    pub backtracks: int,
    pub prefiltered: int,
    pub best: Option<Best>,
    /// What `calls` and `bytes` were when the current attempt began.
    pub first_call: int,
    pub first_byte: int,
    /// Which window the current attempt looks through.
    pub depth: int,
    pub path: Trail,
    pub stack: Seq<Branch>,
    pub stage: Stage,
}

impl Setup {
    /// The window of the `depth`-th attempt.
    pub open spec fn window(self, depth: int) -> int {
        bifrag::windows_of(self.opts.max_gap_clusters as int)[depth]
    }

    /// How many bytes there are to read of `clusters` clusters at `at`.
    pub open spec fn room(self, at: int, clusters: int) -> int {
        bifrag::least(self.opts.cluster * clusters, bytes::larger(self.dev_end - at, 0))
    }

    /// The read that a stage waits for.
    pub open spec fn wants(self, stage: Stage) -> Option<(int, int)> {
        match stage {
            Stage::Head => Some((self.header, self.room(self.header, 1))),
            Stage::Run { at } => Some((at, self.room(at, self.opts.run_clusters as int))),
            Stage::One { at, k } => Some((at, self.room(at, 1))),
            Stage::Look { at, one } => Some(
                (at, self.room(at, self.opts.lookahead_clusters as int)),
            ),
            Stage::Done { report } => None,
        }
    }
}

/// The first state of the `depth`-th attempt.
pub open spec fn attempted(s: State, depth: int) -> State {
    State {
        first_call: s.calls,
        first_byte: s.bytes,
        depth,
        path: Trail::new(),
        stack: Seq::empty(),
        stage: Stage::Head,
        ..s
    }
}

/// The first state of a search.
pub open spec fn begun() -> State {
    State {
        calls: 0,
        bytes: 0,
        backtracks: 0,
        prefiltered: 0,
        best: None,
        first_call: 0,
        first_byte: 0,
        depth: 0,
        path: Trail::new(),
        stack: Seq::empty(),
        stage: Stage::Head,
    }
}

/// Whether the attempt has spent what it may.
pub open spec fn spent_up(st: Setup, s: State) -> bool {
    s.calls - s.first_call >= st.opts.budget || s.bytes - s.first_byte >= st.opts.budget_bytes
}

/// The state once `data` has been put to the validator.
pub open spec fn charged(s: State, data: Seq<u8>) -> State {
    State {
        calls: bytes::capped(s.calls + 1),
        bytes: bytes::capped(s.bytes + data.len()),
        ..s
    }
}

/// What the validator says of `data`.
pub open spec fn said(st: Setup, data: Seq<u8>) -> Verdict {
    validate::verdict_of(st.validator, data)->Some_0
}

/// Whether a verdict says that the file is complete within `n` bytes.
pub open spec fn completes(v: Verdict, n: int) -> bool {
    v.status == Status::Valid && v.length <= n
}

/// The state with the path remembered where it is the furthest yet. A
/// contradiction is no progress, whatever length it reports.
pub open spec fn remembered(s: State, v: Verdict) -> State {
    if !v.ran_out && v.status != Status::Valid {
        s
    } else if s.best is None || v.length > s.best->Some_0.length {
        State {
            best: Some(
                Best {
                    chosen: s.path.chosen,
                    length: v.length,
                    status: v.status,
                    detail: v.detail,
                },
            ),
            ..s
        }
    } else {
        s
    }
}

/// What has been spent.
pub open spec fn spent(s: State) -> (int, int, int, int) {
    (s.calls, s.bytes, s.backtracks, s.prefiltered)
}

/// The end: the path is the whole file.
pub open spec fn complete(st: Setup, s: State, length: int) -> State {
    State {
        stage: Stage::Done {
            report: bifrag::reported(
                s.path.chosen,
                st.opts.cluster as int,
                length,
                Status::Valid,
                st.window(s.depth),
                ""@,
                spent(s),
            ),
        },
        ..s
    }
}

/// The end: nothing completed, for the reason given. The furthest-verified path
/// is reported, but never as valid.
pub open spec fn stopped(st: Setup, s: State, why: Seq<char>) -> State {
    State {
        stage: Stage::Done {
            report: match s.best {
                Some(b) => bifrag::reported(
                    b.chosen,
                    st.opts.cluster as int,
                    b.length,
                    if b.status == Status::Valid {
                        Status::Partial
                    } else {
                        b.status
                    },
                    st.window(s.depth),
                    why + "; best path verified "@ + text::dec(b.length) + " bytes ("@ + b.detail
                        + ")"@,
                    spent(s),
                ),
                None => bifrag::reported(
                    seq![st.header],
                    st.opts.cluster as int,
                    0,
                    Status::Rejected,
                    st.window(s.depth),
                    why,
                    spent(s),
                ),
            },
        },
        ..s
    }
}

/// Every path within the window was tried: on to the next window, if there is
/// one.
pub open spec fn exhausted(st: Setup, s: State) -> State {
    if s.depth + 1 < bifrag::windows_of(st.opts.max_gap_clusters as int).len() {
        attempted(s, s.depth + 1)
    } else {
        stopped(
            st,
            s,
            "no path through windows up to "@ + text::dec(st.opts.max_gap_clusters as int)
                + " clusters led to a complete file"@,
        )
    }
}

/// On to the next candidate of the latest decision; back to the one before
/// where that has none left.
pub open spec fn seek(st: Setup, s: State) -> State
    decreases s.stack.len(), last_choices(s),
{
    if s.stack.len() == 0 {
        exhausted(st, s)
    } else {
        let top = s.stack.last();
        let path = s.path.back_to(top.base);
        let at = path.chosen.last() + st.opts.cluster * (top.next_k + 1);
        if top.next_k > top.window {
            seek(
                st,
                State {
                    path,
                    stack: s.stack.drop_last(),
                    backtracks: bytes::capped(s.backtracks + 1),
                    ..s
                },
            )
        } else if at >= st.dev_end {
            seek(
                st,
                State {
                    path,
                    stack: s.stack.drop_last().push(Branch { next_k: top.window + 1, ..top }),
                    ..s
                },
            )
        } else {
            State {
                path,
                stack: s.stack.drop_last().push(Branch { next_k: top.next_k + 1, ..top }),
                stage: Stage::One { at, k: top.next_k },
                ..s
            }
        }
    }
}

/// How many candidates the latest decision has left.
pub open spec fn last_choices(s: State) -> int {
    if s.stack.len() > 0 && s.stack.last().next_k <= s.stack.last().window {
        s.stack.last().window + 1 - s.stack.last().next_k
    } else {
        0
    }
}

/// Extend the path by a new decision, unless this branch has gone too far with
/// nothing verified.
pub open spec fn extended(st: Setup, s: State) -> State {
    if s.path.chosen.len() >= st.opts.max_clusters {
        stopped(
            st,
            s,
            "reached the "@ + text::dec(st.opts.max_clusters as int) + "-cluster size bound"@,
        )
    } else if last_or(s.path.stale, 0) < st.opts.max_unverified_clusters {
        seek(
            st,
            State {
                stack: s.stack.push(
                    Branch {
                        base: s.path.chosen.len() as int,
                        next_k: 0,
                        window: st.window(s.depth),
                    },
                ),
                ..s
            },
        )
    } else if s.stack.len() == 0 {
        stopped(
            st,
            s,
            "nothing verified in "@ + text::dec(last_or(s.path.stale, 0))
                + " clusters from the header; this format                      offers no landmark to reassemble by"@,
        )
    } else {
        seek(st, s)
    }
}

/// Run straight on from the path, where the device goes on.
pub open spec fn galloped(st: Setup, s: State) -> State {
    let at = s.path.chosen.last() + st.opts.cluster;
    if at >= st.dev_end {
        extended(st, s)
    } else {
        State { stage: Stage::Run { at }, ..s }
    }
}

/// Whether a cluster of a run, from `off` to `end` past the first `had` bytes,
/// is one to take: wholly vouched for, or, where the file is complete, begun
/// before its end.
pub open spec fn covered(valid: bool, had: int, off: int, end: int, length: int) -> bool {
    if valid {
        had + off < length
    } else {
        had + end <= length
    }
}

/// Take the clusters of a run from `off` on that the verdict covers, each as a
/// decision to return to. Filler is not taken into a file of high entropy,
/// whatever the validator vouches for.
pub open spec fn run_taken(
    st: Setup,
    s: State,
    at: int,
    run: Seq<u8>,
    t: Seq<Texture>,
    had: int,
    valid: bool,
    length: int,
    off: int,
    taken: int,
) -> (State, int)
    decreases run.len() - off,
{
    let c = st.opts.cluster as int;
    let end = bifrag::least(off + c, run.len() as int);
    if off < 0 || off >= run.len() || c <= 0 || !covered(valid, had, off, end, length) {
        (s, taken)
    } else if s.path.all_high() && texture(t, taken).uniform {
        (State { prefiltered: bytes::capped(s.prefiltered + 1), ..s }, taken)
    } else {
        run_taken(
            st,
            State {
                stack: s.stack.push(
                    Branch {
                        base: s.path.chosen.len() as int,
                        next_k: 1,
                        window: st.opts.continuation_window as int,
                    },
                ),
                path: s.path.push(at + off, run.subrange(off, end), length, texture(t, taken).high),
                ..s
            },
            at,
            run,
            t,
            had,
            valid,
            length,
            end,
            taken + 1,
        )
    }
}

/// Take the clusters of a lookahead from `off` on that the verdict covers.
pub open spec fn look_taken(
    st: Setup,
    path: Trail,
    at: int,
    run: Seq<u8>,
    t: Seq<Texture>,
    had: int,
    valid: bool,
    length: int,
    off: int,
    taken: int,
) -> Trail
    decreases run.len() - off,
{
    let c = st.opts.cluster as int;
    let end = bifrag::least(off + c, run.len() as int);
    if off < 0 || off >= run.len() || c <= 0 || !covered(valid, had, off, end, length) {
        path
    } else {
        look_taken(
            st,
            path.push(at + off, run.subrange(off, end), length, texture(t, taken).high),
            at,
            run,
            t,
            had,
            valid,
            length,
            end,
            taken + 1,
        )
    }
}

/// Decisions at the positions from `from` up to `to`, each of which took the
/// physically next cluster.
pub open spec fn revisited(stack: Seq<Branch>, from: int, to: int, window: int) -> Seq<Branch>
    decreases to - from,
{
    if from >= to {
        stack
    } else {
        revisited(stack.push(Branch { base: from, next_k: 1, window }), from + 1, to, window)
    }
}

/// A candidate was accepted when the path was `before` long: the clusters taken
/// past it can be reconsidered, and the search runs straight on.
pub open spec fn accepted(st: Setup, s: State, before: int) -> State {
    galloped(
        st,
        State {
            stack: revisited(
                s.stack,
                before + 1,
                s.path.chosen.len() as int,
                bifrag::least(st.window(s.depth), st.opts.continuation_window as int),
            ),
            ..s
        },
    )
}

/// The header's cluster was read.
pub open spec fn head_read(st: Setup, s: State, data: Seq<u8>, t: Seq<Texture>) -> State {
    if spent_up(st, s) {
        stopped(st, s, "validator budget spent"@)
    } else {
        let s1 = charged(s, data);
        let v = said(st, data);
        let path = s.path.push(st.header, data, v.length, texture(t, 0).high);
        if completes(v, data.len() as int) {
            complete(st, State { path, ..s1 }, v.length)
        } else if !v.ran_out {
            stopped(
                st,
                remembered(s1, v),
                "the header cluster itself does not validate: "@ + v.detail,
            )
        } else {
            galloped(st, remembered(State { path, ..s1 }, v))
        }
    }
}

/// A run straight on from the path was read.
pub open spec fn run_read(st: Setup, s: State, at: int, run: Seq<u8>, t: Seq<Texture>) -> State {
    let trial = s.path.buf + run;
    let had = s.path.buf.len() as int;
    if spent_up(st, s) {
        stopped(st, s, "validator budget spent"@)
    } else {
        let s1 = charged(s, trial);
        let v = said(st, trial);
        let valid = completes(v, trial.len() as int);
        let (s2, taken) = run_taken(st, s1, at, run, t, had, valid, v.length, 0, 0);
        if !valid && !v.ran_out {
            // A contradiction vouches for nothing.
            extended(st, s1)
        } else if valid {
            if s2.path.buf.len() >= v.length {
                complete(st, s2, v.length)
            } else {
                // The validator walked to the end through a cluster that was
                // refused, so its verdict is no result.
                extended(st, s2)
            }
        } else {
            let s3 = if taken > 0 {
                remembered(s2, v)
            } else {
                s2
            };
            if taken < st.opts.run_clusters {
                extended(st, s3)
            } else {
                galloped(st, s3)
            }
        }
    }
}

/// One candidate cluster was read.
pub open spec fn one_read(
    st: Setup,
    s: State,
    at: int,
    k: int,
    one: Seq<u8>,
    t: Seq<Texture>,
) -> State {
    let trial = s.path.buf + one;
    let had = s.path.buf.len() as int;
    if s.path.all_high() && texture(t, 0).uniform {
        seek(st, State { prefiltered: bytes::capped(s.prefiltered + 1), ..s })
    } else if spent_up(st, s) {
        stopped(st, s, "validator budget spent"@)
    } else {
        let s1 = charged(s, trial);
        let v = said(st, trial);
        let path = s.path.push(at, one, v.length, texture(t, 0).high);
        if completes(v, trial.len() as int) {
            complete(st, State { path, ..s1 }, v.length)
        } else if !v.ran_out {
            // The path was consistent before this cluster and is not after it.
            seek(st, s1)
        } else if v.length > had || k == 0 {
            // A landmark inside the candidate, or the physically next cluster
            // taken on contiguity alone.
            accepted(st, remembered(State { path, ..s1 }, v), s.path.chosen.len() as int)
        } else {
            State { stage: Stage::Look { at, one: one.len() as int }, ..s1 }
        }
    }
}

/// Clusters past a candidate were read.
pub open spec fn look_read(
    st: Setup,
    s: State,
    at: int,
    one: int,
    run: Seq<u8>,
    t: Seq<Texture>,
) -> State {
    let trial = s.path.buf + run;
    let had = s.path.buf.len() as int;
    if run.len() <= one {
        seek(st, s)
    } else if spent_up(st, s) {
        stopped(st, s, "validator budget spent"@)
    } else {
        let s1 = charged(s, trial);
        let v = said(st, trial);
        let valid = completes(v, trial.len() as int);
        let path = look_taken(st, s.path, at, run, t, had, valid, v.length, 0, 0);
        if !valid && v.length <= had {
            seek(st, s1)
        } else if valid {
            if path.buf.len() >= v.length {
                complete(st, State { path, ..s1 }, v.length)
            } else {
                seek(st, State { path, ..s1 })
            }
        } else {
            accepted(st, remembered(State { path, ..s1 }, v), s.path.chosen.len() as int)
        }
    }
}

/// The state once the read that was waited for gave `data`, its clusters of the
/// given textures.
pub open spec fn fed(st: Setup, s: State, data: Seq<u8>, t: Seq<Texture>) -> State {
    match s.stage {
        Stage::Head => head_read(st, s, data, t),
        Stage::Run { at } => run_read(st, s, at, data, t),
        Stage::One { at, k } => one_read(st, s, at, k, data, t),
        Stage::Look { at, one } => look_read(st, s, at, one, data, t),
        Stage::Done { report } => s,
    }
}

// ---------------------------------------------------------------------------
// Running it
// ---------------------------------------------------------------------------

/// The furthest-verified path seen.
struct Furthest {
    chosen: Vec<u64>,
    length: u64,
    status: Status,
    detail: String,
}

/// What the search waits for.
enum Waiting {
    Head,
    Run { at: u64 },
    One { at: u64, k: u64 },
    Look { at: u64, one: usize },
    Done { result: Reassembly },
}

impl Waiting {
    spec fn stage(self) -> Stage {
        match self {
            Waiting::Head => Stage::Head,
            Waiting::Run { at } => Stage::Run { at: at as int },
            Waiting::One { at, k } => Stage::One { at: at as int, k: k as int },
            Waiting::Look { at, one } => Stage::Look { at: at as int, one: one as int },
            Waiting::Done { result } => Stage::Done { report: result.report() },
        }
    }
}

/// A search for the clusters of one file.
pub struct Search {
    validator: String,
    opts: Options,
    header: u64,
    dev_end: u64,
    windows: Vec<u64>,
    calls: u64,
    bytes: u64,
    backtracks: u64,
    prefiltered: u64,
    best: Option<Furthest>,
    first_call: u64,
    first_byte: u64,
    depth: usize,
    path: Path,
    stack: Vec<Frame>,
    waiting: Waiting,
}

spec fn branch(f: Frame) -> Branch {
    Branch { base: f.base as int, next_k: f.next_k as int, window: f.window as int }
}

spec fn branches(v: Seq<Frame>) -> Seq<Branch> {
    Seq::new(v.len(), |i: int| branch(v[i]))
}

/// Whether a path is one that runs can be made of.
pub open spec fn sound_path(st: Setup, chosen: Seq<int>) -> bool {
    &&& bifrag::apart(chosen, st.opts.cluster as int)
    &&& forall|i: int| 1 <= i < chosen.len() ==> (#[trigger] chosen[i]) < st.dev_end
}

impl Search {
    /// What does not change during the search.
    pub closed spec fn setup(self) -> Setup {
        Setup {
            validator: self.validator@,
            opts: self.opts,
            header: self.header as int,
            dev_end: self.dev_end as int,
        }
    }

    /// Where the search is.
    pub closed spec fn state(self) -> State {
        State {
            calls: self.calls as int,
            bytes: self.bytes as int,
            backtracks: self.backtracks as int,
            prefiltered: self.prefiltered as int,
            best: match self.best {
                Some(b) => Some(
                    Best {
                        chosen: bifrag::ints(b.chosen@),
                        length: b.length as int,
                        status: b.status,
                        detail: b.detail@,
                    },
                ),
                None => None,
            },
            first_call: self.first_call as int,
            first_byte: self.first_byte as int,
            depth: self.depth as int,
            path: self.path.view(),
            stack: branches(self.stack@),
            stage: self.waiting.stage(),
        }
    }

    /// Whether the search is in a state it can go on from.
    pub closed spec fn wf(self) -> bool {
        let st = self.setup();
        let s = self.state();
        &&& self.set_up()
        &&& self.depth < self.windows@.len()
        &&& self.first_call <= self.calls
        &&& self.first_byte <= self.bytes
        &&& s.path.wf()
        &&& sound_path(st, s.path.chosen)
        &&& (s.best matches Some(b) ==> sound_path(st, b.chosen))
        &&& self.stack_fits()
        &&& self.stage_fits()
    }

    spec fn set_up(self) -> bool {
        &&& validate::known(self.validator@)
        &&& self.opts.cluster + self.dev_end <= u64::MAX
        &&& self.opts.max_gap_clusters < u64::MAX
        &&& self.opts.continuation_window < u64::MAX
        &&& bifrag::ints(self.windows@) == bifrag::windows_of(self.opts.max_gap_clusters as int)
        &&& forall|i: int| 0 <= i < self.windows@.len() ==> (#[trigger] self.windows@[i]) < u64::MAX
    }

    spec fn stack_fits(self) -> bool {
        forall|i: int|
            0 <= i < self.stack@.len() ==> (#[trigger] self.stack@[i]).base >= 1
                && self.stack@[i].window < u64::MAX && self.stack@[i].next_k <= self.stack@[i].window
                + 1
    }

    spec fn stage_fits(self) -> bool {
        match self.waiting {
            Waiting::Head => self.path.view() == Trail::new() && self.stack@.len() == 0,
            Waiting::Run { at } => {
                &&& self.path.view().chosen.len() > 0
                &&& at == self.path.view().chosen.last() + self.opts.cluster
                &&& at < self.dev_end
            },
            Waiting::One { at, k } => {
                &&& self.path.view().chosen.len() > 0
                &&& at >= self.path.view().chosen.last() + self.opts.cluster
                &&& at < self.dev_end
                &&& self.stack@.len() > 0
            },
            Waiting::Look { at, one } => {
                &&& self.path.view().chosen.len() > 0
                &&& at >= self.path.view().chosen.last() + self.opts.cluster
                &&& at < self.dev_end
                &&& self.stack@.len() > 0
            },
            Waiting::Done { result } => result.method_fits(),
        }
    }

    /// The part of the invariant that does not speak of what is waited for.
    spec fn moving(self) -> bool {
        let st = self.setup();
        let s = self.state();
        &&& self.set_up()
        &&& self.depth < self.windows@.len()
        &&& self.first_call <= self.calls
        &&& self.first_byte <= self.bytes
        &&& s.path.wf()
        &&& sound_path(st, s.path.chosen)
        &&& (s.best matches Some(b) ==> sound_path(st, b.chosen))
        &&& self.stack_fits()
    }

    /// Begin the search for the file whose header is at `header` of a device of
    /// `dev_end` bytes. `validator` is a validator id; without one there is
    /// nothing to judge a splice by.
    pub fn new(validator: &str, header: u64, dev_end: u64, opts: &Options) -> (r: Result<
        Search,
        BifragError,
    >)
        requires
            opts.cluster + dev_end <= u64::MAX,
            opts.max_gap_clusters < u64::MAX,
            opts.continuation_window < u64::MAX,
        ensures
            match r {
                Ok(s) => {
                    &&& validate::known(validator@)
                    &&& s.wf()
                    &&& s.setup() == (Setup {
                        validator: validator@,
                        opts: *opts,
                        header: header as int,
                        dev_end: dev_end as int,
                    })
                    &&& s.state() == begun()
                },
                Err(e) => {
                    &&& !validate::known(validator@)
                    &&& e matches BifragError::NoValidator(id) && id@ == validator@
                },
            },
    {
        if !validate::has_validator(validator) {
            return Err(BifragError::NoValidator(validator.to_owned()));
        }
        let windows: Vec<u64> = bifrag::windows(opts.max_gap_clusters);
        proof {
            bifrag::windows_deepen(16, opts.max_gap_clusters as int);
            let w = bifrag::windows_of(opts.max_gap_clusters as int);
            assert forall|i: int| 0 <= i < windows@.len() implies (#[trigger] windows@[i])
                < u64::MAX by {
                assert(w[i] == windows@[i]);
                if i == w.len() - 1 {
                    assert(w.last() == w[i]);
                }
            }
        }
        let s = Search {
            validator: validator.to_owned(),
            opts: *opts,
            header,
            dev_end,
            windows,
            calls: 0,
            bytes: 0,
            backtracks: 0,
            prefiltered: 0,
            best: None,
            first_call: 0,
            first_byte: 0,
            depth: 0,
            path: Path::new(),
            stack: Vec::new(),
            waiting: Waiting::Head,
        };
        assert(s.state() =~= begun());
        Ok(s)
    }

    /// How many bytes there are to read of `clusters` clusters at `at`.
    fn room(&self, at: u64, clusters: u64) -> (r: u64)
        ensures
            r == self.setup().room(at as int, clusters as int),
    {
        let left: u64 = if self.dev_end >= at {
            self.dev_end - at
        } else {
            0
        };
        let c: u64 = self.opts.cluster;
        assert(0 <= c * clusters <= 0xFFFF_FFFF_FFFF_FFFF * 0xFFFF_FFFF_FFFF_FFFF)
            by (nonlinear_arith)
            requires
                0 <= c <= 0xFFFF_FFFF_FFFF_FFFF,
                0 <= clusters <= 0xFFFF_FFFF_FFFF_FFFF,
        ;
        let all: u128 = c as u128 * clusters as u128;
        if all <= left as u128 {
            all as u64
        } else {
            left
        }
    }

    /// The read the search waits for; `None` once it has its result.
    pub fn request(&self) -> (r: Option<Request>)
        ensures
            match r {
                Some(q) => self.setup().wants(self.state().stage) == Some(
                    (q.offset as int, q.length as int),
                ),
                None => self.setup().wants(self.state().stage) is None,
            },
    {
        match &self.waiting {
            Waiting::Head => Some(
                Request { offset: self.header, length: self.room(self.header, 1) },
            ),
            Waiting::Run { at } => Some(
                Request { offset: *at, length: self.room(*at, self.opts.run_clusters) },
            ),
            Waiting::One { at, k: _ } => Some(Request { offset: *at, length: self.room(*at, 1) }),
            Waiting::Look { at, one: _ } => Some(
                Request { offset: *at, length: self.room(*at, self.opts.lookahead_clusters) },
            ),
            Waiting::Done { result: _ } => None,
        }
    }

    /// The result, once there is one.
    pub fn result(&self) -> (r: Option<&Reassembly>)
        requires
            self.wf(),
        ensures
            match r {
                Some(x) => self.state().stage == (Stage::Done { report: x.report() })
                    && x.method_fits(),
                None => !(self.state().stage is Done),
            },
    {
        match &self.waiting {
            Waiting::Done { result } => Some(result),
            _ => None,
        }
    }

    fn spent(&self) -> (r: Spent)
        ensures
            (r.calls as int, r.bytes as int, r.backtracks as int, r.prefiltered as int) == spent(
                self.state(),
            ),
    {
        Spent {
            calls: self.calls,
            bytes: self.bytes,
            backtracks: self.backtracks,
            prefiltered: self.prefiltered,
        }
    }

    fn window(&self) -> (r: u64)
        requires
            self.moving(),
        ensures
            r == self.setup().window(self.state().depth),
            r < u64::MAX,
    {
        assert(bifrag::ints(self.windows@)[self.depth as int] == self.windows@[self.depth as int]);
        self.windows[self.depth]
    }

    /// End with the path as the whole file.
    fn complete(&mut self, length: u64)
        requires
            old(self).moving(),
        ensures
            final(self).state() == complete(old(self).setup(), old(self).state(), length as int),
            final(self).setup() == old(self).setup(),
            final(self).wf(),
    {
        let spent: Spent = self.spent();
        let window: u64 = self.window();
        proof {
            self.chosen_can_be_added();
            reveal_strlit("");
            assert(""@ =~= Seq::<char>::empty());
        }
        let result = bifrag::finish(
            &self.path.chosen,
            self.opts.cluster,
            length,
            Status::Valid,
            window,
            String::new(),
            spent,
        );
        self.waiting = Waiting::Done { result };
    }

    proof fn chosen_can_be_added(self)
        requires
            self.moving(),
        ensures
            forall|i: int|
                1 <= i < self.path.chosen@.len() ==> (#[trigger] self.path.chosen@[i])
                    + self.opts.cluster <= u64::MAX,
            self.best matches Some(b) ==> forall|i: int|
                1 <= i < b.chosen@.len() ==> (#[trigger] b.chosen@[i]) + self.opts.cluster
                    <= u64::MAX,
    {
        assert forall|i: int| 1 <= i < self.path.chosen@.len() implies (
        #[trigger] self.path.chosen@[i]) + self.opts.cluster <= u64::MAX by {
            assert(self.state().path.chosen[i] == self.path.chosen@[i]);
        }
        if let Some(b) = self.best {
            assert forall|i: int| 1 <= i < b.chosen@.len() implies (#[trigger] b.chosen@[i])
                + self.opts.cluster <= u64::MAX by {
                assert(bifrag::ints(b.chosen@)[i] == b.chosen@[i]);
            }
        }
    }

    /// End with the furthest-verified path, or with nothing.
    fn stop(&mut self, why: String)
        requires
            old(self).moving(),
        ensures
            final(self).state() == stopped(old(self).setup(), old(self).state(), why@),
            final(self).setup() == old(self).setup(),
            final(self).wf(),
    {
        let spent: Spent = self.spent();
        let window: u64 = self.window();
        proof {
            self.chosen_can_be_added();
        }
        let result = match &self.best {
            Some(b) => {
                let status: Status = if b.status == Status::Valid {
                    Status::Partial
                } else {
                    b.status
                };
                let detail: String = text::cat6(
                    why.as_str(),
                    "; best path verified ",
                    text::decimal(b.length).as_str(),
                    " bytes (",
                    b.detail.as_str(),
                    ")",
                );
                bifrag::finish(
                    &b.chosen,
                    self.opts.cluster,
                    b.length,
                    status,
                    window,
                    detail,
                    spent,
                )
            },
            None => {
                let only: Vec<u64> = vec![self.header];
                assert(bifrag::ints(only@) =~= seq![self.header as int]);
                bifrag::finish(
                    &only,
                    self.opts.cluster,
                    0,
                    Status::Rejected,
                    window,
                    why,
                    spent,
                )
            },
        };
        self.waiting = Waiting::Done { result };
    }

    fn spent_up(&self) -> (r: bool)
        requires
            self.first_call <= self.calls,
            self.first_byte <= self.bytes,
        ensures
            r == spent_up(self.setup(), self.state()),
    {
        self.calls - self.first_call >= self.opts.budget || self.bytes - self.first_byte
            >= self.opts.budget_bytes
    }

    /// One validator call.
    fn check(&mut self, data: &[u8]) -> (r: Outcome)
        requires
            old(self).moving(),
        ensures
            r@ == said(old(self).setup(), data@),
            final(self).state() == charged(old(self).state(), data@),
            final(self).setup() == old(self).setup(),
            final(self).moving(),
            final(self).path == old(self).path,
            final(self).stack == old(self).stack,
            final(self).waiting == old(self).waiting,
            r@.status == Status::Valid ==> r@.length <= data@.len(),
    {
        proof {
            validate::every_listed_id_is_dispatched(self.validator@, data@);
            validate::every_validator_is_sound(self.validator@, data@);
        }
        self.calls = bytes::add_capped(self.calls, 1);
        self.bytes = bytes::add_capped(self.bytes, data.len() as u64);
        assert(self.state() =~= charged(old(self).state(), data@));
        match validate::validate(self.validator.as_str(), data) {
            Some(o) => o,
            None => Outcome::reject("no such validator"),
        }
    }

    /// Remember the path where it is the furthest yet.
    fn remember(&mut self, o: &Outcome)
        requires
            old(self).moving(),
        ensures
            final(self).state() == remembered(old(self).state(), o@),
            final(self).setup() == old(self).setup(),
            final(self).moving(),
            final(self).path == old(self).path,
            final(self).stack == old(self).stack,
            final(self).waiting == old(self).waiting,
    {
        if !o.ran_out && o.status != Status::Valid {
            return;
        }
        let better: bool = match &self.best {
            Some(b) => o.length > b.length,
            None => true,
        };
        if better {
            let chosen: Vec<u64> = self.path.chosen.clone();
            assert(chosen@ =~= self.path.chosen@);
            self.best = Some(
                Furthest {
                    chosen,
                    length: o.length,
                    status: o.status,
                    detail: o.detail.clone(),
                },
            );
        }
    }
}

proof fn paths_shorten(st: Setup, p: Trail, n: int)
    requires
        sound_path(st, p.chosen),
        0 <= n,
    ensures
        sound_path(st, p.back_to(n).chosen),
        p.chosen.len() > 0 && n >= 1 ==> p.back_to(n).chosen.len() > 0,
{
    let q = p.back_to(n).chosen;
    if n < p.chosen.len() {
        assert forall|i: int, j: int| 0 <= i < j < q.len() implies (#[trigger] q[i])
            + st.opts.cluster <= (#[trigger] q[j]) by {
            assert(q[i] == p.chosen[i] && q[j] == p.chosen[j]);
        }
        assert forall|i: int| 1 <= i < q.len() implies (#[trigger] q[i]) < st.dev_end by {
            assert(q[i] == p.chosen[i]);
        }
    }
}

proof fn paths_lengthen(st: Setup, chosen: Seq<int>, at: int)
    requires
        sound_path(st, chosen),
        chosen.len() > 0,
        at >= chosen.last() + st.opts.cluster,
        at < st.dev_end,
    ensures
        sound_path(st, chosen.push(at)),
{
    let q = chosen.push(at);
    assert forall|i: int, j: int| 0 <= i < j < q.len() implies (#[trigger] q[i]) + st.opts.cluster
        <= (#[trigger] q[j]) by {
        if j == chosen.len() && i < chosen.len() - 1 {
            assert(chosen[i] + st.opts.cluster <= chosen[chosen.len() - 1]);
        }
    }
    assert forall|i: int| 1 <= i < q.len() implies (#[trigger] q[i]) < st.dev_end by {}
}

impl Search {
    /// Every path within the window was tried.
    fn exhaust(&mut self)
        requires
            old(self).moving(),
        ensures
            final(self).state() == exhausted(old(self).setup(), old(self).state()),
            final(self).setup() == old(self).setup(),
            final(self).wf(),
    {
        assert(self.windows@.len() == bifrag::ints(self.windows@).len());
        if self.depth < self.windows.len() - 1 {
            self.depth = self.depth + 1;
            self.first_call = self.calls;
            self.first_byte = self.bytes;
            self.path = Path::new();
            self.stack = Vec::new();
            self.waiting = Waiting::Head;
            assert(self.state() =~= exhausted(old(self).setup(), old(self).state()));
        } else {
            let why: String = text::cat3(
                "no path through windows up to ",
                text::decimal(self.opts.max_gap_clusters).as_str(),
                " clusters led to a complete file",
            );
            self.stop(why);
        }
    }

    /// On to the next candidate of the latest decision.
    fn seek(&mut self)
        requires
            old(self).moving(),
            old(self).state().path.chosen.len() > 0,
        ensures
            final(self).state() == seek(old(self).setup(), old(self).state()),
            final(self).setup() == old(self).setup(),
            final(self).wf(),
    {
        let ghost st = self.setup();
        let ghost whole = seek(st, self.state());
        while self.stack.len() > 0
            invariant_except_break
                self.moving(),
                self.setup() == st,
                self.state().path.chosen.len() > 0,
                seek(st, self.state()) == whole,
            invariant
                whole == seek(old(self).setup(), old(self).state()),
                st == old(self).setup(),
            ensures
                self.moving(),
                self.setup() == st,
                self.stack@.len() == 0,
                exhausted(st, self.state()) == whole,
            decreases self.stack@.len(), last_choices(self.state()),
        {
            let n: usize = self.stack.len();
            let top: Frame = self.stack[n - 1];
            let ghost was = self.state();
            assert(was.stack.last() == branch(top));
            proof {
                paths_shorten(st, was.path, top.base as int);
            }
            self.path.back_to(top.base);
            if top.next_k > top.window {
                self.stack.truncate(n - 1);
                self.backtracks = bytes::add_capped(self.backtracks, 1);
                assert(branches(self.stack@) =~= was.stack.drop_last());
                if self.stack.len() == 0 {
                    assert(seek(st, self.state()) == whole);
                    break;
                }
                continue;
            }
            let last: u64 = self.path.last();
            let k: u64 = top.next_k;
            let c: u64 = self.opts.cluster;
            assert(0 <= c * (k + 1) <= 0xFFFF_FFFF_FFFF_FFFF * 0x1_0000_0000_0000_0000)
                by (nonlinear_arith)
                requires
                    0 <= c <= 0xFFFF_FFFF_FFFF_FFFF,
                    0 <= k <= 0xFFFF_FFFF_FFFF_FFFF,
            ;
            assert(c <= c * (k + 1)) by (nonlinear_arith)
                requires
                    c >= 0,
                    k >= 0,
            ;
            let step: u128 = c as u128 * (k as u128 + 1);
            if step >= self.dev_end as u128 || last as u128 + step >= self.dev_end as u128 {
                self.stack.set(
                    n - 1,
                    Frame { base: top.base, next_k: top.window + 1, window: top.window },
                );
                assert(branches(self.stack@) =~= was.stack.drop_last().push(
                    Branch { next_k: top.window + 1, ..branch(top) },
                ));
                continue;
            }
            let at: u64 = last + step as u64;
            self.stack.set(n - 1, Frame { base: top.base, next_k: k + 1, window: top.window });
            assert(branches(self.stack@) =~= was.stack.drop_last().push(
                Branch { next_k: k + 1, ..branch(top) },
            ));
            self.waiting = Waiting::One { at, k };
            assert(self.state() =~= whole);
            return;
        }
        self.exhaust();
    }

    fn push_frame(&mut self, base: usize, next_k: u64, window: u64)
        requires
            old(self).moving(),
            base >= 1,
            window < u64::MAX,
            next_k <= window + 1,
        ensures
            final(self).state() == (State {
                stack: old(self).state().stack.push(
                    Branch { base: base as int, next_k: next_k as int, window: window as int },
                ),
                ..old(self).state()
            }),
            final(self).setup() == old(self).setup(),
            final(self).moving(),
            final(self).path == old(self).path,
            final(self).waiting == old(self).waiting,
    {
        let ghost was = branches(self.stack@);
        self.stack.push(Frame { base, next_k, window });
        assert(branches(self.stack@) =~= was.push(
            Branch { base: base as int, next_k: next_k as int, window: window as int },
        ));
    }

    /// Extend the path by a new decision.
    fn extend(&mut self)
        requires
            old(self).moving(),
            old(self).state().path.chosen.len() > 0,
        ensures
            final(self).state() == extended(old(self).setup(), old(self).state()),
            final(self).setup() == old(self).setup(),
            final(self).wf(),
    {
        let n: usize = self.path.chosen.len();
        assert(self.state().path.chosen.len() == n);
        assert(self.state().stack.len() == self.stack@.len());
        if n as u64 >= self.opts.max_clusters {
            let why: String = text::cat3(
                "reached the ",
                text::decimal(self.opts.max_clusters).as_str(),
                "-cluster size bound",
            );
            self.stop(why);
            return;
        }
        let stale: u64 = self.path.stale_now();
        if stale < self.opts.max_unverified_clusters {
            let window: u64 = self.window();
            self.push_frame(n, 0, window);
            self.seek();
        } else if self.stack.len() == 0 {
            let why: String = text::cat3(
                "nothing verified in ",
                text::decimal(stale).as_str(),
                " clusters from the header; this format                      offers no landmark to reassemble by",
            );
            self.stop(why);
        } else {
            self.seek();
        }
    }

    /// Run straight on from the path.
    fn gallop(&mut self)
        requires
            old(self).moving(),
            old(self).state().path.chosen.len() > 0,
        ensures
            final(self).state() == galloped(old(self).setup(), old(self).state()),
            final(self).setup() == old(self).setup(),
            final(self).wf(),
    {
        let last: u64 = self.path.last();
        let c: u64 = self.opts.cluster;
        if c >= self.dev_end || last >= self.dev_end - c {
            self.extend();
        } else {
            self.waiting = Waiting::Run { at: last + c };
            assert(self.state() =~= galloped(old(self).setup(), old(self).state()));
        }
    }

    /// Take a cluster into the path.
    fn take(&mut self, at: u64, data: &[u8], verified: u64, high: bool)
        requires
            old(self).moving(),
            old(self).state().path.chosen.len() > 0,
            at >= old(self).state().path.chosen.last() + old(self).setup().opts.cluster,
            at < old(self).setup().dev_end,
        ensures
            final(self).state() == (State {
                path: old(self).state().path.push(at as int, data@, verified as int, high),
                ..old(self).state()
            }),
            final(self).setup() == old(self).setup(),
            final(self).moving(),
            final(self).stack == old(self).stack,
            final(self).waiting == old(self).waiting,
    {
        proof {
            paths_lengthen(self.setup(), self.state().path.chosen, at as int);
        }
        self.path.push(at, data, verified, high);
    }

    /// A candidate was accepted when the path was `before` long.
    fn accept(&mut self, before: usize)
        requires
            old(self).moving(),
            old(self).state().path.chosen.len() > 0,
        ensures
            final(self).state() == accepted(old(self).setup(), old(self).state(), before as int),
            final(self).setup() == old(self).setup(),
            final(self).wf(),
    {
        let window: u64 = self.window();
        let narrow: u64 = if window <= self.opts.continuation_window {
            window
        } else {
            self.opts.continuation_window
        };
        let n: usize = self.path.chosen.len();
        let ghost st = self.setup();
        let ghost whole = revisited(self.state().stack, before + 1, n as int, narrow as int);
        let mut base: usize = if before < n {
            before + 1
        } else {
            n
        };
        while base < n
            invariant
                base >= 1,
                narrow < u64::MAX,
                self.moving(),
                self.setup() == st,
                self.state() == (State { stack: self.state().stack, ..old(self).state() }),
                whole == revisited(self.state().stack, base as int, n as int, narrow as int),
            decreases n - base,
        {
            self.push_frame(base, 1, narrow);
            base += 1;
        }
        assert(self.state() =~= (State { stack: whole, ..old(self).state() }));
        self.gallop();
    }

    fn texture_at(textures: &[Texture], i: usize) -> (r: Texture)
        ensures
            r == texture(textures@, i as int),
    {
        if i < textures.len() {
            textures[i]
        } else {
            Texture { high: false, uniform: true }
        }
    }

    /// The header's cluster was read.
    fn on_head(&mut self, data: &[u8], textures: &[Texture])
        requires
            old(self).wf(),
            old(self).waiting is Head,
        ensures
            final(self).state() == head_read(
                old(self).setup(),
                old(self).state(),
                data@,
                textures@,
            ),
            final(self).setup() == old(self).setup(),
            final(self).wf(),
    {
        if self.spent_up() {
            self.stop("validator budget spent".to_owned());
            return;
        }
        let o: Outcome = self.check(data);
        let high: bool = Self::texture_at(textures, 0).high;
        if o.status == Status::Valid && o.length <= data.len() as u64 {
            self.path.push(self.header, data, o.length, high);
            self.complete(o.length);
            return;
        }
        if !o.ran_out {
            // Nothing to extend: the header cluster is already contradicted.
            self.remember(&o);
            let why: String = text::cat2(
                "the header cluster itself does not validate: ",
                o.detail.as_str(),
            );
            self.stop(why);
            return;
        }
        self.path.push(self.header, data, o.length, high);
        self.remember(&o);
        self.gallop();
    }

    /// Take the clusters of a run that the verdict covers; how many were taken.
    fn take_run(
        &mut self,
        at: u64,
        run: &[u8],
        textures: &[Texture],
        had: usize,
        valid: bool,
        length: u64,
    ) -> (taken: u64)
        requires
            old(self).moving(),
            old(self).state().path.chosen.len() > 0,
            at == old(self).state().path.chosen.last() + old(self).setup().opts.cluster,
            at + run@.len() <= old(self).setup().dev_end,
            had + run@.len() <= usize::MAX,
        ensures
            (final(self).state(), taken as int) == run_taken(
                old(self).setup(),
                old(self).state(),
                at as int,
                run@,
                textures@,
                had as int,
                valid,
                length as int,
                0,
                0,
            ),
            final(self).setup() == old(self).setup(),
            final(self).moving(),
            final(self).state().path.chosen.len() > 0,
    {
        let ghost st = self.setup();
        let ghost whole = run_taken(
            st,
            self.state(),
            at as int,
            run@,
            textures@,
            had as int,
            valid,
            length as int,
            0,
            0,
        );
        let c: u64 = self.opts.cluster;
        let mut taken: usize = 0;
        let mut off: usize = 0;
        while off < run.len()
            invariant
                self.moving(),
                self.setup() == st,
                c == st.opts.cluster,
                self.state().path.chosen.len() > 0,
                off <= run@.len(),
                taken <= off,
                off < run@.len() ==> self.state().path.chosen.last() + c == at + off,
                at + run@.len() <= st.dev_end,
                had + run@.len() <= usize::MAX,
                whole == run_taken(
                    old(self).setup(),
                    old(self).state(),
                    at as int,
                    run@,
                    textures@,
                    had as int,
                    valid,
                    length as int,
                    0,
                    0,
                ),
                st == old(self).setup(),
                whole == run_taken(
                    st,
                    self.state(),
                    at as int,
                    run@,
                    textures@,
                    had as int,
                    valid,
                    length as int,
                    off as int,
                    taken as int,
                ),
            decreases run@.len() - off,
        {
            if c == 0 {
                return taken as u64;
            }
            let end: usize = if c <= (run.len() - off) as u64 {
                off + c as usize
            } else {
                run.len()
            };
            let covered: bool = if valid {
                ((had + off) as u64) < length
            } else {
                (had + end) as u64 <= length
            };
            if !covered {
                return taken as u64;
            }
            let here: Texture = Self::texture_at(textures, taken);
            // Even a vouching validator does not get to walk into filler.
            if self.path.all_high() && here.uniform {
                self.prefiltered = bytes::add_capped(self.prefiltered, 1);
                return taken as u64;
            }
            let base: usize = self.path.chosen.len();
            let narrow: u64 = self.opts.continuation_window;
            assert(self.state().path.chosen.len() == base);
            self.push_frame(base, 1, narrow);
            self.take(at + off as u64, slice_subrange(run, off, end), length, here.high);
            taken += 1;
            off = end;
        }
        taken as u64
    }

    /// A run straight on from the path was read.
    fn on_run(&mut self, at: u64, run: &[u8], textures: &[Texture])
        requires
            old(self).wf(),
            old(self).waiting == (Waiting::Run { at }),
            at + run@.len() <= old(self).setup().dev_end,
        ensures
            final(self).state() == run_read(
                old(self).setup(),
                old(self).state(),
                at as int,
                run@,
                textures@,
            ),
            final(self).setup() == old(self).setup(),
            final(self).wf(),
    {
        if self.spent_up() {
            self.stop("validator budget spent".to_owned());
            return;
        }
        let trial: Vec<u8> = self.path.with(run);
        let had: usize = self.path.buf.len();
        let o: Outcome = self.check(trial.as_slice());
        let valid: bool = o.status == Status::Valid && o.length <= trial.len() as u64;
        if !valid && !o.ran_out {
            self.extend();
            return;
        }
        let taken: u64 = self.take_run(at, run, textures, had, valid, o.length);
        if valid {
            if self.path.buf.len() as u64 >= o.length {
                self.complete(o.length);
            } else {
                self.extend();
            }
            return;
        }
        if taken > 0 {
            self.remember(&o);
        }
        if taken < self.opts.run_clusters {
            self.extend();
        } else {
            self.gallop();
        }
    }

    /// One candidate cluster was read.
    fn on_one(&mut self, at: u64, k: u64, one: &[u8], textures: &[Texture])
        requires
            old(self).wf(),
            old(self).waiting == (Waiting::One { at, k }),
        ensures
            final(self).state() == one_read(
                old(self).setup(),
                old(self).state(),
                at as int,
                k as int,
                one@,
                textures@,
            ),
            final(self).setup() == old(self).setup(),
            final(self).wf(),
    {
        let here: Texture = Self::texture_at(textures, 0);
        if self.path.all_high() && here.uniform {
            self.prefiltered = bytes::add_capped(self.prefiltered, 1);
            self.seek();
            return;
        }
        if self.spent_up() {
            self.stop("validator budget spent".to_owned());
            return;
        }
        let trial: Vec<u8> = self.path.with(one);
        let had: usize = self.path.buf.len();
        let before: usize = self.path.chosen.len();
        assert(self.state().path.chosen.len() == before);
        let o: Outcome = self.check(trial.as_slice());
        if o.status == Status::Valid && o.length <= trial.len() as u64 {
            self.take(at, one, o.length, here.high);
            self.complete(o.length);
            return;
        }
        if !o.ran_out {
            self.seek();
            return;
        }
        if o.length > had as u64 || k == 0 {
            self.take(at, one, o.length, here.high);
            self.remember(&o);
            self.accept(before);
            return;
        }
        self.waiting = Waiting::Look { at, one: one.len() };
    }

    /// Take the clusters of a lookahead that the verdict covers.
    fn take_look(
        &mut self,
        at: u64,
        run: &[u8],
        textures: &[Texture],
        had: usize,
        valid: bool,
        length: u64,
    )
        requires
            old(self).moving(),
            old(self).state().path.chosen.len() > 0,
            at >= old(self).state().path.chosen.last() + old(self).setup().opts.cluster,
            at + run@.len() <= old(self).setup().dev_end,
            had + run@.len() <= usize::MAX,
        ensures
            final(self).state() == (State {
                path: look_taken(
                    old(self).setup(),
                    old(self).state().path,
                    at as int,
                    run@,
                    textures@,
                    had as int,
                    valid,
                    length as int,
                    0,
                    0,
                ),
                ..old(self).state()
            }),
            final(self).setup() == old(self).setup(),
            final(self).moving(),
            final(self).state().path.chosen.len() >= old(self).state().path.chosen.len(),
            final(self).waiting == old(self).waiting,
    {
        let ghost st = self.setup();
        let ghost whole = look_taken(
            st,
            self.state().path,
            at as int,
            run@,
            textures@,
            had as int,
            valid,
            length as int,
            0,
            0,
        );
        let c: u64 = self.opts.cluster;
        let mut taken: usize = 0;
        let mut off: usize = 0;
        while off < run.len()
            invariant_except_break
                whole == look_taken(
                    st,
                    self.state().path,
                    at as int,
                    run@,
                    textures@,
                    had as int,
                    valid,
                    length as int,
                    off as int,
                    taken as int,
                ),
                off < run@.len() ==> self.state().path.chosen.last() + c <= at + off,
            invariant
                self.moving(),
                self.setup() == st,
                st == old(self).setup(),
                c == st.opts.cluster,
                self.state().path.chosen.len() > 0,
                self.state().path.chosen.len() >= old(self).state().path.chosen.len(),
                off <= run@.len(),
                taken <= off,
                at + run@.len() <= st.dev_end,
                had + run@.len() <= usize::MAX,
                self.state() == (State { path: self.state().path, ..old(self).state() }),
                self.waiting == old(self).waiting,
            ensures
                self.state().path == whole,
            decreases run@.len() - off,
        {
            if c == 0 {
                break;
            }
            let end: usize = if c <= (run.len() - off) as u64 {
                off + c as usize
            } else {
                run.len()
            };
            let covered: bool = if valid {
                ((had + off) as u64) < length
            } else {
                (had + end) as u64 <= length
            };
            if !covered {
                break;
            }
            let high: bool = Self::texture_at(textures, taken).high;
            self.take(at + off as u64, slice_subrange(run, off, end), length, high);
            taken += 1;
            off = end;
        }
    }

    /// Clusters past a candidate were read.
    fn on_look(&mut self, at: u64, one: usize, run: &[u8], textures: &[Texture])
        requires
            old(self).wf(),
            old(self).waiting == (Waiting::Look { at, one }),
            at + run@.len() <= old(self).setup().dev_end,
        ensures
            final(self).state() == look_read(
                old(self).setup(),
                old(self).state(),
                at as int,
                one as int,
                run@,
                textures@,
            ),
            final(self).setup() == old(self).setup(),
            final(self).wf(),
    {
        if run.len() <= one {
            self.seek();
            return;
        }
        if self.spent_up() {
            self.stop("validator budget spent".to_owned());
            return;
        }
        let trial: Vec<u8> = self.path.with(run);
        let had: usize = self.path.buf.len();
        let before: usize = self.path.chosen.len();
        assert(self.state().path.chosen.len() == before);
        let o: Outcome = self.check(trial.as_slice());
        let valid: bool = o.status == Status::Valid && o.length <= trial.len() as u64;
        if !valid && o.length <= had as u64 {
            self.seek();
            return;
        }
        self.take_look(at, run, textures, had, valid, o.length);
        if valid {
            if self.path.buf.len() as u64 >= o.length {
                self.complete(o.length);
            } else {
                self.seek();
            }
            return;
        }
        self.remember(&o);
        self.accept(before);
    }

    /// Go on with what the read that was waited for gave: its bytes, and the
    /// texture of each of its clusters.
    pub fn feed(&mut self, data: &[u8], textures: &[Texture])
        requires
            old(self).wf(),
            old(self).setup().wants(old(self).state().stage) matches Some((at, n)) ==> data@.len()
                <= n,
        ensures
            final(self).state() == fed(old(self).setup(), old(self).state(), data@, textures@),
            final(self).setup() == old(self).setup(),
            final(self).wf(),
    {
        match &self.waiting {
            Waiting::Head => {
                self.on_head(data, textures);
            },
            Waiting::Run { at } => {
                let at: u64 = *at;
                self.on_run(at, data, textures);
            },
            Waiting::One { at, k } => {
                let at: u64 = *at;
                let k: u64 = *k;
                self.on_one(at, k, data, textures);
            },
            Waiting::Look { at, one } => {
                let at: u64 = *at;
                let one: usize = *one;
                self.on_look(at, one, data, textures);
            },
            Waiting::Done { result: _ } => {},
        }
    }
}

} // verus!
