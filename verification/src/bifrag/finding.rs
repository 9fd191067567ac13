//! What a search finds: a file in one piece, a file in two, and every candidate
//! in between.

use vstd::prelude::*;
use crate::bifrag;
use crate::bytes;
use crate::validate::{Status, Verdict};
use super::search;
use super::search::{Branch, Setup, Stage, State, Texture, Trail};

verus! {

/// Whether the attempt may still put something to the validator.
pub open spec fn may_go_on(st: Setup, s: State) -> bool {
    &&& s.calls - s.first_call < st.opts.budget
    &&& s.bytes - s.first_byte < st.opts.budget_bytes
}

/// Whether none of the first `n` clusters of a read is filler.
pub open spec fn no_filler(t: Seq<Texture>, n: int) -> bool {
    n <= t.len() && forall|i: int| 0 <= i < n ==> !(#[trigger] t[i]).uniform
}

/// How many clusters of `c` bytes begin in `n` bytes.
pub open spec fn clusters_in(n: int, c: int) -> int {
    (n + c - 1) / c
}

/// Whether the search has ended with a complete file of `length` bytes.
pub open spec fn found(s: State, length: int) -> bool {
    s.stage matches Stage::Done { report } && report.status == Status::Valid && report.length
        == length
}

/// Whether the validator finds these bytes to begin with a complete file.
pub open spec fn is_whole(v: Verdict, n: int) -> bool {
    v.status == Status::Valid && 0 <= v.length <= n
}

/// Whether the validator finds something in these bytes that cannot belong.
pub open spec fn is_wrong(v: Verdict) -> bool {
    v.status != Status::Valid && !v.ran_out
}

/// Whether the validator would go on from these bytes.
pub open spec fn goes_on(v: Verdict) -> bool {
    v.status != Status::Valid && v.ran_out
}

proof fn held_in(chosen: Seq<int>, c: int, n: int)
    requires
        0 <= n <= chosen.len(),
        c >= 0,
    ensures
        ({
            let runs = bifrag::runs_upto(chosen, c, n);
            bifrag::held(runs, runs.len() as int) == c * n
        }),
    decreases n,
{
    assert(c * 0 == 0) by (nonlinear_arith);
    if n > 0 {
        held_in(chosen, c, n - 1);
        let before = bifrag::runs_upto(chosen, c, n - 1);
        let now = bifrag::runs_upto(chosen, c, n);
        assert(c * n == c * (n - 1) + c) by (nonlinear_arith);
        if before.len() > 0 && before.last().0 + before.last().1 == chosen[n - 1] {
            same_held(before, now, before.len() - 1);
        } else {
            same_held(before, now, before.len() as int);
        }
    }
}

proof fn same_held(a: Seq<(int, int)>, b: Seq<(int, int)>, n: int)
    requires
        0 <= n <= a.len(),
        n <= b.len(),
        forall|i: int| 0 <= i < n ==> a[i] == b[i],
    ensures
        bifrag::held(a, n) == bifrag::held(b, n),
    decreases n,
{
    if n > 0 {
        same_held(a, b, n - 1);
    }
}

/// The clusters have room for the bytes that they spell.
pub open spec fn roomy(st: Setup, p: Trail) -> bool {
    p.buf.len() <= st.opts.cluster * p.chosen.len()
}

pub(super) proof fn reported_whole(st: Setup, s: State, length: int)
    requires
        roomy(st, s.path),
        0 <= length <= s.path.buf.len(),
    ensures
        found(search::complete(st, s, length), length),
{
    held_in(s.path.chosen, st.opts.cluster as int, s.path.chosen.len() as int);
}

proof fn one_more_fits(st: Setup, p: Trail, at: int, more: Seq<u8>, v: int, high: bool)
    requires
        roomy(st, p),
        more.len() <= st.opts.cluster,
    ensures
        roomy(st, p.push(at, more, v, high)),
{
    let c = st.opts.cluster as int;
    let n = p.chosen.len() as int;
    assert(c * (n + 1) == c * n + c) by (nonlinear_arith);
}

/// A file that its first cluster holds whole is found there.
pub proof fn a_file_in_one_cluster_is_found(st: Setup, data: Seq<u8>, t: Seq<Texture>)
    requires
        st.opts.budget > 0,
        st.opts.budget_bytes > 0,
        data.len() <= st.opts.cluster,
        is_whole(search::said(st, data), data.len() as int),
    ensures
        found(
            search::fed(st, search::begun(), data, t),
            search::said(st, data).length,
        ),
{
    let v = search::said(st, data);
    let p = Trail::new();
    let c = st.opts.cluster as int;
    assert(c * 0 == 0) by (nonlinear_arith);
    let high = search::texture(t, 0).high;
    one_more_fits(st, p, st.header, data, v.length, high);
    let path = p.push(st.header, data, v.length, high);
    assert(path.buf =~= data);
    let s1 = search::charged(search::begun(), data);
    reported_whole(st, State { path, ..s1 }, v.length);
}

/// A header whose cluster cannot belong to a file of its format is not searched
/// for, and nothing complete is reported.
pub proof fn a_wrong_header_ends_the_search(st: Setup, data: Seq<u8>, t: Seq<Texture>)
    requires
        is_wrong(search::said(st, data)),
    ensures
        search::fed(st, search::begun(), data, t).stage matches Stage::Done { report }
            && report.status != Status::Valid,
{
}

/// The search runs on from a header that ran out: what follows it on the device
/// is looked at next.
pub proof fn a_search_runs_straight_on(st: Setup, data: Seq<u8>, t: Seq<Texture>)
    requires
        st.opts.budget > 0,
        st.opts.budget_bytes > 0,
        goes_on(search::said(st, data)),
        st.header + st.opts.cluster < st.dev_end,
    ensures
        ({
            let s = search::fed(st, search::begun(), data, t);
            &&& s.stage == (Stage::Run { at: st.header + st.opts.cluster })
            &&& s.path.chosen == seq![st.header]
            &&& s.path.buf == data
        }),
{
    let s = search::fed(st, search::begun(), data, t);
    assert(s.path.buf =~= data);
    assert(s.path.chosen =~= seq![st.header]);
}

/// The clusters of a run that a verdict covers.
proof fn along_a_run(
    st: Setup,
    s: State,
    at: int,
    run: Seq<u8>,
    t: Seq<Texture>,
    had: int,
    valid: bool,
    length: int,
    off: int,
    taken: int,
)
    requires
        st.opts.cluster > 0,
        0 <= off <= run.len(),
        0 <= taken,
        off < run.len() ==> off == st.opts.cluster * taken,
        s.path.buf.len() == had + off,
        no_filler(t, clusters_in(run.len() as int, st.opts.cluster as int)),
        roomy(st, s.path),
        s.path.chosen.len() > 0,
        s.path.chosen.last() == at + off - st.opts.cluster || off == run.len(),
        valid ==> had + off <= length + st.opts.cluster,
    ensures
        ({
            let (s2, n) = search::run_taken(st, s, at, run, t, had, valid, length, off, taken);
            &&& roomy(st, s2.path)
            &&& s2.path.buf.len() <= had + run.len()
            &&& s2.path.chosen.len() - s.path.chosen.len() == n - taken
            &&& n >= taken
            &&& valid ==> s2.path.buf.len() >= bifrag::least(length, had + run.len())
            &&& !valid ==> s2.path.buf.len() <= bytes::larger(length, had + off)
            &&& !valid && s2.path.buf.len() < had + run.len() ==> bifrag::least(
                s2.path.buf.len() + st.opts.cluster,
                had + run.len(),
            ) > length
        }),
    decreases run.len() - off,
{
    let c = st.opts.cluster as int;
    let end = bifrag::least(off + c, run.len() as int);
    if off < run.len() && search::covered(valid, had, off, end, length) {
        let n = run.len() as int;
        assert(taken < clusters_in(n, c)) by (nonlinear_arith)
            requires
                c * taken < n,
                c > 0,
                clusters_in(n, c) == (n + c - 1) / c,
        ;
        assert(!t[taken].uniform);
        let more = run.subrange(off, end);
        let high = search::texture(t, taken).high;
        one_more_fits(st, s.path, at + off, more, length, high);
        let s1 = State {
            stack: s.stack.push(
                Branch {
                    base: s.path.chosen.len() as int,
                    next_k: 1,
                    window: st.opts.continuation_window as int,
                },
            ),
            path: s.path.push(at + off, more, length, high),
            ..s
        };
        assert(c * (taken + 1) == c * taken + c) by (nonlinear_arith);
        along_a_run(st, s1, at, run, t, had, valid, length, end, taken + 1);
    }
}

/// Where what stands straight on from the path completes the file, the file is
/// found, as long as the validator says; none of it being filler.
pub proof fn a_file_straight_on_is_found(
    st: Setup,
    s: State,
    at: int,
    run: Seq<u8>,
    t: Seq<Texture>,
)
    requires
        s.stage == (Stage::Run { at }),
        may_go_on(st, s),
        st.opts.cluster > 0,
        roomy(st, s.path),
        s.path.chosen.len() > 0,
        at == s.path.chosen.last() + st.opts.cluster,
        no_filler(t, clusters_in(run.len() as int, st.opts.cluster as int)),
        is_whole(search::said(st, s.path.buf + run), (s.path.buf + run).len() as int),
        search::said(st, s.path.buf + run).length >= s.path.buf.len(),
    ensures
        found(search::fed(st, s, run, t), search::said(st, s.path.buf + run).length),
{
    let trial = s.path.buf + run;
    let had = s.path.buf.len() as int;
    let v = search::said(st, trial);
    let s1 = search::charged(s, trial);
    let c = st.opts.cluster as int;
    assert(c * 0 == 0) by (nonlinear_arith);
    along_a_run(st, s1, at, run, t, had, true, v.length, 0, 0);
    let (s2, taken) = search::run_taken(st, s1, at, run, t, had, true, v.length, 0, 0);
    reported_whole(st, s2, v.length);
}

/// Where what stands straight on from the path cannot belong, the search decides
/// from there on, beginning with the next cluster alone.
pub proof fn a_wrong_run_begins_a_decision(
    st: Setup,
    s: State,
    at: int,
    run: Seq<u8>,
    t: Seq<Texture>,
)
    requires
        s.stage == (Stage::Run { at }),
        may_go_on(st, s),
        0 < s.path.chosen.len() < st.opts.max_clusters,
        search::last_or(s.path.stale, 0) < st.opts.max_unverified_clusters,
        at == s.path.chosen.last() + st.opts.cluster,
        at < st.dev_end,
        st.window(s.depth) >= 0,
        is_wrong(search::said(st, s.path.buf + run)),
    ensures
        ({
            let s1 = search::fed(st, s, run, t);
            &&& deciding(st, s1, 0, st.window(s.depth))
            &&& s1.path == s.path
            &&& s1.best == s.best
        }),
{
    reveal_with_fuel(search::seek, 2);
    assert(s.path.back_to(s.path.chosen.len() as int) == s.path);
    let c = st.opts.cluster as int;
    assert(c * (0 + 1) == c) by (nonlinear_arith);
    let s1 = search::fed(st, s, run, t);
    assert(s1.stack.last() == Branch {
        base: s.path.chosen.len() as int,
        next_k: 1,
        window: st.window(s.depth),
    });
}

/// Where a candidate completes the file, the file is found.
pub proof fn a_candidate_that_completes_is_found(
    st: Setup,
    s: State,
    at: int,
    k: int,
    one: Seq<u8>,
    t: Seq<Texture>,
)
    requires
        s.stage == (Stage::One { at, k }),
        may_go_on(st, s),
        one.len() <= st.opts.cluster,
        roomy(st, s.path),
        no_filler(t, 1),
        is_whole(search::said(st, s.path.buf + one), (s.path.buf + one).len() as int),
    ensures
        found(search::fed(st, s, one, t), search::said(st, s.path.buf + one).length),
{
    let trial = s.path.buf + one;
    let v = search::said(st, trial);
    let s1 = search::charged(s, trial);
    assert(!t[0].uniform);
    let high = search::texture(t, 0).high;
    one_more_fits(st, s.path, at, one, v.length, high);
    let path = s.path.push(at, one, v.length, high);
    assert(path.buf =~= trial);
    reported_whole(st, State { path, ..s1 }, v.length);
}

/// A candidate of which the validator vouches for more than for the path before
/// it, or that follows the path directly and does not contradict it, is taken,
/// and the search runs straight on from it.
pub proof fn a_candidate_that_fits_is_taken(
    st: Setup,
    s: State,
    at: int,
    k: int,
    one: Seq<u8>,
    t: Seq<Texture>,
)
    requires
        s.stage == (Stage::One { at, k }),
        may_go_on(st, s),
        no_filler(t, 1),
        goes_on(search::said(st, s.path.buf + one)),
        search::said(st, s.path.buf + one).length > s.path.buf.len() || k == 0,
        at + st.opts.cluster < st.dev_end,
    ensures
        ({
            let s1 = search::fed(st, s, one, t);
            &&& s1.stage == (Stage::Run { at: at + st.opts.cluster })
            &&& s1.path.chosen == s.path.chosen.push(at)
            &&& s1.path.buf == s.path.buf + one
        }),
{
    assert(!t[0].uniform);
}

/// A candidate further on that neither fits nor contradicts is looked at again,
/// together with what follows it.
pub proof fn a_silent_candidate_is_looked_into(
    st: Setup,
    s: State,
    at: int,
    k: int,
    one: Seq<u8>,
    t: Seq<Texture>,
)
    requires
        s.stage == (Stage::One { at, k }),
        may_go_on(st, s),
        no_filler(t, 1),
        goes_on(search::said(st, s.path.buf + one)),
        search::said(st, s.path.buf + one).length <= s.path.buf.len(),
        k != 0,
    ensures
        ({
            let s1 = search::fed(st, s, one, t);
            &&& s1.stage == (Stage::Look { at, one: one.len() as int })
            &&& s1.path == s.path
            &&& s1.stack == s.stack
        }),
{
    assert(!t[0].uniform);
}

/// Whether the search is at the candidate `k` clusters past the next, of a
/// decision at the end of its path that may look `window` clusters far.
pub open spec fn deciding(st: Setup, s: State, k: int, window: int) -> bool {
    &&& s.path.chosen.len() > 0
    &&& s.stage == (Stage::One { at: s.path.chosen.last() + st.opts.cluster * (k + 1), k })
    &&& s.stack.len() > 0
    &&& s.stack.last() == (Branch { base: s.path.chosen.len() as int, next_k: k + 1, window })
}

/// A candidate that cannot belong, or is filler where the file has none, is
/// followed by the next one on the device, up to the window: none is left out,
/// and nothing else about the path changes.
pub proof fn a_wrong_candidate_gives_way_to_the_next(
    st: Setup,
    s: State,
    k: int,
    window: int,
    one: Seq<u8>,
    t: Seq<Texture>,
)
    requires
        deciding(st, s, k, window),
        s.path.all_high() && t.len() > 0 && t[0].uniform || (may_go_on(st, s) && no_filler(t, 1)
            && is_wrong(search::said(st, s.path.buf + one))),
        k + 1 <= window,
        s.path.chosen.last() + st.opts.cluster * (k + 2) < st.dev_end,
    ensures
        ({
            let s1 = search::fed(st, s, one, t);
            &&& deciding(st, s1, k + 1, window)
            &&& s1.path == s.path
            &&& s1.best == s.best
            &&& s1.first_call == s.first_call
            &&& s1.first_byte == s.first_byte
            &&& s1.depth == s.depth
        }),
{
    reveal_with_fuel(search::seek, 2);
    if t.len() > 0 {
        assert(search::texture(t, 0) == t[0]);
    }
    let s1 = search::fed(st, s, one, t);
    assert(s.path.back_to(s.path.chosen.len() as int) == s.path);
    let c = st.opts.cluster as int;
    assert(c * (k + 1 + 1) == c * (k + 2));
    assert(s1.stack.last() == Branch {
        base: s.path.chosen.len() as int,
        next_k: k + 2,
        window,
    });
}

/// The search once it has been fed these reads, one after the other.
pub open spec fn fed_all(st: Setup, s: State, reads: Seq<(Seq<u8>, Seq<Texture>)>, n: int) -> State
    decreases n,
{
    if n <= 0 {
        s
    } else {
        let before = fed_all(st, s, reads, n - 1);
        search::fed(st, before, reads[n - 1].0, reads[n - 1].1)
    }
}

/// Whether the attempt may still put `n` more reads of a cluster to the
/// validator.
pub open spec fn may_go_on_for(st: Setup, s: State, n: int) -> bool {
    &&& s.calls - s.first_call + n <= st.opts.budget
    &&& s.bytes - s.first_byte + n * (s.path.buf.len() + st.opts.cluster) <= st.opts.budget_bytes
    &&& 0 <= s.calls
    &&& 0 <= s.bytes
    &&& 0 <= s.first_call
    &&& 0 <= s.first_byte
    &&& s.calls + n <= u64::MAX
    &&& s.bytes + n * (s.path.buf.len() + st.opts.cluster) <= u64::MAX
}

/// The file's second piece is found wherever it begins within the window: where
/// every candidate before it cannot belong, and with it the file is complete,
/// the search, fed those candidates in turn, ends with the file.
pub proof fn the_second_piece_is_found(
    st: Setup,
    s: State,
    window: int,
    reads: Seq<(Seq<u8>, Seq<Texture>)>,
    n: int,
)
    requires
        st.opts.cluster > 0,
        deciding(st, s, 0, window),
        roomy(st, s.path),
        0 < n <= reads.len(),
        n - 1 <= window,
        s.path.chosen.last() + st.opts.cluster * n < st.dev_end,
        may_go_on_for(st, s, n),
        forall|i: int|
            0 <= i < n ==> (#[trigger] reads[i]).0.len() <= st.opts.cluster && no_filler(
                reads[i].1,
                1,
            ),
        forall|i: int|
            0 <= i < n - 1 ==> is_wrong(search::said(st, s.path.buf + (#[trigger] reads[i]).0)),
        is_whole(
            search::said(st, s.path.buf + reads[n - 1].0),
            (s.path.buf + reads[n - 1].0).len() as int,
        ),
    ensures
        found(
            fed_all(st, s, reads, n),
            search::said(st, s.path.buf + reads[n - 1].0).length,
        ),
{
    past_the_wrong_ones(st, s, window, reads, n, n - 1);
    let before = fed_all(st, s, reads, n - 1);
    let at = before.path.chosen.last() + st.opts.cluster * n;
    assert(reads[n - 1].0.len() <= st.opts.cluster);
    a_candidate_that_completes_is_found(
        st,
        before,
        at,
        n - 1,
        reads[n - 1].0,
        reads[n - 1].1,
    );
}

proof fn past_the_wrong_ones(
    st: Setup,
    s: State,
    window: int,
    reads: Seq<(Seq<u8>, Seq<Texture>)>,
    n: int,
    i: int,
)
    requires
        st.opts.cluster > 0,
        deciding(st, s, 0, window),
        0 <= i < n <= reads.len(),
        n - 1 <= window,
        s.path.chosen.last() + st.opts.cluster * n < st.dev_end,
        may_go_on_for(st, s, n),
        forall|j: int|
            0 <= j < n ==> (#[trigger] reads[j]).0.len() <= st.opts.cluster && no_filler(
                reads[j].1,
                1,
            ),
        forall|j: int|
            0 <= j < n - 1 ==> is_wrong(search::said(st, s.path.buf + (#[trigger] reads[j]).0)),
    ensures
        ({
            let now = fed_all(st, s, reads, i);
            &&& deciding(st, now, i, window)
            &&& now.path == s.path
            &&& now.first_call == s.first_call
            &&& now.first_byte == s.first_byte
            &&& s.calls <= now.calls <= s.calls + i
            &&& s.bytes <= now.bytes <= s.bytes + i * (s.path.buf.len() + st.opts.cluster)
            &&& may_go_on(st, now)
        }),
    decreases i,
{
    let each = s.path.buf.len() + st.opts.cluster;
    assert(0 * each == 0) by (nonlinear_arith);
    assert(i * each + each <= n * each) by (nonlinear_arith)
        requires
            i < n,
            each > 0,
    ;
    if i > 0 {
        past_the_wrong_ones(st, s, window, reads, n, i - 1);
        let was = fed_all(st, s, reads, i - 1);
        let c = st.opts.cluster as int;
        assert(c * (i + 1) <= c * n) by (nonlinear_arith)
            requires
                i < n,
                c > 0,
        ;
        assert(is_wrong(search::said(st, s.path.buf + reads[i - 1].0)));
        a_wrong_candidate_gives_way_to_the_next(
            st,
            was,
            i - 1,
            window,
            reads[i - 1].0,
            reads[i - 1].1,
        );
        assert(i * each == (i - 1) * each + each) by (nonlinear_arith);
        candidates_cost(st, was, i - 1, window, reads[i - 1].0, reads[i - 1].1);
    }
}

/// What a wrong candidate costs.
proof fn candidates_cost(
    st: Setup,
    s: State,
    k: int,
    window: int,
    one: Seq<u8>,
    t: Seq<Texture>,
)
    requires
        deciding(st, s, k, window),
        may_go_on(st, s),
        no_filler(t, 1),
        is_wrong(search::said(st, s.path.buf + one)),
        k + 1 <= window,
        s.path.chosen.last() + st.opts.cluster * (k + 2) < st.dev_end,
        0 <= s.calls < u64::MAX,
        0 <= s.bytes,
        s.bytes + s.path.buf.len() + one.len() <= u64::MAX,
    ensures
        search::fed(st, s, one, t).calls == s.calls + 1,
        search::fed(st, s, one, t).bytes == s.bytes + s.path.buf.len() + one.len(),
{
    reveal_with_fuel(search::seek, 2);
    assert(!t[0].uniform);
    assert(s.path.back_to(s.path.chosen.len() as int) == s.path);
    let c = st.opts.cluster as int;
    assert(c * (k + 1 + 1) == c * (k + 2));
}

/// A search reports a complete file only where the validator said so: where it
/// has spent what it may, it ends without one.
pub proof fn a_spent_search_claims_nothing(st: Setup, s: State, data: Seq<u8>, t: Seq<Texture>)
    requires
        !may_go_on(st, s),
        s.stage is Head || s.stage is Run,
    ensures
        search::fed(st, s, data, t).stage matches Stage::Done { report } && report.status
            != Status::Valid,
{
}

} // verus!
