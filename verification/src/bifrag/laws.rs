//! What a search promises of its result.

use vstd::prelude::*;
use crate::bifrag;
use crate::bytes;
use crate::scan;
use crate::validate;
use crate::validate::Status;
use super::Report;
use super::search;
use super::search::{Branch, Setup, Stage, State, Texture, Trail};

verus! {

// ---------------------------------------------------------------------------
// Runs
// ---------------------------------------------------------------------------

proof fn runs_lie_apart(chosen: Seq<int>, c: int, n: int)
    requires
        0 <= n <= chosen.len(),
        c >= 0,
        bifrag::apart(chosen, c),
    ensures
        ({
            let runs = bifrag::runs_upto(chosen, c, n);
            &&& (runs.len() == 0) == (n == 0)
            &&& forall|i: int| 0 <= i < runs.len() ==> (#[trigger] runs[i]).1 >= c
            &&& forall|i: int, j: int|
                0 <= i < j < runs.len() ==> (#[trigger] runs[i]).0 + runs[i].1 < (
                #[trigger] runs[j]).0
            &&& n > 0 ==> runs[0].0 == chosen[0]
            &&& n > 0 ==> runs.last().0 + runs.last().1 == chosen[n - 1] + c
        }),
    decreases n,
{
    if n > 0 {
        runs_lie_apart(chosen, c, n - 1);
        let before = bifrag::runs_upto(chosen, c, n - 1);
        let now = bifrag::runs_upto(chosen, c, n);
        if n > 1 {
            assert(chosen[n - 2] + c <= chosen[n - 1]);
            assert forall|i: int, j: int| 0 <= i < j < now.len() implies (#[trigger] now[i]).0
                + now[i].1 < (#[trigger] now[j]).0 by {
                if i < before.len() - 1 {
                    assert(before[i].0 + before[i].1 < before[before.len() - 1].0);
                    assert(now[i] == before[i]);
                    if j < before.len() {
                        assert(now[j].0 == before[j].0);
                    }
                }
            }
            assert forall|i: int| 0 <= i < now.len() implies (#[trigger] now[i]).1 >= c by {
                if i < before.len() {
                    assert(now[i].1 >= before[i].1);
                }
            }
        }
    }
}

/// The runs of a reassembled file are in ascending order, with something
/// between each and the next, none is empty, the first begins where the first
/// cluster does, and together they hold exactly the length that is reported.
pub proof fn pieces_add_up(chosen: Seq<int>, c: int, length: int)
    requires
        c >= 0,
        length >= 0,
        bifrag::apart(chosen, c),
    ensures
        ({
            let p = bifrag::pieces_of(chosen, c, length);
            &&& bifrag::held(p, p.len() as int) == bifrag::kept_length(chosen, c, length)
            &&& bifrag::kept_length(chosen, c, length) <= length
            &&& forall|i: int| 0 <= i < p.len() ==> (#[trigger] p[i]).1 > 0
            &&& forall|i: int, j: int|
                0 <= i < j < p.len() ==> (#[trigger] p[i]).0 + p[i].1 < (#[trigger] p[j]).0
            &&& bifrag::kept_length(chosen, c, length) > 0 ==> p.len() > 0 && chosen.len() > 0
                && p[0].0 == chosen[0]
        }),
{
    let runs = bifrag::runs_upto(chosen, c, chosen.len() as int);
    runs_lie_apart(chosen, c, chosen.len() as int);
    holding_is_not_negative(runs, runs.len() as int);
    let kept = bifrag::kept_length(chosen, c, length);
    cutting_keeps(runs, kept, runs.len() as int);
    if kept > 0 {
        if c == 0 {
            empty_runs(chosen, chosen.len() as int);
            holding_of_empty(runs, runs.len() as int);
        } else {
            first_of_a_cut(runs, kept, runs.len() as int);
        }
    }
}

proof fn empty_runs(chosen: Seq<int>, n: int)
    requires
        0 <= n <= chosen.len(),
    ensures
        forall|i: int|
            0 <= i < bifrag::runs_upto(chosen, 0, n).len() ==> (#[trigger] bifrag::runs_upto(
                chosen,
                0,
                n,
            )[i]).1 == 0,
    decreases n,
{
    if n > 0 {
        empty_runs(chosen, n - 1);
        let before = bifrag::runs_upto(chosen, 0, n - 1);
        let now = bifrag::runs_upto(chosen, 0, n);
        assert forall|i: int| 0 <= i < now.len() implies (#[trigger] now[i]).1 == 0 by {
            if i < before.len() {
                assert(before[i].1 == 0);
            }
        }
    }
}

proof fn holding_of_empty(runs: Seq<(int, int)>, n: int)
    requires
        0 <= n <= runs.len(),
        forall|i: int| 0 <= i < runs.len() ==> (#[trigger] runs[i]).1 == 0,
    ensures
        bifrag::held(runs, n) == 0,
    decreases n,
{
    if n > 0 {
        holding_of_empty(runs, n - 1);
    }
}

proof fn first_of_a_cut(runs: Seq<(int, int)>, length: int, n: int)
    requires
        0 <= n <= runs.len(),
        length > 0,
        forall|i: int| 0 <= i < runs.len() ==> (#[trigger] runs[i]).1 > 0,
    ensures
        n > 0 ==> bifrag::cut_upto(runs, length, n).len() > 0 && bifrag::cut_upto(
            runs,
            length,
            n,
        )[0].0 == runs[0].0,
    decreases n,
{
    if n > 1 {
        first_of_a_cut(runs, length, n - 1);
    } else if n == 1 {
        assert(bifrag::held(runs, 0) == 0);
        assert(bifrag::cut_upto(runs, length, 0) == Seq::<(int, int)>::empty());
    }
}

proof fn holding_is_not_negative(runs: Seq<(int, int)>, n: int)
    requires
        0 <= n <= runs.len(),
        forall|i: int| 0 <= i < runs.len() ==> (#[trigger] runs[i]).1 >= 0,
    ensures
        bifrag::held(runs, n) >= 0,
    decreases n,
{
    if n > 0 {
        holding_is_not_negative(runs, n - 1);
    }
}

proof fn holding_of_a_push(a: Seq<(int, int)>, x: (int, int), n: int)
    requires
        0 <= n <= a.len(),
    ensures
        bifrag::held(a.push(x), n) == bifrag::held(a, n),
    decreases n,
{
    if n > 0 {
        holding_of_a_push(a, x, n - 1);
    }
}

proof fn cutting_keeps(runs: Seq<(int, int)>, length: int, n: int)
    requires
        0 <= n <= runs.len(),
        length >= 0,
        forall|i: int| 0 <= i < runs.len() ==> (#[trigger] runs[i]).1 >= 0,
        forall|i: int, j: int|
            0 <= i < j < runs.len() ==> (#[trigger] runs[i]).0 + runs[i].1 < (
            #[trigger] runs[j]).0,
    ensures
        ({
            let p = bifrag::cut_upto(runs, length, n);
            &&& bifrag::held(p, p.len() as int) == bifrag::least(length, bifrag::held(runs, n))
            &&& forall|i: int| 0 <= i < p.len() ==> (#[trigger] p[i]).1 > 0
            &&& forall|i: int, j: int|
                0 <= i < j < p.len() ==> (#[trigger] p[i]).0 + p[i].1 < (#[trigger] p[j]).0
            &&& forall|i: int, j: int|
                0 <= i < p.len() && n <= j < runs.len() ==> (#[trigger] p[i]).0 + p[i].1 < (
                #[trigger] runs[j]).0
        }),
    decreases n,
{
    if n > 0 {
        cutting_keeps(runs, length, n - 1);
        let before = bifrag::cut_upto(runs, length, n - 1);
        let left = length - bifrag::held(runs, n - 1);
        if left > 0 && runs[n - 1].1 > 0 {
            let x = (runs[n - 1].0, bifrag::least(left, runs[n - 1].1));
            holding_of_a_push(before, x, before.len() as int);
            assert(before.push(x).last() == x);
            let p = bifrag::cut_upto(runs, length, n);
            assert(p == before.push(x));
            assert forall|i: int, j: int| 0 <= i < p.len() && n <= j < runs.len() implies (
            #[trigger] p[i]).0 + p[i].1 < (#[trigger] runs[j]).0 by {
                assert(runs[n - 1].0 + runs[n - 1].1 < runs[j].0);
                if i < before.len() {
                    assert(p[i] == before[i]);
                }
            }
        } else {
            holding_is_not_negative(runs, n - 1);
        }
    }
}

// ---------------------------------------------------------------------------
// What the clusters spell
// ---------------------------------------------------------------------------

/// The bytes that the first `n` chosen clusters hold on the device.
pub open spec fn spelled(dev: Seq<u8>, chosen: Seq<int>, c: int, n: int) -> Seq<u8>
    decreases n,
{
    if n <= 0 {
        Seq::empty()
    } else {
        spelled(dev, chosen, c, n - 1) + scan::read_of(dev, chosen[n - 1], c)
    }
}

/// The bytes that the first `n` runs hold on the device.
pub open spec fn gathered(dev: Seq<u8>, pieces: Seq<(int, int)>, n: int) -> Seq<u8>
    decreases n,
{
    if n <= 0 {
        Seq::empty()
    } else {
        gathered(dev, pieces, n - 1) + scan::read_of(dev, pieces[n - 1].0, pieces[n - 1].1)
    }
}

proof fn spelling_of_a_prefix(dev: Seq<u8>, a: Seq<int>, b: Seq<int>, c: int, n: int)
    requires
        0 <= n <= a.len(),
        n <= b.len(),
        forall|i: int| 0 <= i < n ==> a[i] == b[i],
    ensures
        spelled(dev, a, c, n) == spelled(dev, b, c, n),
    decreases n,
{
    if n > 0 {
        spelling_of_a_prefix(dev, a, b, c, n - 1);
    }
}

proof fn gathering_of_a_prefix(
    dev: Seq<u8>,
    a: Seq<(int, int)>,
    b: Seq<(int, int)>,
    n: int,
)
    requires
        0 <= n <= a.len(),
        n <= b.len(),
        forall|i: int| 0 <= i < n ==> a[i] == b[i],
    ensures
        gathered(dev, a, n) == gathered(dev, b, n),
    decreases n,
{
    if n > 0 {
        gathering_of_a_prefix(dev, a, b, n - 1);
    }
}

/// Two reads, one straight on from the other, are one read.
proof fn reads_join(dev: Seq<u8>, at: int, n: int, m: int)
    requires
        0 <= at,
        0 <= n,
        0 <= m,
        at + n <= dev.len(),
    ensures
        scan::read_of(dev, at, n) + scan::read_of(dev, at + n, m) == scan::read_of(dev, at, n + m),
{
    assert(scan::read_of(dev, at, n) + scan::read_of(dev, at + n, m) =~= scan::read_of(
        dev,
        at,
        n + m,
    ));
}

/// The runs hold what the clusters hold.
proof fn runs_spell(dev: Seq<u8>, chosen: Seq<int>, c: int, n: int)
    requires
        0 <= n <= chosen.len(),
        c >= 0,
        bifrag::apart(chosen, c),
        forall|i: int| 0 <= i < chosen.len() ==> (#[trigger] chosen[i]) >= 0,
        forall|i: int| 1 <= i < chosen.len() ==> (#[trigger] chosen[i]) < dev.len(),
    ensures
        ({
            let runs = bifrag::runs_upto(chosen, c, n);
            &&& gathered(dev, runs, runs.len() as int) == spelled(dev, chosen, c, n)
            &&& forall|i: int| 0 <= i < runs.len() ==> (#[trigger] runs[i]).0 >= 0
        }),
    decreases n,
{
    if n > 0 {
        runs_spell(dev, chosen, c, n - 1);
        runs_lie_apart(chosen, c, n - 1);
        let before = bifrag::runs_upto(chosen, c, n - 1);
        let now = bifrag::runs_upto(chosen, c, n);
        let m = before.len() as int;
        if m > 0 && before.last().0 + before.last().1 == chosen[n - 1] {
            let (o, l) = before.last();
            assert(before[m - 1] == (o, l));
            gathering_of_a_prefix(dev, before, now, m - 1);
            assert(chosen[n - 1] < dev.len());
            reads_join(dev, o, l, c);
            assert(gathered(dev, before, m - 1) + (scan::read_of(dev, o, l) + scan::read_of(
                dev,
                o + l,
                c,
            )) =~= (gathered(dev, before, m - 1) + scan::read_of(dev, o, l)) + scan::read_of(
                dev,
                chosen[n - 1],
                c,
            ));
            assert(now[m - 1] == (o, l + c));
            assert(now.len() == m);
        } else {
            gathering_of_a_prefix(dev, before, now, m);
            assert(now[m] == (chosen[n - 1], c));
        }
    }
}

/// Runs cut off after `length` bytes hold the first `length` bytes.
proof fn cuts_spell(dev: Seq<u8>, runs: Seq<(int, int)>, length: int, n: int)
    requires
        0 <= n <= runs.len(),
        0 <= length,
        forall|i: int| 0 <= i < runs.len() ==> (#[trigger] runs[i]).1 >= 0 && runs[i].0 >= 0,
        forall|i: int|
            0 <= i < runs.len() - 1 ==> (#[trigger] runs[i]).0 + runs[i].1 <= dev.len(),
        n == runs.len() ==> length <= gathered(dev, runs, n).len(),
    ensures
        ({
            let p = bifrag::cut_upto(runs, length, n);
            &&& gathered(dev, p, p.len() as int) == gathered(dev, runs, n).subrange(
                0,
                bifrag::least(length, gathered(dev, runs, n).len() as int),
            )
            &&& n < runs.len() ==> gathered(dev, runs, n).len() == bifrag::held(runs, n)
        }),
    decreases n,
{
    if n > 0 {
        cuts_spell(dev, runs, length, n - 1);
        let before = bifrag::cut_upto(runs, length, n - 1);
        let left = length - bifrag::held(runs, n - 1);
        let (o, l) = runs[n - 1];
        let g = gathered(dev, runs, n - 1);
        assert(g.len() == bifrag::held(runs, n - 1));
        let all = gathered(dev, runs, n);
        let got = scan::read_of(dev, o, l);
        assert(all == g + got);
        if n < runs.len() {
            assert(got.len() == l);
        }
        if left <= 0 || l <= 0 {
            assert(l <= 0 ==> got.len() == 0);
            assert(g.subrange(0, bifrag::least(length, g.len() as int)) =~= all.subrange(
                0,
                bifrag::least(length, all.len() as int),
            ));
        } else {
            let x = (o, bifrag::least(left, l));
            let p = before.push(x);
            gathering_of_a_prefix(dev, before, p, before.len() as int);
            assert(p[before.len() as int] == x);
            assert(g.subrange(0, bifrag::least(length, g.len() as int)) =~= g);
            let part = scan::read_of(dev, o, x.1);
            assert(g + part =~= all.subrange(0, bifrag::least(length, all.len() as int)));
        }
    }
}

/// The runs of a file hold the first bytes that its clusters spell.
proof fn pieces_spell(dev: Seq<u8>, chosen: Seq<int>, c: int, length: int)
    requires
        c >= 0,
        0 <= length <= spelled(dev, chosen, c, chosen.len() as int).len(),
        bifrag::apart(chosen, c),
        forall|i: int| 0 <= i < chosen.len() ==> (#[trigger] chosen[i]) >= 0,
        forall|i: int| 1 <= i < chosen.len() ==> (#[trigger] chosen[i]) < dev.len(),
    ensures
        bifrag::kept_length(chosen, c, length) == length,
        ({
            let p = bifrag::pieces_of(chosen, c, length);
            gathered(dev, p, p.len() as int) == spelled(
                dev,
                chosen,
                c,
                chosen.len() as int,
            ).subrange(0, length)
        }),
{
    let n = chosen.len() as int;
    let runs = bifrag::runs_upto(chosen, c, n);
    runs_spell(dev, chosen, c, n);
    runs_lie_apart(chosen, c, n);
    runs_end_inside(dev, chosen, c, n);
    gathered_is_held(dev, runs, runs.len() as int);
    cuts_spell(dev, runs, length, runs.len() as int);
}

proof fn gathered_is_held(dev: Seq<u8>, runs: Seq<(int, int)>, n: int)
    requires
        0 <= n <= runs.len(),
        forall|i: int| 0 <= i < runs.len() ==> (#[trigger] runs[i]).1 >= 0 && runs[i].0 >= 0,
    ensures
        gathered(dev, runs, n).len() <= bifrag::held(runs, n),
    decreases n,
{
    if n > 0 {
        gathered_is_held(dev, runs, n - 1);
    }
}

proof fn runs_end_inside(dev: Seq<u8>, chosen: Seq<int>, c: int, n: int)
    requires
        0 <= n <= chosen.len(),
        c >= 0,
        bifrag::apart(chosen, c),
        forall|i: int| 1 <= i < chosen.len() ==> (#[trigger] chosen[i]) < dev.len(),
    ensures
        ({
            let runs = bifrag::runs_upto(chosen, c, n);
            forall|i: int|
                0 <= i < runs.len() - 1 ==> (#[trigger] runs[i]).0 + runs[i].1 <= dev.len()
        }),
    decreases n,
{
    if n > 0 {
        runs_end_inside(dev, chosen, c, n - 1);
        runs_lie_apart(chosen, c, n - 1);
        let before = bifrag::runs_upto(chosen, c, n - 1);
        let now = bifrag::runs_upto(chosen, c, n);
        if n > 1 {
            assert(chosen[n - 2] + c <= chosen[n - 1]);
            assert(chosen[n - 1] < dev.len());
            assert forall|i: int| 0 <= i < now.len() - 1 implies (#[trigger] now[i]).0 + now[i].1
                <= dev.len() by {
                assert(now[i] == before[i]);
                if i == before.len() - 1 {
                    assert(before[i] == before.last());
                }
            }
        }
    }
}

// ---------------------------------------------------------------------------
// The search
// ---------------------------------------------------------------------------

/// Whether a path's bytes are what its clusters hold on the device.
pub open spec fn true_to(dev: Seq<u8>, c: int, p: Trail) -> bool {
    &&& p.wf()
    &&& p.buf == spelled(dev, p.chosen, c, p.chosen.len() as int)
    &&& forall|i: int|
        0 <= i < p.chosen.len() ==> (#[trigger] p.ends[i]) == spelled(
            dev,
            p.chosen,
            c,
            i + 1,
        ).len()
}

/// Whether a path is laid out as it must be, and begins at the header.
pub open spec fn rooted(st: Setup, chosen: Seq<int>) -> bool {
    &&& search::sound_path(st, chosen)
    &&& chosen.len() > 0 ==> chosen[0] == st.header
}

/// Whether the runs of a report of any length are those of a file that begins
/// at `header`: in ascending order with something between each and the next,
/// none of them empty, the first at the header, and as long as reported.
pub open spec fn laid(r: Report, header: int) -> bool {
    let p = r.pieces;
    r.length > 0 ==> {
        &&& p.len() > 0
        &&& p[0].0 == header
        &&& bifrag::held(p, p.len() as int) == r.length
        &&& forall|i: int| 0 <= i < p.len() ==> (#[trigger] p[i]).1 > 0
        &&& forall|i: int, j: int|
            0 <= i < j < p.len() ==> (#[trigger] p[i]).0 + p[i].1 < (#[trigger] p[j]).0
    }
}

broadcast proof fn reports_are_laid(
    chosen: Seq<int>,
    c: int,
    length: int,
    status: Status,
    window: int,
    detail: Seq<char>,
    spent: (int, int, int, int),
)
    requires
        c >= 0,
        bifrag::apart(chosen, c),
    ensures
        laid(
            #[trigger] bifrag::reported(chosen, c, length, status, window, detail, spent),
            chosen[0],
        ),
{
    if length > 0 {
        pieces_add_up(chosen, c, length);
    }
}

/// Whether a search of `dev` is one that only true reads have been fed to,
/// whatever it waits for.
pub open spec fn on_track(st: Setup, dev: Seq<u8>, s: State) -> bool {
    &&& st.dev_end == dev.len()
    &&& st.header >= 0
    &&& true_to(dev, st.opts.cluster as int, s.path)
    &&& rooted(st, s.path.chosen)
    &&& s.best matches Some(b) ==> rooted(st, b.chosen)
    &&& forall|i: int| 0 <= i < s.stack.len() ==> (#[trigger] s.stack[i]).base >= 1
    &&& forall|i: int| 0 <= i < s.stack.len() ==> (#[trigger] s.stack[i]).next_k >= 0
}

/// Whether what a search waits for goes with its path.
pub open spec fn waits_well(st: Setup, s: State) -> bool {
    match s.stage {
        Stage::Head => s.path == Trail::new() && s.stack.len() == 0,
        Stage::Run { at } => s.path.chosen.len() > 0 && at == s.path.chosen.last()
            + st.opts.cluster && at < st.dev_end,
        Stage::One { at, k } => s.path.chosen.len() > 0 && at >= s.path.chosen.last()
            + st.opts.cluster && at < st.dev_end,
        Stage::Look { at, one } => s.path.chosen.len() > 0 && at >= s.path.chosen.last()
            + st.opts.cluster && at < st.dev_end,
        Stage::Done { report } => true,
    }
}

/// Whether the bytes of a report's runs are the first bytes of something that
/// the validator found complete at exactly the reported length.
pub open spec fn vouched(st: Setup, dev: Seq<u8>, r: Report) -> bool {
    exists|trial: Seq<u8>|
        {
            &&& #[trigger] validate::verdict_of(st.validator, trial) is Some
            &&& search::said(st, trial).status == Status::Valid
            &&& search::said(st, trial).length == r.length
            &&& 0 <= r.length <= trial.len()
            &&& gathered(dev, r.pieces, r.pieces.len() as int) == trial.subrange(0, r.length)
        }
}

/// What holds of a search of `dev` from its first state on: its path is true,
/// what it reports begins at the header, and where it reports a complete file,
/// that file is vouched for.
pub open spec fn honest(st: Setup, dev: Seq<u8>, s: State) -> bool {
    &&& on_track(st, dev, s)
    &&& waits_well(st, s)
    &&& s.stage matches Stage::Done { report } ==> laid(report, st.header) && (report.status
        == Status::Valid ==> vouched(st, dev, report))
}

proof fn completing_is_honest(st: Setup, dev: Seq<u8>, s: State, trial: Seq<u8>)
    requires
        on_track(st, dev, s),
        validate::known(st.validator),
        search::completes(search::said(st, trial), trial.len() as int),
        search::said(st, trial).length <= s.path.buf.len(),
        s.path.buf.len() <= trial.len(),
        s.path.buf == trial.subrange(0, s.path.buf.len() as int),
    ensures
        honest(st, dev, search::complete(st, s, search::said(st, trial).length)),
{
    broadcast use reports_are_laid;

    let length = search::said(st, trial).length;
    validate::every_listed_id_is_dispatched(st.validator, trial);
    validate::every_validator_is_sound(st.validator, trial);
    pieces_spell(dev, s.path.chosen, st.opts.cluster as int, length);
    assert(s.path.buf.subrange(0, length) =~= trial.subrange(0, length));
    assert(validate::verdict_of(st.validator, trial) is Some);
    let done = search::complete(st, s, length);
    assert(on_track(st, dev, done));
}

proof fn going_back_is_true(dev: Seq<u8>, c: int, p: Trail, n: int)
    requires
        true_to(dev, c, p),
        0 <= n,
    ensures
        true_to(dev, c, p.back_to(n)),
{
    if n < p.chosen.len() {
        let q = p.back_to(n);
        spelling_of_a_prefix(dev, p.chosen, q.chosen, c, n);
        spelling_is_a_prefix(dev, p.chosen, c, n, p.chosen.len() as int);
        if n > 0 {
            assert(p.ends[n - 1] == spelled(dev, p.chosen, c, n).len());
            assert(q.ends.last() == p.ends[n - 1]);
        }
        assert(q.buf =~= spelled(dev, q.chosen, c, n));
        assert forall|i: int| 0 <= i < n implies (#[trigger] q.ends[i]) == spelled(
            dev,
            q.chosen,
            c,
            i + 1,
        ).len() by {
            assert(q.ends[i] == p.ends[i]);
            spelling_of_a_prefix(dev, p.chosen, q.chosen, c, i + 1);
        }
        assert forall|i: int| 0 <= i < n implies 0 <= (#[trigger] q.ends[i]) <= q.buf.len() by {
            assert(q.ends[i] == p.ends[i]);
            if i < n - 1 {
                assert(p.ends[i] <= p.ends[n - 1]);
            }
        }
        assert forall|i: int, j: int| 0 <= i < j < n implies (#[trigger] q.ends[i]) <= (
        #[trigger] q.ends[j]) by {
            assert(p.ends[i] <= p.ends[j]);
        }
        assert forall|i: int| 0 <= i < n implies (#[trigger] q.stale[i]) >= 0 by {
            assert(q.stale[i] == p.stale[i]);
        }
        assert forall|i: int| 0 <= i < n implies (#[trigger] q.verified[i]) >= 0 by {
            assert(q.verified[i] == p.verified[i]);
        }
        assert forall|i: int| 0 <= i < n implies (#[trigger] q.chosen[i]) >= 0 by {
            assert(q.chosen[i] == p.chosen[i]);
        }
    }
}

proof fn spelling_is_a_prefix(dev: Seq<u8>, chosen: Seq<int>, c: int, n: int, m: int)
    requires
        0 <= n <= m,
    ensures
        spelled(dev, chosen, c, n).len() <= spelled(dev, chosen, c, m).len(),
        spelled(dev, chosen, c, n) == spelled(dev, chosen, c, m).subrange(
            0,
            spelled(dev, chosen, c, n).len() as int,
        ),
    decreases m - n,
{
    let a = spelled(dev, chosen, c, n);
    if n < m {
        spelling_is_a_prefix(dev, chosen, c, n, m - 1);
        let b = spelled(dev, chosen, c, m - 1);
        let e = spelled(dev, chosen, c, m);
        assert(e.subrange(0, a.len() as int) =~= b.subrange(0, a.len() as int));
    } else {
        assert(a =~= a.subrange(0, a.len() as int));
    }
}

proof fn going_on_is_true(
    st: Setup,
    dev: Seq<u8>,
    p: Trail,
    at: int,
    data: Seq<u8>,
    verified: int,
    high: bool,
)
    requires
        true_to(dev, st.opts.cluster as int, p),
        rooted(st, p.chosen),
        at >= 0,
        data == scan::read_of(dev, at, st.opts.cluster as int),
        p.chosen.len() > 0 ==> at >= p.chosen.last() + st.opts.cluster && at < st.dev_end,
        p.chosen.len() == 0 ==> at == st.header,
    ensures
        true_to(dev, st.opts.cluster as int, p.push(at, data, verified, high)),
        rooted(st, p.push(at, data, verified, high).chosen),
{
    let c = st.opts.cluster as int;
    let q = p.push(at, data, verified, high);
    let n = p.chosen.len() as int;
    spelling_of_a_prefix(dev, p.chosen, q.chosen, c, n);
    assert(q.chosen[n] == at);
    assert forall|i: int| 0 <= i < q.chosen.len() implies (#[trigger] q.ends[i]) == spelled(
        dev,
        q.chosen,
        c,
        i + 1,
    ).len() by {
        if i < n {
            assert(q.ends[i] == p.ends[i]);
            spelling_of_a_prefix(dev, p.chosen, q.chosen, c, i + 1);
        }
    }
    assert forall|i: int, j: int| 0 <= i < j < q.chosen.len() implies (#[trigger] q.chosen[i]) + c
        <= (#[trigger] q.chosen[j]) by {
        if j == n && i < n - 1 {
            assert(p.chosen[i] + c <= p.chosen[n - 1]);
        }
    }
}

proof fn seeking_is_honest(st: Setup, dev: Seq<u8>, s: State)
    requires
        on_track(st, dev, s),
        s.path.chosen.len() > 0,
    ensures
        honest(st, dev, search::seek(st, s)),
    decreases s.stack.len(), search::last_choices(s),
{
    broadcast use reports_are_laid;

    if s.stack.len() > 0 {
        let top = s.stack.last();
        let path = s.path.back_to(top.base);
        assert(top == s.stack[s.stack.len() - 1]);
        going_back_is_true(dev, st.opts.cluster as int, s.path, top.base);
        going_back_is_sound(st, s.path, top.base);
        let c = st.opts.cluster as int;
        let at = path.chosen.last() + st.opts.cluster * (top.next_k + 1);
        if top.next_k > top.window {
            seeking_is_honest(
                st,
                dev,
                State {
                    path,
                    stack: s.stack.drop_last(),
                    backtracks: bytes::capped(s.backtracks + 1),
                    ..s
                },
            );
        } else if at >= st.dev_end {
            seeking_is_honest(
                st,
                dev,
                State {
                    path,
                    stack: s.stack.drop_last().push(Branch { next_k: top.window + 1, ..top }),
                    ..s
                },
            );
        } else {
            assert(c * (top.next_k + 1) >= c) by (nonlinear_arith)
                requires
                    c >= 0,
                    top.next_k >= 0,
            ;
        }
    } else {
        exhausting_is_honest(st, dev, s);
    }
}

proof fn going_back_is_sound(st: Setup, p: Trail, n: int)
    requires
        rooted(st, p.chosen),
        n >= 1,
        p.chosen.len() > 0,
    ensures
        rooted(st, p.back_to(n).chosen),
        p.back_to(n).chosen.len() > 0,
{
    let q = p.back_to(n).chosen;
    if n < p.chosen.len() {
        assert forall|i: int, j: int| 0 <= i < j < q.len() implies (#[trigger] q[i])
            + st.opts.cluster <= (#[trigger] q[j]) by {
            assert(q[i] == p.chosen[i] && q[j] == p.chosen[j]);
        }
        assert forall|i: int| 1 <= i < q.len() implies (#[trigger] q[i]) < st.dev_end by {
            assert(q[i] == p.chosen[i]);
        }
    }
}

proof fn exhausting_is_honest(st: Setup, dev: Seq<u8>, s: State)
    requires
        on_track(st, dev, s),
    ensures
        honest(st, dev, search::exhausted(st, s)),
{
    broadcast use reports_are_laid;

    let t = search::exhausted(st, s);
    if s.depth + 1 < bifrag::windows_of(st.opts.max_gap_clusters as int).len() {
        assert(true_to(dev, st.opts.cluster as int, Trail::new()));
    }
}

proof fn extending_is_honest(st: Setup, dev: Seq<u8>, s: State)
    requires
        on_track(st, dev, s),
        s.path.chosen.len() > 0,
    ensures
        honest(st, dev, search::extended(st, s)),
{
    broadcast use reports_are_laid;

    if s.path.chosen.len() < st.opts.max_clusters {
        if search::last_or(s.path.stale, 0) < st.opts.max_unverified_clusters {
            seeking_is_honest(
                st,
                dev,
                State {
                    stack: s.stack.push(
                        Branch {
                            base: s.path.chosen.len() as int,
                            next_k: 0,
                            window: st.window(s.depth),
                        },
                    ),
                    ..s
                },
            );
        } else if s.stack.len() > 0 {
            seeking_is_honest(st, dev, s);
        }
    }
}

proof fn galloping_is_honest(st: Setup, dev: Seq<u8>, s: State)
    requires
        on_track(st, dev, s),
        s.path.chosen.len() > 0,
    ensures
        honest(st, dev, search::galloped(st, s)),
{
    broadcast use reports_are_laid;

    if s.path.chosen.last() + st.opts.cluster >= st.dev_end {
        extending_is_honest(st, dev, s);
    }
}

proof fn revisiting_keeps_bases(stack: Seq<Branch>, from: int, to: int, window: int)
    requires
        from >= 1,
        forall|i: int| 0 <= i < stack.len() ==> (#[trigger] stack[i]).base >= 1,
        forall|i: int| 0 <= i < stack.len() ==> (#[trigger] stack[i]).next_k >= 0,
    ensures
        forall|i: int|
            0 <= i < search::revisited(stack, from, to, window).len() ==> (
            #[trigger] search::revisited(stack, from, to, window)[i]).base >= 1,
        forall|i: int|
            0 <= i < search::revisited(stack, from, to, window).len() ==> (
            #[trigger] search::revisited(stack, from, to, window)[i]).next_k >= 0,
    decreases to - from,
{
    let all = search::revisited(stack, from, to, window);
    if from < to {
        let more = stack.push(Branch { base: from, next_k: 1, window });
        revisiting_keeps_bases(more, from + 1, to, window);
        assert(all == search::revisited(more, from + 1, to, window));
    } else {
        assert(all == stack);
    }
}

proof fn accepting_is_honest(st: Setup, dev: Seq<u8>, s: State, before: int)
    requires
        on_track(st, dev, s),
        s.path.chosen.len() > 0,
        before >= 0,
    ensures
        honest(st, dev, search::accepted(st, s, before)),
{
    broadcast use reports_are_laid;

    let window = bifrag::least(st.window(s.depth), st.opts.continuation_window as int);
    let n = s.path.chosen.len() as int;
    revisiting_keeps_bases(s.stack, before + 1, n, window);
    galloping_is_honest(
        st,
        dev,
        State { stack: search::revisited(s.stack, before + 1, n, window), ..s },
    );
}

proof fn remembering_keeps_track(st: Setup, dev: Seq<u8>, s: State, v: validate::Verdict)
    requires
        on_track(st, dev, s),
    ensures
        on_track(st, dev, search::remembered(s, v)),
        search::remembered(s, v).path == s.path,
{
}

/// A cluster of a run is what a read of that cluster gives.
proof fn a_cluster_of_a_run(
    st: Setup,
    dev: Seq<u8>,
    at: int,
    clusters: int,
    run: Seq<u8>,
    off: int,
    taken: int,
)
    requires
        st.dev_end == dev.len(),
        0 <= at < st.dev_end,
        st.opts.cluster > 0,
        clusters >= 0,
        run == scan::read_of(dev, at, st.room(at, clusters)),
        off == taken * st.opts.cluster,
        taken >= 0,
        0 <= off < run.len(),
    ensures
        ({
            let c = st.opts.cluster as int;
            let end = bifrag::least(off + c, run.len() as int);
            &&& run.subrange(off, end) == scan::read_of(dev, at + off, c)
            &&& at + off < st.dev_end
            &&& end < run.len() ==> end == (taken + 1) * c
        }),
{
    let c = st.opts.cluster as int;
    let end = bifrag::least(off + c, run.len() as int);
    let all = c * clusters;
    assert(all >= 0) by (nonlinear_arith)
        requires
            c > 0,
            clusters >= 0,
            all == c * clusters,
    ;
    assert((taken + 1) * c == taken * c + c) by (nonlinear_arith);
    if run.len() == all {
        // The run is of whole clusters, so one more fits.
        assert(taken < clusters) by (nonlinear_arith)
            requires
                taken * c < c * clusters,
                c > 0,
        ;
        assert((taken + 1) * c <= c * clusters) by (nonlinear_arith)
            requires
                taken + 1 <= clusters,
                c > 0,
        ;
    }
    assert(run.subrange(off, end) =~= scan::read_of(dev, at + off, c));
}

proof fn taking_a_run_is_true(
    st: Setup,
    dev: Seq<u8>,
    s: State,
    at: int,
    clusters: int,
    run: Seq<u8>,
    t: Seq<Texture>,
    had: Seq<u8>,
    valid: bool,
    length: int,
    off: int,
    taken: int,
)
    requires
        on_track(st, dev, s),
        s.path.chosen.len() > 0,
        0 <= at < st.dev_end,
        clusters >= 0,
        run == scan::read_of(dev, at, st.room(at, clusters)),
        taken >= 0,
        0 <= off <= run.len(),
        off < run.len() ==> off == taken * st.opts.cluster,
        off < run.len() ==> s.path.chosen.last() + st.opts.cluster == at + off,
        s.path.buf == had + run.subrange(0, off),
    ensures
        ({
            let (s2, n) = search::run_taken(
                st,
                s,
                at,
                run,
                t,
                had.len() as int,
                valid,
                length,
                off,
                taken,
            );
            let trial = had + run;
            &&& on_track(st, dev, s2)
            &&& s2.path.chosen.len() > 0
            &&& s2.path.buf.len() <= trial.len()
            &&& s2.path.buf == trial.subrange(0, s2.path.buf.len() as int)
        }),
    decreases run.len() - off,
{
    let c = st.opts.cluster as int;
    let end = bifrag::least(off + c, run.len() as int);
    let trial = had + run;
    assert(had + run.subrange(0, off) =~= trial.subrange(0, had.len() + off));
    if off < run.len() && c > 0 && search::covered(valid, had.len() as int, off, end, length) && !(
    s.path.all_high() && search::texture(t, taken).uniform) {
        a_cluster_of_a_run(st, dev, at, clusters, run, off, taken);
        let high = search::texture(t, taken).high;
        going_on_is_true(st, dev, s.path, at + off, run.subrange(off, end), length, high);
        let path = s.path.push(at + off, run.subrange(off, end), length, high);
        assert(path.buf =~= had + run.subrange(0, end));
        let s1 = State {
            stack: s.stack.push(
                Branch {
                    base: s.path.chosen.len() as int,
                    next_k: 1,
                    window: st.opts.continuation_window as int,
                },
            ),
            path,
            ..s
        };
        taking_a_run_is_true(
            st,
            dev,
            s1,
            at,
            clusters,
            run,
            t,
            had,
            valid,
            length,
            end,
            taken + 1,
        );
    }
}

proof fn taking_a_look_is_true(
    st: Setup,
    dev: Seq<u8>,
    p: Trail,
    at: int,
    clusters: int,
    run: Seq<u8>,
    t: Seq<Texture>,
    had: Seq<u8>,
    valid: bool,
    length: int,
    off: int,
    taken: int,
)
    requires
        st.dev_end == dev.len(),
        true_to(dev, st.opts.cluster as int, p),
        rooted(st, p.chosen),
        p.chosen.len() > 0,
        0 <= at < st.dev_end,
        clusters >= 0,
        run == scan::read_of(dev, at, st.room(at, clusters)),
        taken >= 0,
        0 <= off <= run.len(),
        off < run.len() ==> off == taken * st.opts.cluster,
        off < run.len() ==> p.chosen.last() + st.opts.cluster <= at + off,
        p.buf == had + run.subrange(0, off),
    ensures
        ({
            let q = search::look_taken(
                st,
                p,
                at,
                run,
                t,
                had.len() as int,
                valid,
                length,
                off,
                taken,
            );
            let trial = had + run;
            &&& true_to(dev, st.opts.cluster as int, q)
            &&& rooted(st, q.chosen)
            &&& q.chosen.len() > 0
            &&& q.buf.len() <= trial.len()
            &&& q.buf == trial.subrange(0, q.buf.len() as int)
        }),
    decreases run.len() - off,
{
    let c = st.opts.cluster as int;
    let end = bifrag::least(off + c, run.len() as int);
    let trial = had + run;
    assert(had + run.subrange(0, off) =~= trial.subrange(0, had.len() + off));
    if off < run.len() && c > 0 && search::covered(valid, had.len() as int, off, end, length) {
        a_cluster_of_a_run(st, dev, at, clusters, run, off, taken);
        let high = search::texture(t, taken).high;
        going_on_is_true(st, dev, p, at + off, run.subrange(off, end), length, high);
        let path = p.push(at + off, run.subrange(off, end), length, high);
        assert(path.buf =~= had + run.subrange(0, end));
        taking_a_look_is_true(
            st,
            dev,
            path,
            at,
            clusters,
            run,
            t,
            had,
            valid,
            length,
            end,
            taken + 1,
        );
    }
}

/// A search begins honestly.
pub proof fn a_search_begins_honestly(st: Setup, dev: Seq<u8>)
    requires
        st.dev_end == dev.len(),
        st.header >= 0,
    ensures
        honest(st, dev, search::begun()),
{
}

/// A search that is fed what the device holds stays honest. So a file that is
/// reported as complete is spelled by its runs on the device, byte for byte as
/// the validator was shown it, and the validator found it complete at exactly
/// the length reported; and what is reported of any length begins at the header.
pub proof fn a_search_stays_honest(
    st: Setup,
    dev: Seq<u8>,
    s: State,
    data: Seq<u8>,
    t: Seq<Texture>,
)
    requires
        validate::known(st.validator),
        honest(st, dev, s),
        st.wants(s.stage) matches Some((at, n)) ==> data == scan::read_of(dev, at, n),
    ensures
        honest(st, dev, search::fed(st, s, data, t)),
{
    let c = st.opts.cluster as int;
    assert(c * 1 == c) by (nonlinear_arith);
    match s.stage {
        Stage::Head => {
            head_is_honest(st, dev, s, data, t);
        },
        Stage::Run { at } => {
            run_is_honest(st, dev, s, at, data, t);
        },
        Stage::One { at, k } => {
            assert(at >= 0) by {
                assert(s.path.chosen[s.path.chosen.len() - 1] >= 0);
            }
            assert(data =~= scan::read_of(dev, at, c));
            one_is_honest(st, dev, s, at, k, data, t);
        },
        Stage::Look { at, one } => {
            look_is_honest(st, dev, s, at, one, data, t);
        },
        Stage::Done { report } => {},
    }
}

proof fn head_is_honest(st: Setup, dev: Seq<u8>, s: State, data: Seq<u8>, t: Seq<Texture>)
    requires
        validate::known(st.validator),
        honest(st, dev, s),
        s.stage is Head,
        data == scan::read_of(dev, st.header, st.room(st.header, 1)),
    ensures
        honest(st, dev, search::head_read(st, s, data, t)),
{
    broadcast use reports_are_laid;

    let c = st.opts.cluster as int;
    assert(c * 1 == c) by (nonlinear_arith);
    if !search::spent_up(st, s) {
        let s1 = search::charged(s, data);
        let v = search::said(st, data);
        let high = search::texture(t, 0).high;
        let path = s.path.push(st.header, data, v.length, high);
        assert(data =~= scan::read_of(dev, st.header, c));
        going_on_is_true(st, dev, s.path, st.header, data, v.length, high);
        assert(path.buf =~= data);
        let s2 = State { path, ..s1 };
        if search::completes(v, data.len() as int) {
            assert(data =~= data.subrange(0, data.len() as int));
            completing_is_honest(st, dev, s2, data);
        } else if v.ran_out {
            remembering_keeps_track(st, dev, s2, v);
            galloping_is_honest(st, dev, search::remembered(s2, v));
        }
    }
}

proof fn run_is_honest(
    st: Setup,
    dev: Seq<u8>,
    s: State,
    at: int,
    run: Seq<u8>,
    t: Seq<Texture>,
)
    requires
        validate::known(st.validator),
        honest(st, dev, s),
        s.stage == (Stage::Run { at }),
        run == scan::read_of(dev, at, st.room(at, st.opts.run_clusters as int)),
    ensures
        honest(st, dev, search::run_read(st, s, at, run, t)),
{
    broadcast use reports_are_laid;

    if !search::spent_up(st, s) {
        let had = s.path.buf;
        let trial = had + run;
        let s1 = search::charged(s, trial);
        let v = search::said(st, trial);
        let valid = search::completes(v, trial.len() as int);
        if !valid && !v.ran_out {
            extending_is_honest(st, dev, s1);
        } else {
            assert(s.path.chosen[s.path.chosen.len() - 1] >= 0);
            assert(had + run.subrange(0, 0) =~= had);
            taking_a_run_is_true(
                st,
                dev,
                s1,
                at,
                st.opts.run_clusters as int,
                run,
                t,
                had,
                valid,
                v.length,
                0,
                0,
            );
            let (s2, taken) = search::run_taken(
                st,
                s1,
                at,
                run,
                t,
                had.len() as int,
                valid,
                v.length,
                0,
                0,
            );
            if valid {
                if s2.path.buf.len() >= v.length {
                    completing_is_honest(st, dev, s2, trial);
                } else {
                    extending_is_honest(st, dev, s2);
                }
            } else {
                remembering_keeps_track(st, dev, s2, v);
                let s3 = if taken > 0 {
                    search::remembered(s2, v)
                } else {
                    s2
                };
                if taken < st.opts.run_clusters {
                    extending_is_honest(st, dev, s3);
                } else {
                    galloping_is_honest(st, dev, s3);
                }
            }
        }
    }
}

proof fn one_is_honest(
    st: Setup,
    dev: Seq<u8>,
    s: State,
    at: int,
    k: int,
    one: Seq<u8>,
    t: Seq<Texture>,
)
    requires
        validate::known(st.validator),
        honest(st, dev, s),
        s.stage == (Stage::One { at, k }),
        at >= 0,
        one == scan::read_of(dev, at, st.opts.cluster as int),
    ensures
        honest(st, dev, search::one_read(st, s, at, k, one, t)),
{
    broadcast use reports_are_laid;

    if s.path.all_high() && search::texture(t, 0).uniform {
        seeking_is_honest(
            st,
            dev,
            State { prefiltered: bytes::capped(s.prefiltered + 1), ..s },
        );
    } else if !search::spent_up(st, s) {
        let trial = s.path.buf + one;
        let s1 = search::charged(s, trial);
        let v = search::said(st, trial);
        let high = search::texture(t, 0).high;
        going_on_is_true(st, dev, s.path, at, one, v.length, high);
        let path = s.path.push(at, one, v.length, high);
        let s2 = State { path, ..s1 };
        if search::completes(v, trial.len() as int) {
            assert(trial =~= trial.subrange(0, trial.len() as int));
            completing_is_honest(st, dev, s2, trial);
        } else if !v.ran_out {
            seeking_is_honest(st, dev, s1);
        } else if v.length > s.path.buf.len() || k == 0 {
            remembering_keeps_track(st, dev, s2, v);
            accepting_is_honest(
                st,
                dev,
                search::remembered(s2, v),
                s.path.chosen.len() as int,
            );
        }
    }
}

proof fn look_is_honest(
    st: Setup,
    dev: Seq<u8>,
    s: State,
    at: int,
    one: int,
    run: Seq<u8>,
    t: Seq<Texture>,
)
    requires
        validate::known(st.validator),
        honest(st, dev, s),
        s.stage == (Stage::Look { at, one }),
        run == scan::read_of(dev, at, st.room(at, st.opts.lookahead_clusters as int)),
    ensures
        honest(st, dev, search::look_read(st, s, at, one, run, t)),
{
    broadcast use reports_are_laid;

    if run.len() <= one {
        seeking_is_honest(st, dev, s);
    } else if !search::spent_up(st, s) {
        let had = s.path.buf;
        let trial = had + run;
        let s1 = search::charged(s, trial);
        let v = search::said(st, trial);
        let valid = search::completes(v, trial.len() as int);
        assert(s.path.chosen[s.path.chosen.len() - 1] >= 0);
        assert(had + run.subrange(0, 0) =~= had);
        taking_a_look_is_true(
            st,
            dev,
            s.path,
            at,
            st.opts.lookahead_clusters as int,
            run,
            t,
            had,
            valid,
            v.length,
            0,
            0,
        );
        let path = search::look_taken(
            st,
            s.path,
            at,
            run,
            t,
            had.len() as int,
            valid,
            v.length,
            0,
            0,
        );
        let s2 = State { path, ..s1 };
        if !valid && v.length <= had.len() {
            seeking_is_honest(st, dev, s1);
        } else if valid {
            if path.buf.len() >= v.length {
                completing_is_honest(st, dev, s2, trial);
            } else {
                seeking_is_honest(st, dev, s2);
            }
        } else {
            remembering_keeps_track(st, dev, s2, v);
            accepting_is_honest(
                st,
                dev,
                search::remembered(s2, v),
                s.path.chosen.len() as int,
            );
        }
    }
}

} // verus!
