//! What a search does with what it looks ahead to, where it turns back, and what
//! it remembers.

use vstd::prelude::*;
use crate::bifrag;
use crate::bytes;
use crate::validate::Status;
use super::finding::{
    deciding,
    found,
    goes_on,
    is_whole,
    is_wrong,
    may_go_on,
    no_filler,
    reported_whole,
    roomy,
};
use super::search;
use super::search::{Branch, Setup, Stage, State, Texture, Trail};

verus! {

/// The clusters of a lookahead that a verdict covers.
proof fn along_a_lookahead(
    st: Setup,
    path: Trail,
    at: int,
    run: Seq<u8>,
    t: Seq<Texture>,
    had: int,
    valid: bool,
    length: int,
    off: int,
    taken: int,
)
    requires
        st.opts.cluster > 0,
        0 <= off <= run.len(),
        path.buf.len() == had + off,
        roomy(st, path),
        valid ==> had + off <= length + st.opts.cluster,
    ensures
        ({
            let p = search::look_taken(st, path, at, run, t, had, valid, length, off, taken);
            &&& roomy(st, p)
            &&& p.chosen.len() >= path.chosen.len()
            &&& p.chosen.len() > path.chosen.len() ==> p.chosen.last() < at + run.len()
            &&& p.buf.len() <= had + run.len()
            &&& valid ==> p.buf.len() >= bifrag::least(length, had + run.len())
            &&& !valid ==> p.buf.len() <= bytes::larger(length, had + off)
            &&& !valid && p.buf.len() < had + run.len() ==> bifrag::least(
                p.buf.len() + st.opts.cluster,
                had + run.len(),
            ) > length
            &&& p.buf.subrange(0, had + off) == path.buf
            &&& p.buf.subrange(had + off, p.buf.len() as int) == run.subrange(
                off,
                p.buf.len() - had,
            )
            &&& off < run.len() && search::covered(
                valid,
                had,
                off,
                bifrag::least(off + st.opts.cluster, run.len() as int),
                length,
            ) ==> p.chosen.len() > path.chosen.len()
        }),
    decreases run.len() - off,
{
    let c = st.opts.cluster as int;
    let end = bifrag::least(off + c, run.len() as int);
    let p = search::look_taken(st, path, at, run, t, had, valid, length, off, taken);
    if off < run.len() && search::covered(valid, had, off, end, length) {
        let more = run.subrange(off, end);
        let next = path.push(at + off, more, length, search::texture(t, taken).high);
        let n = path.chosen.len() as int;
        assert(c * (n + 1) == c * n + c) by (nonlinear_arith);
        along_a_lookahead(st, next, at, run, t, had, valid, length, end, taken + 1);
        assert(p.buf.subrange(0, had + off) =~= path.buf) by {
            assert(p.buf.subrange(0, had + end) == next.buf);
            assert(p.buf.subrange(0, had + off) =~= p.buf.subrange(0, had + end).subrange(
                0,
                had + off,
            ));
        }
        assert(p.buf.subrange(had + off, p.buf.len() as int) =~= run.subrange(
            off,
            p.buf.len() - had,
        )) by {
            let m = p.buf.len() as int;
            assert forall|i: int| 0 <= i < m - had - off implies p.buf.subrange(had + off, m)[i]
                == #[trigger] run.subrange(off, m - had)[i] by {
                if off + i < end {
                    assert(p.buf.subrange(0, had + end)[had + off + i] == next.buf[had + off + i]);
                    assert(next.buf[had + off + i] == more[i]);
                } else {
                    assert(p.buf.subrange(had + end, m)[off + i - end] == run.subrange(
                        end,
                        m - had,
                    )[off + i - end]);
                }
            }
        }
    } else {
        assert(p.buf.subrange(0, had + off) =~= path.buf);
        assert(p.buf.subrange(had + off, p.buf.len() as int) =~= run.subrange(
            off,
            p.buf.len() - had,
        ));
    }
}

/// Where a candidate and what follows it complete the file, the file is found.
pub proof fn a_lookahead_that_completes_is_found(
    st: Setup,
    s: State,
    at: int,
    one: int,
    run: Seq<u8>,
    t: Seq<Texture>,
)
    requires
        s.stage == (Stage::Look { at, one }),
        may_go_on(st, s),
        run.len() > one,
        st.opts.cluster > 0,
        roomy(st, s.path),
        is_whole(search::said(st, s.path.buf + run), (s.path.buf + run).len() as int),
        search::said(st, s.path.buf + run).length >= s.path.buf.len(),
    ensures
        found(search::fed(st, s, run, t), search::said(st, s.path.buf + run).length),
{
    let trial = s.path.buf + run;
    let had = s.path.buf.len() as int;
    let v = search::said(st, trial);
    along_a_lookahead(st, s.path, at, run, t, had, true, v.length, 0, 0);
    let path = search::look_taken(st, s.path, at, run, t, had, true, v.length, 0, 0);
    reported_whole(st, State { path, ..search::charged(s, trial) }, v.length);
}

/// A candidate that the validator, together with what follows it, vouches for
/// past the path is taken, with as many whole clusters behind it as are vouched
/// for, and the search runs straight on from the last of them.
pub proof fn a_lookahead_that_goes_further_is_taken(
    st: Setup,
    s: State,
    at: int,
    one: int,
    run: Seq<u8>,
    t: Seq<Texture>,
)
    requires
        s.stage == (Stage::Look { at, one }),
        may_go_on(st, s),
        run.len() > one,
        st.opts.cluster > 0,
        roomy(st, s.path),
        search::said(st, s.path.buf + run).status != Status::Valid,
        search::said(st, s.path.buf + run).length >= s.path.buf.len() + bifrag::least(
            st.opts.cluster as int,
            run.len() as int,
        ),
        run.len() > 0,
        at + run.len() + st.opts.cluster <= st.dev_end,
    ensures
        ({
            let had = s.path.buf.len() as int;
            let v = search::said(st, s.path.buf + run);
            let s1 = search::fed(st, s, run, t);
            &&& s1.stage == (Stage::Run { at: s1.path.chosen.last() + st.opts.cluster })
            &&& s1.path.chosen.len() > s.path.chosen.len()
            &&& s1.path.buf.len() <= v.length
            &&& s1.path.buf == (s.path.buf + run).subrange(0, s1.path.buf.len() as int)
            &&& s1.path.buf.len() < had + run.len() ==> bifrag::least(
                s1.path.buf.len() + st.opts.cluster,
                had + run.len(),
            ) > v.length
        }),
{
    let trial = s.path.buf + run;
    let had = s.path.buf.len() as int;
    let v = search::said(st, trial);
    along_a_lookahead(st, s.path, at, run, t, had, false, v.length, 0, 0);
    let path = search::look_taken(st, s.path, at, run, t, had, false, v.length, 0, 0);
    let m = path.buf.len() as int;
    assert(path.buf =~= trial.subrange(0, m)) by {
        assert forall|i: int| 0 <= i < m implies path.buf[i] == #[trigger] trial.subrange(
            0,
            m,
        )[i] by {
            if i < had {
                assert(path.buf.subrange(0, had)[i] == s.path.buf[i]);
            } else {
                assert(path.buf.subrange(had, m)[i - had] == run.subrange(0, m - had)[i - had]);
            }
        }
    }
}

/// A candidate that the validator, even together with what follows it, vouches
/// for no further than the path gives way to the next.
pub proof fn a_lookahead_that_says_nothing_gives_way(
    st: Setup,
    s: State,
    k: int,
    window: int,
    one: int,
    run: Seq<u8>,
    t: Seq<Texture>,
)
    requires
        s.path.chosen.len() > 0,
        s.stage == (Stage::Look {
            at: s.path.chosen.last() + st.opts.cluster * (k + 1),
            one,
        }),
        s.stack.len() > 0,
        s.stack.last() == (Branch { base: s.path.chosen.len() as int, next_k: k + 1, window }),
        run.len() <= one || may_go_on(st, s) && search::said(st, s.path.buf + run).status
            != Status::Valid && search::said(st, s.path.buf + run).length
            <= s.path.buf.len(),
        k + 1 <= window,
        s.path.chosen.last() + st.opts.cluster * (k + 2) < st.dev_end,
    ensures
        ({
            let s1 = search::fed(st, s, run, t);
            &&& deciding(st, s1, k + 1, window)
            &&& s1.path == s.path
            &&& s1.best == s.best
        }),
{
    reveal_with_fuel(search::seek, 2);
    assert(s.path.back_to(s.path.chosen.len() as int) == s.path);
    let c = st.opts.cluster as int;
    assert(c * (k + 1 + 1) == c * (k + 2));
    let s1 = search::fed(st, s, run, t);
    assert(s1.stack.last() == Branch {
        base: s.path.chosen.len() as int,
        next_k: k + 2,
        window,
    });
}

/// Filler is not put to the validator where the file has none: nothing is spent
/// on it.
pub proof fn filler_is_passed_over(
    st: Setup,
    s: State,
    k: int,
    window: int,
    one: Seq<u8>,
    t: Seq<Texture>,
)
    requires
        deciding(st, s, k, window),
        s.path.all_high(),
        t.len() > 0,
        t[0].uniform,
        k + 1 <= window,
        s.path.chosen.last() + st.opts.cluster * (k + 2) < st.dev_end,
    ensures
        ({
            let s1 = search::fed(st, s, one, t);
            &&& deciding(st, s1, k + 1, window)
            &&& s1.calls == s.calls
            &&& s1.bytes == s.bytes
            &&& s1.path == s.path
        }),
{
    reveal_with_fuel(search::seek, 2);
    assert(search::texture(t, 0) == t[0]);
    assert(s.path.back_to(s.path.chosen.len() as int) == s.path);
    let c = st.opts.cluster as int;
    assert(c * (k + 1 + 1) == c * (k + 2));
    let s1 = search::fed(st, s, one, t);
    assert(s1.stack.last() == Branch {
        base: s.path.chosen.len() as int,
        next_k: k + 2,
        window,
    });
}

/// Where a decision has no candidate left, the search goes back to the one before
/// it: the path is what it was then, and the next candidate of that decision is
/// looked at.
pub proof fn a_spent_decision_gives_way_to_the_one_before(st: Setup, s: State)
    requires
        s.stack.len() >= 2,
        s.stack.last().next_k > s.stack.last().window,
        ({
            let b = s.stack[s.stack.len() - 2];
            &&& 0 < b.base <= s.stack.last().base
            &&& b.base <= s.path.chosen.len()
            &&& b.next_k <= b.window
            &&& s.path.chosen[b.base - 1] + st.opts.cluster * (b.next_k + 1) < st.dev_end
        }),
    ensures
        ({
            let b = s.stack[s.stack.len() - 2];
            let s1 = search::seek(st, s);
            &&& s1.stage == (Stage::One {
                at: s.path.chosen[b.base - 1] + st.opts.cluster * (b.next_k + 1),
                k: b.next_k,
            })
            &&& s1.path.chosen == s.path.chosen.subrange(0, b.base)
            &&& s1.stack.len() == s.stack.len() - 1
            &&& s1.backtracks == bytes::capped(s.backtracks + 1)
            &&& s1.best == s.best
        }),
{
    reveal_with_fuel(search::seek, 3);
    let top = s.stack.last();
    let b = s.stack[s.stack.len() - 2];
    let p = s.path.back_to(top.base);
    let q = p.back_to(b.base);
    assert(q.chosen =~= s.path.chosen.subrange(0, b.base));
    assert(q.chosen.last() == s.path.chosen[b.base - 1]);
    assert(s.stack.drop_last().last() == b);
}

/// Where no decision is left, the search begins anew from the header with the
/// next wider window and a fresh allowance; past the widest it ends, without a
/// complete file.
pub proof fn a_spent_window_gives_way_to_a_wider(st: Setup, s: State)
    requires
        s.stack.len() == 0,
    ensures
        ({
            let s1 = search::seek(st, s);
            let n = bifrag::windows_of(st.opts.max_gap_clusters as int).len();
            &&& s.depth + 1 < n ==> {
                &&& s1.stage is Head
                &&& s1.depth == s.depth + 1
                &&& s1.path == Trail::new()
                &&& s1.stack.len() == 0
                &&& s1.first_call == s.calls
                &&& s1.first_byte == s.bytes
                &&& s1.best == s.best
            }
            &&& s.depth + 1 >= n ==> (s1.stage matches Stage::Done { report } && report.status
                != Status::Valid)
        }),
{
}

// ---------------------------------------------------------------------------
// The furthest path
// ---------------------------------------------------------------------------

/// Whether what is remembered in `b` reaches no less far than what is in `a`.
pub open spec fn no_less(a: Option<search::Best>, b: Option<search::Best>) -> bool {
    a matches Some(x) ==> b matches Some(y) && x.length <= y.length
}

proof fn seeking_forgets_nothing(st: Setup, s: State)
    ensures
        search::seek(st, s).best == s.best,
    decreases s.stack.len(), search::last_choices(s),
{
    if s.stack.len() > 0 {
        let top = s.stack.last();
        let path = s.path.back_to(top.base);
        let at = path.chosen.last() + st.opts.cluster * (top.next_k + 1);
        if top.next_k > top.window {
            seeking_forgets_nothing(
                st,
                State {
                    path,
                    stack: s.stack.drop_last(),
                    backtracks: bytes::capped(s.backtracks + 1),
                    ..s
                },
            );
        } else if at >= st.dev_end {
            let next = State {
                path,
                stack: s.stack.drop_last().push(Branch { next_k: top.window + 1, ..top }),
                ..s
            };
            assert(next.stack.last() == Branch { next_k: top.window + 1, ..top });
            seeking_forgets_nothing(st, next);
        }
    }
}

proof fn extending_forgets_nothing(st: Setup, s: State)
    ensures
        search::extended(st, s).best == s.best,
        search::galloped(st, s).best == s.best,
{
    seeking_forgets_nothing(st, s);
    seeking_forgets_nothing(
        st,
        State {
            stack: s.stack.push(
                Branch {
                    base: s.path.chosen.len() as int,
                    next_k: 0,
                    window: st.window(s.depth),
                },
            ),
            ..s
        },
    );
}

proof fn accepting_forgets_nothing(st: Setup, s: State, before: int)
    ensures
        search::accepted(st, s, before).best == s.best,
{
    extending_forgets_nothing(
        st,
        State {
            stack: search::revisited(
                s.stack,
                before + 1,
                s.path.chosen.len() as int,
                bifrag::least(st.window(s.depth), st.opts.continuation_window as int),
            ),
            ..s
        },
    );
}

proof fn taking_forgets_nothing(
    st: Setup,
    s: State,
    at: int,
    run: Seq<u8>,
    t: Seq<Texture>,
    had: int,
    valid: bool,
    length: int,
    off: int,
    taken: int,
)
    ensures
        search::run_taken(st, s, at, run, t, had, valid, length, off, taken).0.best == s.best,
    decreases run.len() - off,
{
    let c = st.opts.cluster as int;
    let end = bifrag::least(off + c, run.len() as int);
    if off < 0 || off >= run.len() || c <= 0 || !search::covered(valid, had, off, end, length) {
    } else if s.path.all_high() && search::texture(t, taken).uniform {
    } else {
        let next = State {
            stack: s.stack.push(
                Branch {
                    base: s.path.chosen.len() as int,
                    next_k: 1,
                    window: st.opts.continuation_window as int,
                },
            ),
            path: s.path.push(
                at + off,
                run.subrange(off, end),
                length,
                search::texture(t, taken).high,
            ),
            ..s
        };
        taking_forgets_nothing(st, next, at, run, t, had, valid, length, end, taken + 1);
    }
}

/// The furthest path that was seen is kept: whatever is read, what is remembered
/// never reaches less far than before.
pub proof fn the_furthest_path_is_kept(st: Setup, s: State, data: Seq<u8>, t: Seq<Texture>)
    ensures
        no_less(s.best, search::fed(st, s, data, t).best),
{
    match s.stage {
        Stage::Head => {
            let s1 = search::charged(s, data);
            let v = search::said(st, data);
            let path = s.path.push(st.header, data, v.length, search::texture(t, 0).high);
            extending_forgets_nothing(st, search::remembered(State { path, ..s1 }, v));
        },
        Stage::Run { at } => {
            let trial = s.path.buf + data;
            let had = s.path.buf.len() as int;
            let s1 = search::charged(s, trial);
            let v = search::said(st, trial);
            let valid = search::completes(v, trial.len() as int);
            taking_forgets_nothing(st, s1, at, data, t, had, valid, v.length, 0, 0);
            let (s2, taken) = search::run_taken(st, s1, at, data, t, had, valid, v.length, 0, 0);
            extending_forgets_nothing(st, s1);
            extending_forgets_nothing(st, s2);
            extending_forgets_nothing(st, search::remembered(s2, v));
        },
        Stage::One { at, k } => {
            let trial = s.path.buf + data;
            let s1 = search::charged(s, trial);
            let v = search::said(st, trial);
            let path = s.path.push(at, data, v.length, search::texture(t, 0).high);
            seeking_forgets_nothing(
                st,
                State { prefiltered: bytes::capped(s.prefiltered + 1), ..s },
            );
            seeking_forgets_nothing(st, s1);
            accepting_forgets_nothing(
                st,
                search::remembered(State { path, ..s1 }, v),
                s.path.chosen.len() as int,
            );
        },
        Stage::Look { at, one } => {
            let trial = s.path.buf + data;
            let had = s.path.buf.len() as int;
            let s1 = search::charged(s, trial);
            let v = search::said(st, trial);
            let valid = search::completes(v, trial.len() as int);
            let path = search::look_taken(st, s.path, at, data, t, had, valid, v.length, 0, 0);
            seeking_forgets_nothing(st, s);
            seeking_forgets_nothing(st, s1);
            seeking_forgets_nothing(st, State { path, ..s1 });
            accepting_forgets_nothing(
                st,
                search::remembered(State { path, ..s1 }, v),
                s.path.chosen.len() as int,
            );
        },
        Stage::Done { report } => {},
    }
}

/// A candidate that the search goes on from is remembered, where the validator
/// vouches for more of it than for any path before.
pub proof fn a_further_path_is_remembered(
    st: Setup,
    s: State,
    at: int,
    k: int,
    one: Seq<u8>,
    t: Seq<Texture>,
)
    requires
        s.stage == (Stage::One { at, k }),
        may_go_on(st, s),
        no_filler(t, 1),
        goes_on(search::said(st, s.path.buf + one)),
        search::said(st, s.path.buf + one).length > s.path.buf.len() || k == 0,
        s.best matches Some(b) ==> b.length < search::said(st, s.path.buf + one).length,
    ensures
        search::fed(st, s, one, t).best matches Some(b) && b.length == search::said(
            st,
            s.path.buf + one,
        ).length && b.chosen == s.path.chosen.push(at),
{
    assert(!t[0].uniform);
    let trial = s.path.buf + one;
    let s1 = search::charged(s, trial);
    let v = search::said(st, trial);
    let path = s.path.push(at, one, v.length, search::texture(t, 0).high);
    let s2 = search::remembered(State { path, ..s1 }, v);
    accepting_forgets_nothing(st, s2, s.path.chosen.len() as int);
}

/// A candidate that cannot belong is not remembered, whatever length the
/// validator reports for it.
pub proof fn a_wrong_path_is_not_remembered(
    st: Setup,
    s: State,
    at: int,
    k: int,
    one: Seq<u8>,
    t: Seq<Texture>,
)
    requires
        s.stage == (Stage::One { at, k }),
        no_filler(t, 1),
        is_wrong(search::said(st, s.path.buf + one)),
    ensures
        search::fed(st, s, one, t).best == s.best,
{
    assert(!t[0].uniform);
    let s1 = search::charged(s, s.path.buf + one);
    seeking_forgets_nothing(st, s1);
}

// ---------------------------------------------------------------------------
// Running straight on
// ---------------------------------------------------------------------------

proof fn a_whole_run_taken(
    st: Setup,
    s: State,
    at: int,
    run: Seq<u8>,
    t: Seq<Texture>,
    had: int,
    length: int,
    taken: int,
    all: int,
)
    requires
        st.opts.cluster > 0,
        0 <= taken <= all,
        run.len() == st.opts.cluster * all,
        length >= had + run.len(),
        no_filler(t, all),
        taken > 0 ==> s.path.chosen.len() > 0 && s.path.chosen.last() == at + st.opts.cluster * (
        taken - 1),
    ensures
        ({
            let off = st.opts.cluster * taken;
            let (s2, n) = search::run_taken(
                st,
                s,
                at,
                run,
                t,
                had,
                false,
                length,
                off,
                taken,
            );
            &&& n == all
            &&& s2.path.buf == s.path.buf + run.subrange(off, run.len() as int)
            &&& s2.path.chosen.len() == s.path.chosen.len() + all - taken
            &&& all > 0 ==> s2.path.chosen.last() == at + st.opts.cluster * (all - 1)
            &&& s2.depth == s.depth
        }),
    decreases all - taken,
{
    let c = st.opts.cluster as int;
    let off = c * taken;
    if taken < all {
        assert(c * (taken + 1) == off + c) by (nonlinear_arith)
            requires
                off == c * taken,
        ;
        assert(c * (taken + 1) <= c * all) by (nonlinear_arith)
            requires
                taken + 1 <= all,
                c > 0,
        ;
        assert(off >= 0) by (nonlinear_arith)
            requires
                off == c * taken,
                c > 0,
                taken >= 0,
        ;
        assert(!t[taken].uniform);
        let more = run.subrange(off, off + c);
        let next = State {
            stack: s.stack.push(
                Branch {
                    base: s.path.chosen.len() as int,
                    next_k: 1,
                    window: st.opts.continuation_window as int,
                },
            ),
            path: s.path.push(at + off, more, length, search::texture(t, taken).high),
            ..s
        };
        a_whole_run_taken(st, next, at, run, t, had, length, taken + 1, all);
        assert(s.path.buf + run.subrange(off, run.len() as int) =~= (s.path.buf + more)
            + run.subrange(off + c, run.len() as int));
    } else {
        assert(s.path.buf + run.subrange(off, run.len() as int) =~= s.path.buf);
    }
}

/// A run that the validator vouches for to its end, and would go on from, is
/// taken whole, and the search runs straight on behind it.
pub proof fn a_run_vouched_for_is_taken_whole(
    st: Setup,
    s: State,
    at: int,
    run: Seq<u8>,
    t: Seq<Texture>,
)
    requires
        s.stage == (Stage::Run { at }),
        may_go_on(st, s),
        st.opts.cluster > 0,
        st.opts.run_clusters > 0,
        run.len() == st.opts.cluster * st.opts.run_clusters,
        no_filler(t, st.opts.run_clusters as int),
        goes_on(search::said(st, s.path.buf + run)),
        search::said(st, s.path.buf + run).length >= s.path.buf.len() + run.len(),
        at + run.len() < st.dev_end,
    ensures
        ({
            let s1 = search::fed(st, s, run, t);
            &&& s1.stage == (Stage::Run { at: at + run.len() })
            &&& s1.path.buf == s.path.buf + run
            &&& s1.path.chosen.len() == s.path.chosen.len() + st.opts.run_clusters
            &&& s1.best matches Some(b) && b.length >= search::said(st, s.path.buf + run).length
        }),
{
    let trial = s.path.buf + run;
    let had = s.path.buf.len() as int;
    let v = search::said(st, trial);
    let s1 = search::charged(s, trial);
    let c = st.opts.cluster as int;
    let n = st.opts.run_clusters as int;
    assert(c * 0 == 0) by (nonlinear_arith);
    a_whole_run_taken(st, s1, at, run, t, had, v.length, 0, n);
    assert(run.subrange(0, run.len() as int) =~= run);
    assert(c * (n - 1) + c == c * n) by (nonlinear_arith);
}

/// Where the validator would go on but vouches for nothing of what stands
/// straight on, the search decides from there on.
pub proof fn a_run_that_says_nothing_begins_a_decision(
    st: Setup,
    s: State,
    at: int,
    run: Seq<u8>,
    t: Seq<Texture>,
)
    requires
        s.stage == (Stage::Run { at }),
        may_go_on(st, s),
        0 < s.path.chosen.len() < st.opts.max_clusters,
        search::last_or(s.path.stale, 0) < st.opts.max_unverified_clusters,
        st.opts.cluster > 0,
        st.opts.run_clusters > 0,
        at == s.path.chosen.last() + st.opts.cluster,
        at < st.dev_end,
        st.window(s.depth) >= 0,
        goes_on(search::said(st, s.path.buf + run)),
        search::said(st, s.path.buf + run).length < s.path.buf.len() + bifrag::least(
            st.opts.cluster as int,
            run.len() as int,
        ),
    ensures
        ({
            let s1 = search::fed(st, s, run, t);
            &&& deciding(st, s1, 0, st.window(s.depth))
            &&& s1.path == s.path
            &&& s1.best == s.best
        }),
{
    reveal_with_fuel(search::seek, 2);
    assert(s.path.back_to(s.path.chosen.len() as int) == s.path);
    let c = st.opts.cluster as int;
    assert(c * (0 + 1) == c) by (nonlinear_arith);
    let s1 = search::fed(st, s, run, t);
    assert(s1.stack.last() == Branch {
        base: s.path.chosen.len() as int,
        next_k: 1,
        window: st.window(s.depth),
    });
}

} // verus!
