//! That every search comes to an end, and keeps to its budget on the way.

use vstd::prelude::*;
use crate::bifrag;
use crate::bytes;
use super::search;
use super::search::{Branch, Setup, Stage, State, Texture};

verus! {

/// How many candidates a decision has left.
pub open spec fn left_of(b: Branch) -> int {
    if b.next_k <= b.window {
        b.window + 1 - b.next_k
    } else {
        0
    }
}

/// How many candidates all decisions have left.
pub open spec fn choices(stack: Seq<Branch>) -> int
    decreases stack.len(),
{
    if stack.len() == 0 {
        0
    } else {
        choices(stack.drop_last()) + left_of(stack.last())
    }
}

/// How many more validator calls the attempt may make.
pub open spec fn calls_left(st: Setup, s: State) -> int {
    st.opts.budget - (s.calls - s.first_call)
}

/// Whether the attempt is one of those to be made, and has kept to its budget.
pub open spec fn in_budget(st: Setup, s: State) -> bool {
    &&& 0 <= s.depth < bifrag::windows_of(st.opts.max_gap_clusters as int).len()
    &&& s.first_call <= s.calls
    &&& calls_left(st, s) >= 0
}

/// Whether `r` comes before `s` on the way to the end: it is the end, or of a
/// later attempt, or has fewer calls left, or as many and fewer candidates.
pub open spec fn nearer(st: Setup, r: State, s: State) -> bool {
    ||| r.stage is Done
    ||| r.depth > s.depth
    ||| r.depth == s.depth && calls_left(st, r) < calls_left(st, s)
    ||| r.depth == s.depth && calls_left(st, r) == calls_left(st, s) && choices(r.stack) < choices(
        s.stack,
    )
}

/// There are never fewer candidates than none.
pub proof fn choices_are_counted(stack: Seq<Branch>)
    ensures
        choices(stack) >= 0,
    decreases stack.len(),
{
    if stack.len() > 0 {
        choices_are_counted(stack.drop_last());
    }
}

proof fn one_more(stack: Seq<Branch>, b: Branch)
    ensures
        choices(stack.push(b)) == choices(stack) + left_of(b),
{
    assert(stack.push(b).drop_last() =~= stack);
}

/// Whether `r` is of the same attempt as `s` and has made as many calls.
spec fn level(r: State, s: State) -> bool {
    r.depth == s.depth && r.calls == s.calls && r.first_call == s.first_call
}

/// Whether `r` is the end, or the beginning of the attempt after that of `s`.
spec fn over(st: Setup, r: State, s: State) -> bool {
    ||| r.stage is Done && level(r, s)
    ||| {
        &&& r.depth == s.depth + 1
        &&& r.depth < bifrag::windows_of(st.opts.max_gap_clusters as int).len()
        &&& r.calls == s.calls
        &&& r.first_call == s.calls
    }
}

proof fn seeking_ends(st: Setup, s: State)
    ensures
        over(st, search::seek(st, s), s) || (level(search::seek(st, s), s) && choices(
            search::seek(st, s).stack,
        ) < choices(s.stack)),
    decreases s.stack.len(), search::last_choices(s),
{
    if s.stack.len() > 0 {
        let top = s.stack.last();
        let rest = s.stack.drop_last();
        let path = s.path.back_to(top.base);
        let at = path.chosen.last() + st.opts.cluster * (top.next_k + 1);
        if top.next_k > top.window {
            seeking_ends(
                st,
                State { path, stack: rest, backtracks: bytes::capped(s.backtracks + 1), ..s },
            );
        } else if at >= st.dev_end {
            let spent = Branch { next_k: top.window + 1, ..top };
            one_more(rest, spent);
            seeking_ends(st, State { path, stack: rest.push(spent), ..s });
        } else {
            one_more(rest, Branch { next_k: top.next_k + 1, ..top });
        }
    }
}

proof fn extending_is_level(st: Setup, s: State)
    ensures
        over(st, search::extended(st, s), s) || level(search::extended(st, s), s),
{
    seeking_ends(
        st,
        State {
            stack: s.stack.push(
                Branch {
                    base: s.path.chosen.len() as int,
                    next_k: 0,
                    window: st.window(s.depth),
                },
            ),
            ..s
        },
    );
    seeking_ends(st, s);
}

proof fn galloping_is_level(st: Setup, s: State)
    ensures
        over(st, search::galloped(st, s), s) || level(search::galloped(st, s), s),
{
    extending_is_level(st, s);
}

proof fn taking_is_level(
    st: Setup,
    s: State,
    at: int,
    run: Seq<u8>,
    t: Seq<Texture>,
    had: int,
    valid: bool,
    length: int,
    off: int,
    taken: int,
)
    ensures
        level(search::run_taken(st, s, at, run, t, had, valid, length, off, taken).0, s),
    decreases run.len() - off,
{
    let c = st.opts.cluster as int;
    let end = bifrag::least(off + c, run.len() as int);
    if off < 0 || off >= run.len() || c <= 0 || !search::covered(valid, had, off, end, length) {
    } else if s.path.all_high() && search::texture(t, taken).uniform {
    } else {
        taking_is_level(
            st,
            State {
                stack: s.stack.push(
                    Branch {
                        base: s.path.chosen.len() as int,
                        next_k: 1,
                        window: st.opts.continuation_window as int,
                    },
                ),
                path: s.path.push(
                    at + off,
                    run.subrange(off, end),
                    length,
                    search::texture(t, taken).high,
                ),
                ..s
            },
            at,
            run,
            t,
            had,
            valid,
            length,
            end,
            taken + 1,
        );
    }
}

proof fn accepting_is_level(st: Setup, s: State, before: int)
    ensures
        over(st, search::accepted(st, s, before), s) || level(
            search::accepted(st, s, before),
            s,
        ),
{
    galloping_is_level(
        st,
        State {
            stack: search::revisited(
                s.stack,
                before + 1,
                s.path.chosen.len() as int,
                bifrag::least(st.window(s.depth), st.opts.continuation_window as int),
            ),
            ..s
        },
    );
}

/// A search begins within its budget.
pub proof fn a_search_begins_in_budget(st: Setup)
    ensures
        in_budget(st, search::begun()),
{
    bifrag::windows_deepen(16, st.opts.max_gap_clusters as int);
}

/// Every read brings the end of a search nearer, and no attempt makes more
/// validator calls than its budget allows. So a search that is fed comes to an
/// end, whatever the device holds and whatever the validator says of it.
pub proof fn every_read_brings_the_end_nearer(
    st: Setup,
    s: State,
    data: Seq<u8>,
    t: Seq<Texture>,
)
    requires
        in_budget(st, s),
        s.calls < u64::MAX,
        !(s.stage is Done),
    ensures
        nearer(st, search::fed(st, s, data, t), s),
        in_budget(st, search::fed(st, s, data, t)),
{
    match s.stage {
        Stage::Head => {
            let s1 = search::charged(s, data);
            let v = search::said(st, data);
            let path = s.path.push(st.header, data, v.length, search::texture(t, 0).high);
            galloping_is_level(st, search::remembered(State { path, ..s1 }, v));
        },
        Stage::Run { at } => {
            let trial = s.path.buf + data;
            let had = s.path.buf.len() as int;
            let s1 = search::charged(s, trial);
            let v = search::said(st, trial);
            let valid = search::completes(v, trial.len() as int);
            let (s2, taken) = search::run_taken(st, s1, at, data, t, had, valid, v.length, 0, 0);
            taking_is_level(st, s1, at, data, t, had, valid, v.length, 0, 0);
            let s3 = if taken > 0 {
                search::remembered(s2, v)
            } else {
                s2
            };
            extending_is_level(st, s1);
            extending_is_level(st, s2);
            extending_is_level(st, s3);
            galloping_is_level(st, s3);
        },
        Stage::One { at, k } => {
            let trial = s.path.buf + data;
            let s1 = search::charged(s, trial);
            let v = search::said(st, trial);
            let path = s.path.push(at, data, v.length, search::texture(t, 0).high);
            seeking_ends(st, State { prefiltered: bytes::capped(s.prefiltered + 1), ..s });
            seeking_ends(st, s1);
            accepting_is_level(
                st,
                search::remembered(State { path, ..s1 }, v),
                s.path.chosen.len() as int,
            );
        },
        Stage::Look { at, one } => {
            let trial = s.path.buf + data;
            let had = s.path.buf.len() as int;
            let s1 = search::charged(s, trial);
            let v = search::said(st, trial);
            let valid = search::completes(v, trial.len() as int);
            let path = search::look_taken(st, s.path, at, data, t, had, valid, v.length, 0, 0);
            seeking_ends(st, s);
            seeking_ends(st, s1);
            seeking_ends(st, State { path, ..s1 });
            accepting_is_level(
                st,
                search::remembered(State { path, ..s1 }, v),
                s.path.chosen.len() as int,
            );
        },
        Stage::Done { report } => {},
    }
}

} // verus!
