//! Dropping candidates that lie inside a complete file.
//!
//! An EXIF thumbnail is a whole valid JPEG inside another, and a document may
//! hold whole images: no validator can reject those. Only containment can, and
//! only once lengths are known. Only a length that the file itself established
//! may judge other candidates: a damaged file's length is a floor, no extent.

use vstd::prelude::*;
use crate::bytes;
use crate::scan;
use crate::validate::Status;
use super::{Candidate, Found};

verus! {

/// Whether `a` belongs after `b`: by offset, then the longer first, then the
/// one that had to match more header first.
pub open spec fn after(a: Found, b: Found) -> bool {
    ||| a.offset > b.offset
    ||| a.offset == b.offset && a.length < b.length
    ||| a.offset == b.offset && a.length == b.length && a.header_span < b.header_span
}

/// Where `x` goes among the first `n` of a list: after everything that it does
/// not belong before.
pub open spec fn slot(s: Seq<Found>, x: Found, n: int) -> int
    decreases n,
{
    if n > 0 && after(s[n - 1], x) {
        slot(s, x, n - 1)
    } else {
        n
    }
}

/// The first `n` candidates in order; those that tie keep the order they had.
pub open spec fn ordered_upto(c: Seq<Found>, n: int) -> Seq<Found>
    decreases n,
{
    if n <= 0 {
        Seq::empty()
    } else {
        let before = ordered_upto(c, n - 1);
        before.insert(slot(before, c[n - 1], before.len() as int), c[n - 1])
    }
}

/// The candidates in order: an outer file before what it contains, and of two
/// that cover the same bytes the one that matched more header first.
pub open spec fn ordered(c: Seq<Found>) -> Seq<Found> {
    ordered_upto(c, c.len() as int)
}

/// How far a sweep over ordered candidates has come.
#[verifier::ext_equal]
pub struct Sweep {
    pub kept: Seq<Found>,
    /// The furthest end of a complete file kept so far.
    pub cover: int,
    pub dropped: int,
}

/// Whether a candidate lies inside what is covered.
pub open spec fn inside(x: Found, cover: int) -> bool {
    x.length > 0 && x.end() <= cover
}

/// Whether a candidate's length is one it established.
pub open spec fn judges(x: Found) -> bool {
    x.status == Status::Valid || x.length_established
}

/// The sweep over the first `n` candidates, `cover` being covered before.
pub open spec fn swept_upto(c: Seq<Found>, cover: int, n: int) -> Sweep
    decreases n,
{
    if n <= 0 {
        Sweep { kept: Seq::empty(), cover, dropped: 0 }
    } else {
        let s = swept_upto(c, cover, n - 1);
        let x = c[n - 1];
        if inside(x, s.cover) {
            Sweep { dropped: s.dropped + 1, ..s }
        } else {
            Sweep {
                kept: s.kept.push(x),
                cover: if judges(x) {
                    bytes::larger(s.cover, x.end())
                } else {
                    s.cover
                },
                ..s
            }
        }
    }
}

/// The candidates left once those inside a complete one are dropped, `cover`
/// being covered before.
pub open spec fn suppressed(c: Seq<Found>, cover: int) -> Sweep {
    swept_upto(ordered(c), cover, c.len() as int)
}

fn goes_after(a: &Candidate, b: &Candidate) -> (r: bool)
    ensures
        r == after(a@, b@),
{
    a.offset > b.offset || (a.offset == b.offset && (a.length < b.length || (a.length == b.length
        && a.header_span < b.header_span)))
}

proof fn slot_is_in(s: Seq<Found>, x: Found, n: int)
    requires
        0 <= n,
    ensures
        0 <= slot(s, x, n) <= n,
    decreases n,
{
    if n > 0 && after(s[n - 1], x) {
        slot_is_in(s, x, n - 1);
    }
}

proof fn ordering_keeps_count(c: Seq<Found>, n: int)
    requires
        0 <= n <= c.len(),
    ensures
        ordered_upto(c, n).len() == n,
    decreases n,
{
    if n > 0 {
        ordering_keeps_count(c, n - 1);
        let before = ordered_upto(c, n - 1);
        slot_is_in(before, c[n - 1], before.len() as int);
    }
}

/// Putting candidates in order keeps as many as there were.
pub proof fn ordered_keeps_count(c: Seq<Found>)
    ensures
        ordered(c).len() == c.len(),
{
    ordering_keeps_count(c, c.len() as int);
}

/// The candidates, last first.
fn turned_round(candidates: Vec<Candidate>) -> (r: Vec<Candidate>)
    ensures
        r@ == candidates@.reverse(),
{
    let ghost all = candidates@;
    let mut rest = candidates;
    let mut out: Vec<Candidate> = Vec::new();
    while rest.len() > 0
        invariant
            rest@.len() + out@.len() == all.len(),
            rest@ == all.subrange(0, rest@.len() as int),
            out@ == all.reverse().subrange(0, out@.len() as int),
        decreases rest@.len(),
    {
        let ghost n = rest@.len();
        if let Some(c) = rest.pop() {
            out.push(c);
        }
        assert(rest@ =~= all.subrange(0, n - 1));
        assert(out@ =~= all.reverse().subrange(0, out@.len() as int));
    }
    assert(out@ =~= all.reverse());
    out
}

/// Put candidates in order.
fn order(candidates: Vec<Candidate>) -> (r: Vec<Candidate>)
    ensures
        scan::all_found(r@) == ordered(scan::all_found(candidates@)),
{
    let ghost c = scan::all_found(candidates@);
    let ghost n = candidates@.len() as int;
    let mut rest = turned_round(candidates);
    let mut out: Vec<Candidate> = Vec::new();
    assert(scan::all_found(out@) =~= ordered_upto(c, 0));
    while rest.len() > 0
        invariant
            c.len() == n,
            rest@.len() + out@.len() == n,
            forall|k: int| 0 <= k < rest@.len() ==> (#[trigger] rest@[k])@ == c[n - 1 - k],
            scan::all_found(out@) == ordered_upto(c, out@.len() as int),
        decreases rest@.len(),
    {
        let ghost done = out@.len() as int;
        let ghost before = ordered_upto(c, done);
        if let Some(x) = rest.pop() {
            assert(x@ == c[done]);
            let mut i: usize = out.len();
            while i > 0 && goes_after(&out[i - 1], &x)
                invariant
                    i <= out@.len(),
                    before == scan::all_found(out@),
                    slot(before, x@, out@.len() as int) == slot(before, x@, i as int),
                decreases i,
            {
                assert(before[i - 1] == out@[i - 1]@);
                i -= 1;
            }
            assert(i > 0 ==> before[i - 1] == out@[i - 1]@);
            out.insert(i, x);
            assert(scan::all_found(out@) =~= before.insert(i as int, c[done]));
            assert(scan::all_found(out@) =~= ordered_upto(c, done + 1));
        }
    }
    out
}

/// Drop candidates that lie wholly inside a structurally complete one, and say
/// how many were dropped. `cover_end` is the furthest end of a complete file
/// kept so far, carried in from any earlier segment.
pub fn suppress_contained(candidates: Vec<Candidate>, cover_end: &mut u64) -> (r: (
    Vec<Candidate>,
    u64,
))
    ensures
        scan::all_found(r.0@) == suppressed(scan::all_found(candidates@), *old(cover_end) as int).kept,
        *final(cover_end) == suppressed(scan::all_found(candidates@), *old(cover_end) as int).cover,
        r.1 == suppressed(scan::all_found(candidates@), *old(cover_end) as int).dropped,
{
    let ghost start = *cover_end as int;
    let count: usize = candidates.len();
    let ghost n = count as int;
    let ghost c = ordered(scan::all_found(candidates@));
    proof {
        ordering_keeps_count(scan::all_found(candidates@), n);
    }
    let sorted = order(candidates);
    let mut rest = turned_round(sorted);
    let mut keep: Vec<Candidate> = Vec::new();
    let mut dropped: u64 = 0;
    let mut i: usize = 0;
    assert(scan::all_found(keep@) =~= swept_upto(c, start, 0).kept);
    assert forall|k: int| 0 <= k < rest@.len() implies (#[trigger] rest@[k])@ == c[n - 1 - k] by {
        assert(scan::all_found(sorted@)[n - 1 - k] == sorted@[n - 1 - k]@);
    }
    while rest.len() > 0
        invariant
            c.len() == n,
            i + rest@.len() == n,
            n == count,
            dropped <= i,
            forall|k: int| 0 <= k < rest@.len() ==> (#[trigger] rest@[k])@ == c[n - 1 - k],
            scan::all_found(keep@) == swept_upto(c, start, i as int).kept,
            *cover_end == swept_upto(c, start, i as int).cover,
            dropped == swept_upto(c, start, i as int).dropped,
        decreases rest@.len(),
    {
        if let Some(x) = rest.pop() {
            assert(x@ == c[i as int]);
            let end: u64 = x.end();
            if x.length > 0 && end <= *cover_end {
                dropped += 1;
            } else {
                // A floor is not an extent.
                if x.status == Status::Valid || x.length_established {
                    if end > *cover_end {
                        *cover_end = end;
                    }
                }
                let ghost before = scan::all_found(keep@);
                keep.push(x);
                assert(scan::all_found(keep@) =~= before.push(c[i as int]));
            }
            i += 1;
        }
    }
    (keep, dropped)
}

/// Every candidate is kept or dropped, and what is covered only grows.
pub proof fn nothing_goes_missing(c: Seq<Found>, cover: int, n: int)
    requires
        0 <= n <= c.len(),
    ensures
        swept_upto(c, cover, n).kept.len() + swept_upto(c, cover, n).dropped == n,
        swept_upto(c, cover, n).cover >= cover,
        swept_upto(c, cover, n).dropped >= 0,
    decreases n,
{
    if n > 0 {
        nothing_goes_missing(c, cover, n - 1);
    }
}

proof fn ordered_come_from(c: Seq<Found>, n: int, k: int)
    requires
        0 <= n <= c.len(),
        0 <= k < ordered_upto(c, n).len(),
    ensures
        exists|i: int| 0 <= i < n && #[trigger] c[i] == ordered_upto(c, n)[k],
    decreases n,
{
    if n > 0 {
        let before = ordered_upto(c, n - 1);
        let p = slot(before, c[n - 1], before.len() as int);
        slot_is_in(before, c[n - 1], before.len() as int);
        if k == p {
            assert(c[n - 1] == ordered_upto(c, n)[k]);
        } else {
            let j = if k < p {
                k
            } else {
                k - 1
            };
            assert(ordered_upto(c, n)[k] == before[j]);
            ordered_come_from(c, n - 1, j);
        }
    }
}

/// What is put in order was there before.
pub proof fn order_invents_nothing(c: Seq<Found>, k: int)
    requires
        0 <= k < ordered(c).len(),
    ensures
        c.contains(ordered(c)[k]),
{
    ordered_come_from(c, c.len() as int, k);
}

proof fn past_slot(s: Seq<Found>, x: Found, n: int)
    requires
        0 <= n <= s.len(),
    ensures
        forall|k: int| slot(s, x, n) <= k < n ==> after(#[trigger] s[k], x),
        slot(s, x, n) > 0 ==> !after(s[slot(s, x, n) - 1], x),
        0 <= slot(s, x, n) <= n,
    decreases n,
{
    if n > 0 && after(s[n - 1], x) {
        past_slot(s, x, n - 1);
    }
}

/// Ordered candidates are in order: by offset, the longer first, and the one
/// that matched more header first.
pub proof fn ordered_is_in_order(c: Seq<Found>, n: int)
    requires
        0 <= n <= c.len(),
    ensures
        forall|i: int, j: int|
            0 <= i < j < ordered_upto(c, n).len() ==> !after(
                #[trigger] ordered_upto(c, n)[i],
                #[trigger] ordered_upto(c, n)[j],
            ),
    decreases n,
{
    if n > 0 {
        ordered_is_in_order(c, n - 1);
        let before = ordered_upto(c, n - 1);
        let x = c[n - 1];
        let p = slot(before, x, before.len() as int);
        past_slot(before, x, before.len() as int);
        let now = ordered_upto(c, n);
        assert forall|i: int, j: int| 0 <= i < j < now.len() implies !after(
            #[trigger] now[i],
            #[trigger] now[j],
        ) by {
            let a = if i < p {
                i
            } else {
                i - 1
            };
            let b = if j < p {
                j
            } else {
                j - 1
            };
            if i == p {
                assert(now[j] == before[b]);
                assert(after(before[b], x));
            } else if j == p {
                assert(now[i] == before[a]);
                if p - 1 != a {
                    assert(!after(before[a], before[p - 1]));
                }
            } else {
                assert(now[i] == before[a] && now[j] == before[b]);
            }
        }
    }
}

/// What is dropped lies inside something complete: a file from before, or a
/// candidate that was kept, that begins no later and ends no earlier.
pub proof fn what_is_dropped_is_contained(c: Seq<Found>, cover: int, i: int)
    requires
        0 <= i < c.len(),
        inside(ordered(c)[i], swept_upto(ordered(c), cover, i).cover),
    ensures
        ordered(c)[i].end() <= cover || exists|j: int|
            0 <= j < i && judges(#[trigger] ordered(c)[j]) && ordered(c)[j].offset
                <= ordered(c)[i].offset && ordered(c)[i].end() <= ordered(c)[j].end() && !inside(
                ordered(c)[j],
                swept_upto(ordered(c), cover, j).cover,
            ),
{
    let s = ordered(c);
    ordering_keeps_count(c, c.len() as int);
    ordered_is_in_order(c, c.len() as int);
    covered_by(s, cover, i);
    let reach = swept_upto(s, cover, i).cover;
    if reach != cover {
        let j = choose|j: int|
            0 <= j < i && judges(#[trigger] s[j]) && s[j].end() == reach && !inside(
                s[j],
                swept_upto(s, cover, j).cover,
            );
        assert(!after(s[j], s[i]));
    }
}

/// Whether a candidate lies inside what was covered before, or inside a
/// complete one of `kept` that begins no later.
pub open spec fn contained(x: Found, kept: Seq<Found>, cover: int) -> bool {
    &&& x.length > 0
    &&& x.end() <= cover || exists|j: int|
        0 <= j < kept.len() && judges(#[trigger] kept[j]) && kept[j].offset <= x.offset && x.end()
            <= kept[j].end()
}

proof fn ordered_holds(c: Seq<Found>, n: int, k: int) -> (i: int)
    requires
        0 <= k < n <= c.len(),
    ensures
        0 <= i < ordered_upto(c, n).len(),
        ordered_upto(c, n)[i] == c[k],
    decreases n,
{
    let before = ordered_upto(c, n - 1);
    let p = slot(before, c[n - 1], before.len() as int);
    slot_is_in(before, c[n - 1], before.len() as int);
    if k == n - 1 {
        p
    } else {
        let j = ordered_holds(c, n - 1, k);
        if j < p {
            j
        } else {
            j + 1
        }
    }
}

proof fn kept_holds(s: Seq<Found>, cover: int, n: int, i: int)
    requires
        0 <= i < n <= s.len(),
        !inside(s[i], swept_upto(s, cover, i).cover),
    ensures
        swept_upto(s, cover, n).kept.contains(s[i]),
    decreases n,
{
    let was = swept_upto(s, cover, n - 1).kept;
    let now = swept_upto(s, cover, n).kept;
    if i == n - 1 {
        assert(now[was.len() as int] == s[i]);
    } else {
        kept_holds(s, cover, n - 1, i);
        let j = choose|j: int| 0 <= j < was.len() && was[j] == s[i];
        assert(now[j] == s[i]);
    }
}

/// Every candidate is kept, or lies inside a complete one that is.
pub proof fn kept_or_contained(c: Seq<Found>, cover: int, k: int)
    requires
        0 <= k < c.len(),
    ensures
        suppressed(c, cover).kept.contains(c[k]) || contained(
            c[k],
            suppressed(c, cover).kept,
            cover,
        ),
{
    let s = ordered(c);
    let kept = suppressed(c, cover).kept;
    ordering_keeps_count(c, c.len() as int);
    let i = ordered_holds(c, c.len() as int, k);
    if inside(s[i], swept_upto(s, cover, i).cover) {
        what_is_dropped_is_contained(c, cover, i);
        if s[i].end() > cover {
            let j = choose|j: int|
                0 <= j < i && judges(#[trigger] s[j]) && s[j].offset <= s[i].offset && s[i].end()
                    <= s[j].end() && !inside(s[j], swept_upto(s, cover, j).cover);
            kept_holds(s, cover, s.len() as int, j);
            let l = choose|l: int| 0 <= l < kept.len() && kept[l] == s[j];
            assert(judges(kept[l]));
        }
    } else {
        kept_holds(s, cover, s.len() as int, i);
    }
}

proof fn covered_by(s: Seq<Found>, cover: int, n: int)
    requires
        0 <= n <= s.len(),
    ensures
        swept_upto(s, cover, n).cover == cover || exists|j: int|
            0 <= j < n && judges(#[trigger] s[j]) && s[j].end() == swept_upto(s, cover, n).cover
                && !inside(s[j], swept_upto(s, cover, j).cover),
    decreases n,
{
    if n > 0 {
        covered_by(s, cover, n - 1);
        let x = s[n - 1];
        let was = swept_upto(s, cover, n - 1);
        if !inside(x, was.cover) && judges(x) && x.end() > was.cover {
            assert(judges(s[n - 1]));
        }
    }
}

proof fn slot_in_the_later_part(a: Seq<Found>, b: Seq<Found>, x: Found, n: int)
    requires
        0 <= n <= b.len(),
        forall|k: int| 0 <= k < a.len() ==> (#[trigger] a[k]).offset < x.offset,
    ensures
        slot(a + b, x, a.len() + n) == a.len() + slot(b, x, n),
    decreases n,
{
    let all = a + b;
    if n > 0 {
        assert(all[a.len() + n - 1] == b[n - 1]);
        if after(b[n - 1], x) {
            slot_in_the_later_part(a, b, x, n - 1);
        }
    } else if a.len() > 0 {
        assert(all[a.len() - 1] == a[a.len() - 1]);
    }
}

proof fn an_earlier_part_is_its_own(a: Seq<Found>, b: Seq<Found>, n: int)
    requires
        0 <= n <= a.len(),
    ensures
        ordered_upto(a + b, n) == ordered_upto(a, n),
    decreases n,
{
    if n > 0 {
        an_earlier_part_is_its_own(a, b, n - 1);
        assert((a + b)[n - 1] == a[n - 1]);
    }
}

/// Where everything in `a` begins before anything in `b`, putting the two in
/// order puts each in order.
pub proof fn order_adds_up(a: Seq<Found>, b: Seq<Found>, n: int)
    requires
        0 <= n <= b.len(),
        forall|i: int, j: int|
            0 <= i < a.len() && 0 <= j < b.len() ==> (#[trigger] a[i]).offset < (
            #[trigger] b[j]).offset,
    ensures
        ordered_upto(a + b, a.len() + n) == ordered(a) + ordered_upto(b, n),
    decreases n,
{
    let first = ordered(a);
    if n > 0 {
        order_adds_up(a, b, n - 1);
        let x = b[n - 1];
        let before = ordered_upto(b, n - 1);
        assert((a + b)[a.len() + n - 1] == x);
        ordering_keeps_count(a, a.len() as int);
        assert forall|k: int| 0 <= k < first.len() implies (#[trigger] first[k]).offset
            < x.offset by {
            ordered_come_from(a, a.len() as int, k);
            let i = choose|i: int| 0 <= i < a.len() && #[trigger] a[i] == first[k];
            assert(a[i].offset < b[n - 1].offset);
        }
        slot_in_the_later_part(first, before, x, before.len() as int);
        slot_is_in(before, x, before.len() as int);
        let p = slot(before, x, before.len() as int);
        assert((first + before).insert(first.len() + p, x) =~= first + before.insert(p, x));
    } else {
        an_earlier_part_is_its_own(a, b, a.len() as int);
        assert(first + ordered_upto(b, 0) =~= first);
    }
}

proof fn a_sweep_reads_a_prefix(a: Seq<Found>, b: Seq<Found>, cover: int, n: int)
    requires
        0 <= n <= a.len(),
    ensures
        swept_upto(a + b, cover, n) == swept_upto(a, cover, n),
    decreases n,
{
    if n > 0 {
        a_sweep_reads_a_prefix(a, b, cover, n - 1);
        assert((a + b)[n - 1] == a[n - 1]);
    }
}

/// A sweep over two lists is a sweep over the first and then, with what that
/// covered carried on, over the second.
pub proof fn sweeps_add_up(a: Seq<Found>, b: Seq<Found>, cover: int, n: int)
    requires
        0 <= n <= b.len(),
    ensures
        ({
            let first = swept_upto(a, cover, a.len() as int);
            let second = swept_upto(b, first.cover, n);
            swept_upto(a + b, cover, a.len() + n) == Sweep {
                kept: first.kept + second.kept,
                cover: second.cover,
                dropped: first.dropped + second.dropped,
            }
        }),
    decreases n,
{
    let first = swept_upto(a, cover, a.len() as int);
    if n > 0 {
        sweeps_add_up(a, b, cover, n - 1);
        assert((a + b)[a.len() + n - 1] == b[n - 1]);
        let was = swept_upto(b, first.cover, n - 1);
        assert((first.kept + was.kept).push(b[n - 1]) =~= first.kept + was.kept.push(b[n - 1]));
    } else {
        a_sweep_reads_a_prefix(a, b, cover, a.len() as int);
        assert(first.kept + Seq::<Found>::empty() =~= first.kept);
    }
}

} // verus!
