//! Header matches: finding them block by block, and putting them in order.

use vstd::prelude::*;
use vstd::set_lib::*;
use vstd::slice::*;
use crate::bytes;
use crate::prefilter;
use crate::prefilter::{Prefilter, ScanIndex};
use crate::signature::Format;

verus! {

broadcast use bytes::slice_fits;

/// A header match, before validation.
#[derive(Clone, Copy, Debug, PartialEq, Eq, Structural)]
pub struct Hit {
    /// Where the file would begin.
    pub offset: u64,
    /// The signature, as its position in the index.
    pub sig: usize,
}

/// Hits as pairs of offset and signature.
pub open spec fn spots(hits: Seq<Hit>) -> Seq<(int, int)> {
    Seq::new(hits.len(), |k: int| (hits[k].offset as int, hits[k].sig as int))
}

/// Whether format `i` begins at `at` in `hay`, and can be found there.
pub open spec fn found(f: Seq<Format>, hay: Seq<u8>, at: int, i: int) -> bool {
    &&& 0 <= i < f.len()
    &&& 0 <= at
    &&& f[i].stands(hay, at)
    &&& prefilter::lead(f[i], at) < hay.len()
}

/// Of the first `n` formats, those found at `at`.
pub open spec fn found_at(f: Seq<Format>, hay: Seq<u8>, at: int, n: int) -> Seq<(int, int)>
    decreases n,
{
    if n <= 0 {
        Seq::empty()
    } else if found(f, hay, at, n - 1) {
        found_at(f, hay, at, n - 1).push((at, n - 1))
    } else {
        found_at(f, hay, at, n - 1)
    }
}

/// Everything found at an offset from `from` up to `to`, by offset and then by
/// format.
pub open spec fn matches_in(f: Seq<Format>, hay: Seq<u8>, from: int, to: int) -> Seq<(int, int)>
    decreases to - from,
{
    if to <= from {
        Seq::empty()
    } else {
        matches_in(f, hay, from, to - 1) + found_at(f, hay, to - 1, f.len() as int)
    }
}

/// Whether `a` comes before `b`: by offset, then by signature.
pub open spec fn precedes(a: (int, int), b: (int, int)) -> bool {
    a.0 < b.0 || (a.0 == b.0 && a.1 < b.1)
}

/// Whether a list is in order, without repetition.
pub open spec fn ascending(s: Seq<(int, int)>) -> bool {
    forall|i: int, j: int| 0 <= i < j < s.len() ==> precedes(#[trigger] s[i], #[trigger] s[j])
}

proof fn found_at_is_that(f: Seq<Format>, hay: Seq<u8>, at: int, n: int)
    requires
        0 <= n <= f.len(),
    ensures
        ascending(found_at(f, hay, at, n)),
        forall|k: int|
            0 <= k < found_at(f, hay, at, n).len() ==> {
                let p = #[trigger] found_at(f, hay, at, n)[k];
                p.0 == at && p.1 < n && found(f, hay, at, p.1)
            },
        forall|i: int|
            i < n && #[trigger] found(f, hay, at, i) ==> found_at(f, hay, at, n).contains((at, i)),
    decreases n,
{
    if n > 0 {
        found_at_is_that(f, hay, at, n - 1);
        let before = found_at(f, hay, at, n - 1);
        let now = found_at(f, hay, at, n);
        assert forall|i: int| i < n && #[trigger] found(f, hay, at, i) implies now.contains(
            (at, i),
        ) by {
            if i < n - 1 {
                let k = choose|k: int| 0 <= k < before.len() && before[k] == (at, i);
                assert(before.contains((at, i)));
                assert(now[k] == (at, i));
            } else {
                assert(now[now.len() - 1] == (at, i));
            }
        }
    }
}

/// What is found in a range is in order, each match once, and is everything
/// that stands there.
pub proof fn matches_are_those(f: Seq<Format>, hay: Seq<u8>, from: int, to: int)
    requires
        0 <= from,
    ensures
        ascending(matches_in(f, hay, from, to)),
        forall|k: int|
            0 <= k < matches_in(f, hay, from, to).len() ==> {
                let p = #[trigger] matches_in(f, hay, from, to)[k];
                from <= p.0 < to && found(f, hay, p.0, p.1)
            },
        forall|at: int, i: int|
            from <= at < to && #[trigger] found(f, hay, at, i) ==> matches_in(
                f,
                hay,
                from,
                to,
            ).contains((at, i)),
    decreases to - from,
{
    if from < to {
        matches_are_those(f, hay, from, to - 1);
        let n = f.len() as int;
        found_at_is_that(f, hay, to - 1, n);
        let before = matches_in(f, hay, from, to - 1);
        let here = found_at(f, hay, to - 1, n);
        let now = matches_in(f, hay, from, to);
        assert forall|at: int, i: int|
            from <= at < to && #[trigger] found(f, hay, at, i) implies now.contains((at, i)) by {
            if at < to - 1 {
                assert(before.contains((at, i)));
                let k = choose|k: int| 0 <= k < before.len() && before[k] == (at, i);
                assert(now[k] == (at, i));
            } else {
                assert(here.contains((at, i)));
                let k = choose|k: int| 0 <= k < here.len() && here[k] == (at, i);
                assert(now[before.len() + k] == (at, i));
            }
        }
        assert forall|k: int| 0 <= k < now.len() implies ({
            let p = #[trigger] now[k];
            from <= p.0 < to && found(f, hay, p.0, p.1)
        }) by {
            if k < before.len() {
                assert(now[k] == before[k]);
            } else {
                assert(now[k] == here[k - before.len()]);
            }
        }
        assert forall|x: int, y: int| 0 <= x < y < now.len() implies precedes(
            #[trigger] now[x],
            #[trigger] now[y],
        ) by {
            if y < before.len() {
                assert(now[x] == before[x] && now[y] == before[y]);
            } else if x >= before.len() {
                assert(now[x] == here[x - before.len()] && now[y] == here[y - before.len()]);
            } else {
                assert(now[x] == before[x] && now[y] == here[y - before.len()]);
            }
        }
    }
}

/// What is found in a range is what is found in its two parts, one after the
/// other.
pub proof fn matches_add_up(f: Seq<Format>, hay: Seq<u8>, from: int, mid: int, to: int)
    requires
        from <= mid <= to,
    ensures
        matches_in(f, hay, from, to) == matches_in(f, hay, from, mid) + matches_in(
            f,
            hay,
            mid,
            to,
        ),
    decreases to - mid,
{
    if mid < to {
        matches_add_up(f, hay, from, mid, to - 1);
        assert(matches_in(f, hay, from, to) =~= matches_in(f, hay, from, mid) + matches_in(
            f,
            hay,
            mid,
            to,
        ));
    } else {
        assert(matches_in(f, hay, from, to) =~= matches_in(f, hay, from, mid) + matches_in(
            f,
            hay,
            mid,
            to,
        ));
    }
}

/// Two lists in order that hold the same are the same.
pub proof fn order_is_unique(a: Seq<(int, int)>, b: Seq<(int, int)>)
    requires
        ascending(a),
        ascending(b),
        forall|x: (int, int)| #[trigger] a.contains(x) <==> b.contains(x),
    ensures
        a == b,
    decreases a.len(),
{
    if a.len() == 0 {
        if b.len() > 0 {
            assert(b.contains(b[0]));
            assert(a.contains(b[0]));
        }
        assert(a =~= b);
    } else {
        assert(a.contains(a[0]));
        assert(b.contains(a[0]));
        assert(b.contains(b[0]));
        assert(a.contains(b[0]));
        let i = choose|i: int| 0 <= i < b.len() && b[i] == a[0];
        let j = choose|j: int| 0 <= j < a.len() && a[j] == b[0];
        if i > 0 {
            assert(precedes(b[0], b[i]));
            if j > 0 {
                assert(precedes(a[0], a[j]));
            }
        }
        assert(a[0] == b[0]);
        let ta = a.subrange(1, a.len() as int);
        let tb = b.subrange(1, b.len() as int);
        assert forall|x: (int, int)| #[trigger] ta.contains(x) <==> tb.contains(x) by {
            if ta.contains(x) {
                let k = choose|k: int| 0 <= k < ta.len() && ta[k] == x;
                assert(a[k + 1] == x);
                assert(precedes(a[0], a[k + 1]));
                assert(a.contains(x));
                assert(b.contains(x));
                let m = choose|m: int| 0 <= m < b.len() && b[m] == x;
                assert(m > 0);
                assert(tb[m - 1] == x);
            }
            if tb.contains(x) {
                let k = choose|k: int| 0 <= k < tb.len() && tb[k] == x;
                assert(b[k + 1] == x);
                assert(precedes(b[0], b[k + 1]));
                assert(b.contains(x));
                assert(a.contains(x));
                let m = choose|m: int| 0 <= m < a.len() && a[m] == x;
                assert(m > 0);
                assert(ta[m - 1] == x);
            }
        }
        assert forall|x: int, y: int| 0 <= x < y < ta.len() implies precedes(
            #[trigger] ta[x],
            #[trigger] ta[y],
        ) by {
            assert(precedes(a[x + 1], a[y + 1]));
        }
        assert forall|x: int, y: int| 0 <= x < y < tb.len() implies precedes(
            #[trigger] tb[x],
            #[trigger] tb[y],
        ) by {
            assert(precedes(b[x + 1], b[y + 1]));
        }
        order_is_unique(ta, tb);
        assert(a =~= seq![a[0]] + ta);
        assert(b =~= seq![b[0]] + tb);
    }
}

// ---------------------------------------------------------------------------
// Blocks
// ---------------------------------------------------------------------------

/// One read of a scan.
#[derive(Clone, Copy, Debug, PartialEq, Eq, Structural)]
pub struct BlockPlan {
    /// Bytes that belong to this block.
    pub owned: usize,
    /// Bytes to read: those, and enough past them that a header beginning at
    /// the last of them is seen whole.
    pub want: usize,
}

/// Plan the block at `pos` of a segment that ends at `end`, in a range that
/// ends at `read_end`. Blocks are owned up to `end`, but the overlap reads on
/// to `read_end`, so that the result does not depend on where a scan is split.
pub fn plan_block(
    pos: u64,
    end: u64,
    read_end: u64,
    block_bytes: usize,
    overlap: usize,
) -> (r: BlockPlan)
    requires
        pos < end <= read_end,
        block_bytes > 0,
        block_bytes + overlap <= usize::MAX,
    ensures
        r.owned == if block_bytes <= end - pos {
            block_bytes as int
        } else {
            end - pos
        },
        r.want == if block_bytes + overlap <= read_end - pos {
            block_bytes + overlap
        } else {
            read_end - pos
        },
        0 < r.owned,
{
    let left: u64 = end - pos;
    let readable: u64 = read_end - pos;
    let most: usize = block_bytes + overlap;
    let owned: usize = if block_bytes as u64 <= left {
        block_bytes
    } else {
        left as usize
    };
    let want: usize = if most as u64 <= readable {
        most
    } else {
        readable as usize
    };
    BlockPlan { owned, want }
}

/// How many bytes of `s`, of its first `n`, a prefilter flags.
pub open spec fn flagged(p: Prefilter, s: Seq<u8>, n: int) -> int
    decreases n,
{
    if n <= 0 {
        0
    } else {
        flagged(p, s, n - 1) + (if p.accepts(s[n - 1]) {
            1int
        } else {
            0int
        })
    }
}

/// The flagged positions below `n`.
spec fn flags(p: Prefilter, s: Seq<u8>, n: int) -> Set<usize>
    decreases n,
{
    if n <= 0 {
        Set::empty()
    } else if p.accepts(s[n - 1]) {
        flags(p, s, n - 1).insert((n - 1) as usize)
    } else {
        flags(p, s, n - 1)
    }
}

proof fn flags_count(p: Prefilter, s: Seq<u8>, n: int)
    requires
        0 <= n <= s.len() <= usize::MAX,
    ensures
        flags(p, s, n).finite(),
        flags(p, s, n).len() == flagged(p, s, n),
        forall|i: usize| #[trigger] flags(p, s, n).contains(i) <==> i < n && p.accepts(s[i as int]),
    decreases n,
{
    if n > 0 {
        flags_count(p, s, n - 1);
    }
}

/// The header matches of one block, and the positions that were looked at.
pub struct BlockMatches {
    pub hits: Vec<Hit>,
    pub prefilter_hits: u64,
}

/// Match the headers in one block, `hay`, whose first byte is at `start`. Only
/// candidates that begin in the `owned` part are claimed: one that begins in
/// the overlap belongs to the next block.
pub fn match_block(index: &ScanIndex<'_>, hay: &[u8], start: u64, owned: usize) -> (r: BlockMatches)
    requires
        index.wf(),
        index.lets_through(),
        start + hay@.len() <= u64::MAX,
    ensures
        spots(r.hits@).no_duplicates(),
        forall|at: int, i: int| #[trigger]
            spots(r.hits@).contains((at, i)) <==> start <= at < start + owned && found(
                index.formats(),
                hay@,
                at - start,
                i,
            ),
        r.prefilter_hits == flagged(index.filter(), hay@, hay@.len() as int),
{
    let positions: Vec<usize> = index.hits(hay);
    proof {
        flags_count(index.filter(), hay@, hay@.len() as int);
        positions@.unique_seq_to_set();
        assert(positions@.to_set() =~= flags(index.filter(), hay@, hay@.len() as int));
    }
    let mut hits: Vec<Hit> = Vec::new();
    let mut k: usize = 0;
    while k < positions.len()
        invariant
            k <= positions@.len(),
            index.wf(),
            start + hay@.len() <= u64::MAX,
            positions@.no_duplicates(),
            forall|i: usize| #[trigger]
                positions@.contains(i) ==> i < hay@.len(),
            spots(hits@).no_duplicates(),
            forall|at: int, i: int| #[trigger]
                spots(hits@).contains((at, i)) <==> resolved(
                    index.formats(),
                    hay@,
                    start as int,
                    owned as int,
                    positions@,
                    k as int,
                    at,
                    i,
                ),
        decreases positions@.len() - k,
    {
        assert(positions@.contains(positions@[k as int]));
        add_candidates(index, hay, start, owned, &positions, k, &mut hits);
        k += 1;
    }
    proof {
        let f = index.formats();
        assert forall|at: int, i: int| #[trigger]
            spots(hits@).contains((at, i)) <==> start <= at < start + owned && found(
            f,
            hay@,
            at - start,
            i,
        ) by {
            if start <= at < start + owned && found(f, hay@, at - start, i) {
                let hit = prefilter::lead(f[i], at - start);
                lead_is_flagged(*index, hay@, at - start, i);
                assert(positions@.contains(hit as usize));
                let m = choose|m: int| 0 <= m < positions@.len() && positions@[m] == hit as usize;
                assert(leads_to(f, hay@, start as int, owned as int, positions@, m, at, i));
            }
        }
    }
    BlockMatches { hits, prefilter_hits: positions.len() as u64 }
}

/// Whether the hit at position number `m` resolves to format `i` beginning at
/// `at`.
spec fn leads_to(
    f: Seq<Format>,
    hay: Seq<u8>,
    start: int,
    owned: int,
    positions: Seq<usize>,
    m: int,
    at: int,
    i: int,
) -> bool {
    &&& start <= at < start + owned
    &&& found(f, hay, at - start, i)
    &&& positions[m] == prefilter::lead(f[i], at - start)
}

/// Whether one of the first `k` hits resolves to format `i` beginning at `at`.
spec fn resolved(
    f: Seq<Format>,
    hay: Seq<u8>,
    start: int,
    owned: int,
    positions: Seq<usize>,
    k: int,
    at: int,
    i: int,
) -> bool {
    exists|m: int|
        0 <= m < k && #[trigger] leads_to(f, hay, start, owned, positions, m, at, i)
}

proof fn lead_is_flagged(index: ScanIndex<'_>, hay: Seq<u8>, at: int, i: int)
    requires
        index.lets_through(),
        found(index.formats(), hay, at, i),
    ensures
        ({
            let hit = prefilter::lead(index.formats()[i], at);
            0 <= hit < hay.len() && index.filter().accepts(hay[hit])
        }),
{
    let f = index.formats();
    if f[i].header.len() > 0 {
        prefilter::no_header_is_missed(index, hay, at, i);
    } else {
        if f[i].anchor() is Some {
            let k = choose|k: int| f[i].anchored_at(k);
            assert(f[i].exact(k));
        }
        assert(f[i].anchor() is None);
    }
}

/// Add what the hit at position number `k` resolves to.
fn add_candidates(
    index: &ScanIndex<'_>,
    hay: &[u8],
    start: u64,
    owned: usize,
    positions: &Vec<usize>,
    k: usize,
    hits: &mut Vec<Hit>,
)
    requires
        index.wf(),
        start + hay@.len() <= u64::MAX,
        k < positions@.len(),
        positions@.no_duplicates(),
        positions@[k as int] < hay@.len(),
        spots(old(hits)@).no_duplicates(),
        forall|at: int, i: int| #[trigger]
            spots(old(hits)@).contains((at, i)) <==> resolved(
                index.formats(),
                hay@,
                start as int,
                owned as int,
                positions@,
                k as int,
                at,
                i,
            ),
    ensures
        spots(final(hits)@).no_duplicates(),
        forall|at: int, i: int| #[trigger]
            spots(final(hits)@).contains((at, i)) <==> resolved(
                index.formats(),
                hay@,
                start as int,
                owned as int,
                positions@,
                k + 1,
                at,
                i,
            ),
{
    let ghost f = index.formats();
    let ghost before = spots(hits@);
    let hit: usize = positions[k];
    let found_here = index.candidates_at(hay, hit);
    let ghost here = prefilter::places(found_here@);
    proof {
        prefilter::a_hit_is_resolved(f, hay@, hit as int, 0, 0);
    }
    let mut j: usize = 0;
    while j < found_here.len()
        invariant
            j <= found_here@.len(),
            f == index.formats(),
            hit == positions@[k as int],
            hit < hay@.len(),
            k < positions@.len(),
            positions@.no_duplicates(),
            start + hay@.len() <= u64::MAX,
            here == prefilter::places(found_here@),
            here == prefilter::candidates(f, hay@, hit as int),
            here.no_duplicates(),
            spots(hits@).no_duplicates(),
            forall|at: int, i: int| #[trigger]
                before.contains((at, i)) <==> resolved(
                    f,
                    hay@,
                    start as int,
                    owned as int,
                    positions@,
                    k as int,
                    at,
                    i,
                ),
            forall|at: int, i: int| #[trigger]
                spots(hits@).contains((at, i)) <==> before.contains((at, i)) || (start <= at < start
                    + owned && here.subrange(0, j as int).contains((at - start, i))),
        decreases found_here@.len() - j,
    {
        let (_, rel, sig): (_, usize, usize) = found_here[j];
        let ghost now = here.subrange(0, j + 1);
        let ghost past = here.subrange(0, j as int);
        assert(here[j as int] == (rel as int, sig as int));
        proof {
            assert(now =~= past.push((rel as int, sig as int)));
            assert forall|x: (int, int)| #[trigger]
                now.contains(x) <==> past.contains(x) || x == (rel as int, sig as int) by {
                if past.contains(x) {
                    let m = choose|m: int| 0 <= m < past.len() && past[m] == x;
                    assert(now[m] == x);
                }
                if x == (rel as int, sig as int) {
                    assert(now[j as int] == x);
                }
                if now.contains(x) {
                    let m = choose|m: int| 0 <= m < now.len() && now[m] == x;
                    if m < j {
                        assert(past[m] == x);
                    }
                }
            }
            // What this hit resolves to is resolved to by no other.
            prefilter::a_hit_is_resolved(f, hay@, hit as int, rel as int, sig as int);
            assert(here.contains(here[j as int]));
            if before.contains((start + rel, sig as int)) {
                let m = choose|m: int|
                    0 <= m < k && #[trigger] leads_to(
                        f,
                        hay@,
                        start as int,
                        owned as int,
                        positions@,
                        m,
                        start + rel,
                        sig as int,
                    );
                assert(positions@[m] == positions@[k as int]);
            }
            if past.contains((rel as int, sig as int)) {
                let m = choose|m: int|
                    0 <= m < past.len() && past[m] == (rel as int, sig as int);
                assert(here[m] == here[j as int]);
            }
        }
        if rel < owned {
            let ghost was = spots(hits@);
            hits.push(Hit { offset: start + rel as u64, sig });
            proof {
                let p = (start + rel, sig as int);
                assert(spots(hits@) =~= was.push(p));
                assert(!was.contains(p));
                added(was, p);
            }
        }
        j += 1;
    }
    proof {
        assert(here.subrange(0, j as int) =~= here);
        assert forall|at: int, i: int| #[trigger]
            spots(hits@).contains((at, i)) <==> resolved(
            f,
            hay@,
            start as int,
            owned as int,
            positions@,
            k + 1,
            at,
            i,
        ) by {
            prefilter::a_hit_is_resolved(f, hay@, hit as int, at - start, i);
            if start <= at < start + owned && here.contains((at - start, i)) {
                assert(leads_to(
                    f,
                    hay@,
                    start as int,
                    owned as int,
                    positions@,
                    k as int,
                    at,
                    i,
                ));
            }
        }
    }
}

proof fn added(was: Seq<(int, int)>, p: (int, int))
    requires
        was.no_duplicates(),
        !was.contains(p),
    ensures
        was.push(p).no_duplicates(),
        forall|x: (int, int)| #[trigger] was.push(p).contains(x) <==> was.contains(x) || x == p,
{
    let now = was.push(p);
    assert forall|x: (int, int)| #[trigger] now.contains(x) <==> was.contains(x) || x == p by {
        if was.contains(x) {
            let m = choose|m: int| 0 <= m < was.len() && was[m] == x;
            assert(now[m] == x);
        }
        if x == p {
            assert(now[was.len() as int] == x);
        }
        if now.contains(x) && x != p {
            let m = choose|m: int| 0 <= m < now.len() && now[m] == x;
            assert(was[m] == x);
        }
    }
}

/// A block sees what the whole region shows: reading `want` bytes at `pos`,
/// where no header reaches further than the overlap, finds at each owned
/// offset what reading on to the end of the range would.
pub proof fn a_block_sees_enough(
    f: Seq<Format>,
    hay: Seq<u8>,
    pos: int,
    owned: int,
    want: int,
    at: int,
    i: int,
)
    requires
        0 <= pos <= hay.len(),
        0 <= at < owned,
        0 <= i < f.len(),
        f[i].header.len() > 0,
        pos + want <= hay.len(),
        pos + want == hay.len() || owned + f[i].span() - 1 <= want,
    ensures
        found(f, hay.subrange(pos, pos + want), at, i) <==> found(f, hay, pos + at, i),
{
    let part = hay.subrange(pos, pos + want);
    if pos + at + f[i].span() <= hay.len() {
        assert(at + f[i].span() <= part.len());
        assert forall|j: int| 0 <= j < f[i].header.len() implies #[trigger] f[i].agrees(
            j,
            part[at + f[i].header_offset + j],
        ) == f[i].agrees(j, hay[pos + at + f[i].header_offset + j]) by {}
        if f[i].stands(part, at) {
            assert forall|j: int| 0 <= j < f[i].header.len() implies #[trigger] f[i].agrees(
                j,
                hay[pos + at + f[i].header_offset + j],
            ) by {
                assert(f[i].agrees(j, part[at + f[i].header_offset + j]));
            }
            prefilter::a_lead_is_inside(f[i], part, at);
            prefilter::a_lead_is_inside(f[i], hay, pos + at);
        }
        if f[i].stands(hay, pos + at) {
            assert forall|j: int| 0 <= j < f[i].header.len() implies #[trigger] f[i].agrees(
                j,
                part[at + f[i].header_offset + j],
            ) by {
                assert(f[i].agrees(j, hay[pos + at + f[i].header_offset + j]));
            }
            prefilter::a_lead_is_inside(f[i], part, at);
            prefilter::a_lead_is_inside(f[i], hay, pos + at);
        }
    }
}

// ---------------------------------------------------------------------------
// Order
// ---------------------------------------------------------------------------

/// Whether hit `a` may stand before hit `b`.
spec fn no_later(a: Hit, b: Hit) -> bool {
    a.offset < b.offset || (a.offset == b.offset && a.sig <= b.sig)
}

/// Whether hits are in device order, by signature where they share an offset.
pub closed spec fn in_order(s: Seq<Hit>) -> bool {
    forall|i: int, j: int| 0 <= i < j < s.len() ==> no_later(#[trigger] s[i], #[trigger] s[j])
}

fn goes_first(a: &Hit, b: &Hit) -> (r: bool)
    ensures
        r == no_later(*a, *b),
{
    a.offset < b.offset || (a.offset == b.offset && a.sig <= b.sig)
}

/// Put hits in device order, ties broken by signature.
pub fn sort_hits(hits: Vec<Hit>) -> (r: Vec<Hit>)
    ensures
        in_order(r@),
        r@.to_multiset() == hits@.to_multiset(),
    decreases hits@.len(),
{
    let n: usize = hits.len();
    if n < 2 {
        return hits;
    }
    let ghost all = hits@;
    let mut left = hits;
    let right = left.split_off(n / 2);
    proof {
        assert(all =~= left@ + right@);
        vstd::seq_lib::lemma_multiset_commutative(left@, right@);
    }
    let left = sort_hits(left);
    let right = sort_hits(right);
    merge(&left, &right)
}

proof fn merged_one(was: Seq<Hit>, x: Hit, a: Seq<Hit>, b: Seq<Hit>)
    requires
        was.to_multiset() == a.to_multiset().add(b.to_multiset()),
    ensures
        was.push(x).to_multiset() == a.push(x).to_multiset().add(b.to_multiset()),
        was.push(x).to_multiset() == a.to_multiset().add(b.push(x).to_multiset()),
{
    broadcast use vstd::seq_lib::group_to_multiset_ensures;
    broadcast use vstd::multiset::group_multiset_axioms;

    assert(was.push(x).to_multiset() =~= was.to_multiset().insert(x));
    assert(a.push(x).to_multiset() =~= a.to_multiset().insert(x));
    assert(b.push(x).to_multiset() =~= b.to_multiset().insert(x));
    assert(was.push(x).to_multiset() =~= a.push(x).to_multiset().add(b.to_multiset()));
    assert(was.push(x).to_multiset() =~= a.to_multiset().add(b.push(x).to_multiset()));
}

fn merge(a: &Vec<Hit>, b: &Vec<Hit>) -> (r: Vec<Hit>)
    requires
        in_order(a@),
        in_order(b@),
    ensures
        in_order(r@),
        r@.to_multiset() == a@.to_multiset().add(b@.to_multiset()),
{
    broadcast use vstd::seq_lib::group_to_multiset_ensures;
    broadcast use vstd::multiset::group_multiset_axioms;

    let mut out: Vec<Hit> = Vec::new();
    let mut i: usize = 0;
    let mut j: usize = 0;
    assert(a@.subrange(0, 0) =~= Seq::<Hit>::empty());
    assert(b@.subrange(0, 0) =~= Seq::<Hit>::empty());
    assert(out@.to_multiset() =~= a@.subrange(0, 0).to_multiset().add(
        b@.subrange(0, 0).to_multiset(),
    ));
    while i < a.len() || j < b.len()
        invariant
            i <= a@.len(),
            j <= b@.len(),
            in_order(a@),
            in_order(b@),
            in_order(out@),
            forall|x: int, y: int|
                0 <= x < out@.len() && i <= y < a@.len() ==> no_later(
                    #[trigger] out@[x],
                    #[trigger] a@[y],
                ),
            forall|x: int, y: int|
                0 <= x < out@.len() && j <= y < b@.len() ==> no_later(
                    #[trigger] out@[x],
                    #[trigger] b@[y],
                ),
            out@.to_multiset() == a@.subrange(0, i as int).to_multiset().add(
                b@.subrange(0, j as int).to_multiset(),
            ),
        decreases a@.len() - i + b@.len() - j,
    {
        let first: bool = j >= b.len() || (i < a.len() && goes_first(&a[i], &b[j]));
        let ghost was = out@;
        if first {
            assert(a@.subrange(0, i + 1) =~= a@.subrange(0, i as int).push(a@[i as int]));
            proof {
                merged_one(was, a@[i as int], a@.subrange(0, i as int), b@.subrange(0, j as int));
            }
            out.push(a[i]);
            i += 1;
        } else {
            assert(b@.subrange(0, j + 1) =~= b@.subrange(0, j as int).push(b@[j as int]));
            proof {
                merged_one(was, b@[j as int], a@.subrange(0, i as int), b@.subrange(0, j as int));
            }
            out.push(b[j]);
            j += 1;
        }
        assert(out@ == was.push(out@.last()));
    }
    assert(a@.subrange(0, i as int) =~= a@);
    assert(b@.subrange(0, j as int) =~= b@);
    out
}

/// Hits that are in order and hold each match of a range once are the matches
/// of the range.
pub proof fn ordered_hits_are_matches(
    hits: Seq<Hit>,
    raw: Seq<Hit>,
    f: Seq<Format>,
    hay: Seq<u8>,
    from: int,
    to: int,
)
    requires
        0 <= from,
        in_order(hits),
        hits.to_multiset() == raw.to_multiset(),
        spots(raw).no_duplicates(),
        forall|at: int, i: int| #[trigger]
            spots(raw).contains((at, i)) <==> from <= at < to && found(f, hay, at, i),
    ensures
        spots(hits) == matches_in(f, hay, from, to),
{
    broadcast use vstd::seq_lib::group_to_multiset_ensures;

    let s = spots(hits);
    let want = matches_in(f, hay, from, to);
    matches_are_those(f, hay, from, to);
    // Each hit occurs once in the raw list, and so once in the ordered one.
    assert(raw.no_duplicates()) by {
        assert forall|x: int, y: int| 0 <= x < raw.len() && 0 <= y < raw.len() && x
            != y implies raw[x] != raw[y] by {
            assert(spots(raw)[x] != spots(raw)[y]);
        }
    }
    raw.lemma_multiset_has_no_duplicates();
    hits.lemma_multiset_has_no_duplicates_conv();
    assert(ascending(s)) by {
        assert forall|x: int, y: int| 0 <= x < y < s.len() implies precedes(
            #[trigger] s[x],
            #[trigger] s[y],
        ) by {
            assert(no_later(hits[x], hits[y]));
            assert(hits[x] != hits[y]);
        }
    }
    assert forall|x: (int, int)| #[trigger] s.contains(x) <==> want.contains(x) by {
        if s.contains(x) {
            let k = choose|k: int| 0 <= k < s.len() && s[k] == x;
            assert(hits.contains(hits[k]));
            assert(hits.to_multiset().count(hits[k]) > 0);
            assert(raw.contains(hits[k]));
            let m = choose|m: int| 0 <= m < raw.len() && raw[m] == hits[k];
            assert(spots(raw)[m] == x);
            assert(spots(raw).contains((x.0, x.1)));
        }
        if want.contains(x) {
            let k = choose|k: int| 0 <= k < want.len() && want[k] == x;
            assert(found(f, hay, x.0, x.1));
            assert(spots(raw).contains((x.0, x.1)));
            let m = choose|m: int| 0 <= m < raw.len() && spots(raw)[m] == x;
            assert(raw.contains(raw[m]));
            assert(raw.to_multiset().count(raw[m]) > 0);
            assert(hits.contains(raw[m]));
            let j = choose|j: int| 0 <= j < hits.len() && hits[j] == raw[m];
            assert(s[j] == x);
        }
    }
    order_is_unique(s, want);
}

} // verus!
