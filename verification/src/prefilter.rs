//! Finding the bytes worth looking at, quickly.
//!
//! Comparing every signature at every offset is hopeless. Each signature has
//! an anchor, its rarest byte, and the full comparison is made only where an
//! anchor stands. Up to three distinct anchors one pass of `memchr` finds them
//! all; up to [`MEMCHR_MAX_NEEDLES`] several passes do; beyond that one pass
//! over a 256-entry table is faster. Which strategy is chosen never changes
//! which offsets are found.

use vstd::prelude::*;
use vstd::array::*;
use vstd::slice::*;
use crate::bytes;
use crate::search;
use crate::signature;
use crate::signature::{Format, Signature, SignatureDb};

verus! {

broadcast use bytes::slice_fits;

/// Above this many distinct anchors, one table pass beats several `memchr`
/// passes.
pub const MEMCHR_MAX_NEEDLES: usize = 5;

/// How to locate positions worth a full signature comparison.
#[derive(Debug)]
pub enum Prefilter {
    /// Nothing can be prefiltered: every offset must be considered.
    Everything,
    One(u8),
    Two(u8, u8),
    Three(u8, u8, u8),
    /// Four to `MEMCHR_MAX_NEEDLES` distinct bytes, searched in several passes.
    Multi(Vec<u8>),
    /// `true` at index b means byte b can begin a match.
    Table(Box<[bool; 256]>),
}

/// The bytes below `n` that occur in `bytes`, in ascending order.
pub open spec fn distinct_below(bytes: Seq<u8>, n: int) -> Seq<u8>
    decreases n,
{
    if n <= 0 {
        Seq::empty()
    } else if bytes.contains((n - 1) as u8) {
        distinct_below(bytes, n - 1).push((n - 1) as u8)
    } else {
        distinct_below(bytes, n - 1)
    }
}

/// The distinct bytes of `bytes`, in ascending order.
pub open spec fn distinct(bytes: Seq<u8>) -> Seq<u8> {
    distinct_below(bytes, 256)
}

/// The indices below `n` that a table marks.
pub open spec fn marked_below(t: Seq<bool>, n: int) -> Seq<u8>
    decreases n,
{
    if n <= 0 {
        Seq::empty()
    } else if t[n - 1] {
        marked_below(t, n - 1).push((n - 1) as u8)
    } else {
        marked_below(t, n - 1)
    }
}

proof fn distinct_are_those(bytes: Seq<u8>, n: int)
    requires
        0 <= n <= 256,
    ensures
        distinct_below(bytes, n).len() <= n,
        forall|i: int|
            0 <= i < distinct_below(bytes, n).len() ==> #[trigger] distinct_below(bytes, n)[i] < n
                && bytes.contains(distinct_below(bytes, n)[i]),
        forall|b: u8|
            b < n && bytes.contains(b) ==> #[trigger] distinct_below(bytes, n).contains(b),
        forall|i: int, j: int|
            0 <= i < j < distinct_below(bytes, n).len() ==> #[trigger] distinct_below(bytes, n)[i]
                < #[trigger] distinct_below(bytes, n)[j],
    decreases n,
{
    if n > 0 {
        distinct_are_those(bytes, n - 1);
        let before = distinct_below(bytes, n - 1);
        let now = distinct_below(bytes, n);
        assert forall|b: u8| b < n && bytes.contains(b) implies #[trigger] now.contains(b) by {
            if b < n - 1 {
                let i = choose|i: int| 0 <= i < before.len() && before[i] == b;
                assert(before.contains(b));
                assert(now[i] == b);
            } else {
                assert(now[now.len() - 1] == b);
            }
        }
    }
}

/// The distinct bytes of a list are its bytes, each once, in ascending order.
pub proof fn distinct_bytes(bytes: Seq<u8>)
    ensures
        forall|b: u8| #[trigger] distinct(bytes).contains(b) <==> bytes.contains(b),
        forall|i: int, j: int|
            0 <= i < j < distinct(bytes).len() ==> #[trigger] distinct(bytes)[i]
                < #[trigger] distinct(bytes)[j],
{
    distinct_are_those(bytes, 256);
    assert forall|b: u8| #[trigger] distinct(bytes).contains(b) implies bytes.contains(b) by {
        let i = choose|i: int| 0 <= i < distinct(bytes).len() && distinct(bytes)[i] == b;
        assert(bytes.contains(distinct_below(bytes, 256)[i]));
    }
}

impl Prefilter {
    /// Whether a byte is worth a full comparison.
    pub open spec fn accepts(self, b: u8) -> bool {
        match self {
            Prefilter::Everything => true,
            Prefilter::One(a) => b == a,
            Prefilter::Two(a, c) => b == a || b == c,
            Prefilter::Three(a, c, d) => b == a || b == c || b == d,
            Prefilter::Multi(v) => v@.contains(b),
            Prefilter::Table(t) => (*t)@[b as int],
        }
    }

    /// The bytes searched for; `None` where every offset is considered.
    pub open spec fn searched(self) -> Option<Seq<u8>> {
        match self {
            Prefilter::Everything => None,
            Prefilter::One(a) => Some(seq![a]),
            Prefilter::Two(a, b) => Some(seq![a, b]),
            Prefilter::Three(a, b, c) => Some(seq![a, b, c]),
            Prefilter::Multi(v) => Some(v@),
            Prefilter::Table(t) => Some(marked_below((*t)@, 256)),
        }
    }

    /// Whether no byte is searched for twice.
    pub open spec fn wf(self) -> bool {
        self matches Prefilter::Multi(v) ==> v@.no_duplicates()
    }

    /// The name of the strategy.
    pub open spec fn named(self) -> Seq<char> {
        match self {
            Prefilter::Everything => "every-offset"@,
            Prefilter::One(_) => "memchr"@,
            Prefilter::Two(_, _) => "memchr2"@,
            Prefilter::Three(_, _, _) => "memchr3"@,
            Prefilter::Multi(_) => "memchr3-multipass"@,
            Prefilter::Table(_) => "byte-table"@,
        }
    }

    /// Whether the strategy is the one for `n` distinct bytes.
    pub open spec fn suits(self, n: nat) -> bool {
        if n == 0 {
            self is Everything
        } else if n == 1 {
            self is One
        } else if n == 2 {
            self is Two
        } else if n == 3 {
            self is Three
        } else if n <= MEMCHR_MAX_NEEDLES {
            self is Multi
        } else {
            self is Table
        }
    }

    /// Build the prefilter for a set of leading bytes.
    pub fn for_bytes(bytes: &[u8]) -> (r: Prefilter)
        ensures
            r.suits(distinct(bytes@).len()),
            distinct(bytes@).len() > 0 ==> r.searched() == Some(distinct(bytes@)),
            r.wf(),
            forall|b: u8|
                #[trigger] r.accepts(b) <==> bytes@.contains(b) || distinct(bytes@).len() == 0,
    {
        let (t, v): ([bool; 256], Vec<u8>) = present(bytes);
        proof {
            distinct_bytes(bytes@);
            same_list(bytes@, t@, 256);
        }
        let n: usize = v.len();
        let ghost all = v@;
        let r = if n == 0 {
            Prefilter::Everything
        } else if n == 1 {
            assert(v@ =~= seq![v@[0]]);
            Prefilter::One(v[0])
        } else if n == 2 {
            assert(v@ =~= seq![v@[0], v@[1]]);
            Prefilter::Two(v[0], v[1])
        } else if n == 3 {
            assert(v@ =~= seq![v@[0], v@[1], v@[2]]);
            Prefilter::Three(v[0], v[1], v[2])
        } else if n <= MEMCHR_MAX_NEEDLES {
            Prefilter::Multi(v)
        } else {
            Prefilter::Table(Box::new(t))
        };
        assert forall|b: u8| #[trigger] r.accepts(b) <==> bytes@.contains(b) || n == 0 by {
            if n > 0 {
                accepts_what_it_searches(r, all, b);
                assert(distinct(bytes@).contains(b) <==> bytes@.contains(b));
            }
        }
        r
    }

    /// Is this byte worth a full comparison?
    pub fn matches(&self, b: u8) -> (r: bool)
        ensures
            r == self.accepts(b),
    {
        match self {
            Prefilter::Everything => true,
            Prefilter::One(a) => b == *a,
            Prefilter::Two(a, c) => b == *a || b == *c,
            Prefilter::Three(a, c, d) => b == *a || b == *c || b == *d,
            Prefilter::Multi(v) => {
                let mut i: usize = 0;
                while i < v.len()
                    invariant
                        *self == Prefilter::Multi(*v),
                        i <= v@.len(),
                        forall|j: int| 0 <= j < i ==> v@[j] != b,
                    decreases v@.len() - i,
                {
                    if v[i] == b {
                        assert(v@[i as int] == b);
                        return true;
                    }
                    i += 1;
                }
                false
            },
            Prefilter::Table(t) => t[b as usize],
        }
    }

    /// Whether this uses the vectorised path.
    pub fn is_simd(&self) -> (r: bool)
        ensures
            r == !(self is Table || self is Everything),
    {
        match self {
            Prefilter::Everything => false,
            Prefilter::Table(_) => false,
            _ => true,
        }
    }

    /// Distinct bytes this prefilter searches for. `None` when it searches for
    /// everything.
    pub fn needles(&self) -> (r: Option<Vec<u8>>)
        ensures
            signature::some_bytes(r) == self.searched(),
    {
        match self {
            Prefilter::Everything => None,
            Prefilter::One(a) => {
                let v: Vec<u8> = vec![*a];
                assert(v@ =~= seq![*a]);
                Some(v)
            },
            Prefilter::Two(a, b) => {
                let v: Vec<u8> = vec![*a, *b];
                assert(v@ =~= seq![*a, *b]);
                Some(v)
            },
            Prefilter::Three(a, b, c) => {
                let v: Vec<u8> = vec![*a, *b, *c];
                assert(v@ =~= seq![*a, *b, *c]);
                Some(v)
            },
            Prefilter::Multi(v) => {
                let w: Vec<u8> = v.clone();
                assert(w@ =~= v@);
                Some(w)
            },
            Prefilter::Table(t) => {
                let mut v: Vec<u8> = Vec::new();
                let mut b: usize = 0;
                while b < 256
                    invariant
                        b <= 256,
                        v@ == marked_below((*t)@, b as int),
                    decreases 256 - b,
                {
                    if t[b] {
                        v.push(b as u8);
                    }
                    b += 1;
                }
                Some(v)
            },
        }
    }

    pub fn strategy(&self) -> (r: &'static str)
        ensures
            r@ == self.named(),
    {
        match self {
            Prefilter::Everything => "every-offset",
            Prefilter::One(_) => "memchr",
            Prefilter::Two(_, _) => "memchr2",
            Prefilter::Three(_, _, _) => "memchr3",
            Prefilter::Multi(_) => "memchr3-multipass",
            Prefilter::Table(_) => "byte-table",
        }
    }

    /// Every offset in `hay` whose byte can begin a match, each once.
    ///
    /// The order is unspecified: the multi-pass strategy finds offsets grouped
    /// by byte, and sorting them would cost more than the passes save.
    pub fn for_each_hit(&self, hay: &[u8]) -> (r: Vec<usize>)
        requires
            self.wf(),
        ensures
            r@.no_duplicates(),
            forall|i: usize|
                #[trigger] r@.contains(i) <==> i < hay@.len() && self.accepts(hay@[i as int]),
    {
        let mut out: Vec<usize> = Vec::new();
        match self {
            Prefilter::Everything => {
                let mut i: usize = 0;
                while i < hay.len()
                    invariant
                        i <= hay@.len(),
                        holds_below(out@, i as int, |k: int| true),
                    decreases hay@.len() - i,
                {
                    take(&mut out, i, Ghost(|k: int| true));
                    i += 1;
                }
            },
            Prefilter::One(a) => {
                sweep(hay, *a, *a, *a, 1, &mut out);
            },
            Prefilter::Two(a, b) => {
                sweep(hay, *a, *b, *b, 2, &mut out);
            },
            Prefilter::Three(a, b, c) => {
                sweep(hay, *a, *b, *c, 3, &mut out);
            },
            Prefilter::Multi(v) => {
                let mut k: usize = 0;
                while k < v.len()
                    invariant
                        k <= v@.len(),
                        v@.no_duplicates(),
                        out@.no_duplicates(),
                        forall|i: usize| #[trigger]
                            out@.contains(i) <==> i < hay@.len() && v@.subrange(
                                0,
                                k as int,
                            ).contains(hay@[i as int]),
                    decreases v@.len() - k,
                {
                    let left: usize = v.len() - k;
                    let a: u8 = v[k];
                    let b: u8 = if left > 1 {
                        v[k + 1]
                    } else {
                        a
                    };
                    let c: u8 = if left > 2 {
                        v[k + 2]
                    } else {
                        a
                    };
                    let next: usize = if left > 3 {
                        k + 3
                    } else {
                        v.len()
                    };
                    proof {
                        one_pass(v@, k as int, next as int, a, b, c);
                    }
                    sweep(hay, a, b, c, 3, &mut out);
                    k = next;
                }
                assert(v@.subrange(0, k as int) =~= v@);
            },
            Prefilter::Table(t) => {
                let mut i: usize = 0;
                while i < hay.len()
                    invariant
                        i <= hay@.len(),
                        holds_below(out@, i as int, |k: int| (*t)@[hay@[k] as int]),
                    decreases hay@.len() - i,
                {
                    if t[hay[i] as usize] {
                        take(&mut out, i, Ghost(|k: int| (*t)@[hay@[k] as int]));
                    } else {
                        proof {
                            leave(out@, i as int, |k: int| (*t)@[hay@[k] as int]);
                        }
                    }
                    i += 1;
                }
            },
        }
        out
    }
}

/// Two strategies for the same bytes accept the same bytes, and so find the
/// same offsets.
pub proof fn strategies_agree(p: Prefilter, q: Prefilter, bytes: Seq<u8>, b: u8)
    requires
        p.searched() == Some(bytes),
        q.searched() == Some(bytes),
    ensures
        p.accepts(b) == q.accepts(b),
        p.accepts(b) == bytes.contains(b),
{
    accepts_what_it_searches(p, bytes, b);
    accepts_what_it_searches(q, bytes, b);
}

proof fn accepts_what_it_searches(p: Prefilter, bytes: Seq<u8>, b: u8)
    requires
        p.searched() == Some(bytes),
    ensures
        p.accepts(b) == bytes.contains(b),
{
    match p {
        Prefilter::One(a) => {
            assert(bytes[0] == a);
        },
        Prefilter::Two(a, c) => {
            assert(bytes[0] == a && bytes[1] == c);
        },
        Prefilter::Three(a, c, d) => {
            assert(bytes[0] == a && bytes[1] == c && bytes[2] == d);
        },
        Prefilter::Table(t) => {
            marked_are_those((*t)@, 256, b);
        },
        _ => {},
    }
}

proof fn marked_are_those(t: Seq<bool>, n: int, b: u8)
    requires
        0 <= n <= 256,
        t.len() == 256,
    ensures
        marked_below(t, n).contains(b) <==> b < n && t[b as int],
    decreases n,
{
    if n > 0 {
        marked_are_those(t, n - 1, b);
        let before = marked_below(t, n - 1);
        let now = marked_below(t, n);
        if before.contains(b) {
            let i = choose|i: int| 0 <= i < before.len() && before[i] == b;
            assert(now[i] == b);
        }
        if now.contains(b) && b != n - 1 {
            let i = choose|i: int| 0 <= i < now.len() && now[i] == b;
            assert(before[i] == b);
        }
        if b == n - 1 && t[n - 1] {
            assert(now[now.len() - 1] == b);
        }
    }
}

proof fn same_list(bytes: Seq<u8>, t: Seq<bool>, n: int)
    requires
        0 <= n <= 256,
        t.len() == 256,
        forall|b: u8| #[trigger] t[b as int] <==> bytes.contains(b),
    ensures
        marked_below(t, n) == distinct_below(bytes, n),
    decreases n,
{
    if n > 0 {
        same_list(bytes, t, n - 1);
        assert(t[((n - 1) as u8) as int] == bytes.contains((n - 1) as u8));
    }
}

/// The bytes that occur: as a table, and as a list.
fn present(bytes: &[u8]) -> (r: ([bool; 256], Vec<u8>))
    ensures
        forall|b: u8| #[trigger] r.0@[b as int] <==> bytes@.contains(b),
        r.1@ == distinct(bytes@),
{
    let mut t: [bool; 256] = [false;256];
    let mut i: usize = 0;
    while i < bytes.len()
        invariant
            i <= bytes@.len(),
            forall|b: u8| #[trigger] t@[b as int] <==> bytes@.subrange(0, i as int).contains(b),
        decreases bytes@.len() - i,
    {
        proof {
            let now = bytes@.subrange(0, i + 1);
            let before = bytes@.subrange(0, i as int);
            assert(now =~= before.push(bytes@[i as int]));
            assert forall|b: u8| #[trigger]
                now.contains(b) <==> before.contains(b) || b == bytes@[i as int] by {
                if before.contains(b) {
                    let k = choose|k: int| 0 <= k < before.len() && before[k] == b;
                    assert(now[k] == b);
                }
                if b == bytes@[i as int] {
                    assert(now[i as int] == b);
                }
            }
        }
        t[bytes[i] as usize] = true;
        i += 1;
    }
    assert(bytes@.subrange(0, i as int) =~= bytes@);
    let mut v: Vec<u8> = Vec::new();
    let mut b: usize = 0;
    while b < 256
        invariant
            b <= 256,
            forall|b: u8| #[trigger] t@[b as int] <==> bytes@.contains(b),
            v@ == distinct_below(bytes@, b as int),
        decreases 256 - b,
    {
        assert(t@[(b as u8) as int] == bytes@.contains(b as u8));
        if t[b] {
            v.push(b as u8);
        }
        b += 1;
    }
    (t, v)
}

/// Whether `out` holds exactly the offsets below `end` at which `p` holds, in
/// ascending order.
spec fn holds_below(out: Seq<usize>, end: int, p: spec_fn(int) -> bool) -> bool {
    &&& out.no_duplicates()
    &&& forall|i: usize| #[trigger] out.contains(i) <==> i < end && p(i as int)
}

fn take(out: &mut Vec<usize>, i: usize, Ghost(p): Ghost<spec_fn(int) -> bool>)
    requires
        holds_below(old(out)@, i as int, p),
        p(i as int),
    ensures
        holds_below(final(out)@, i + 1, p),
{
    let ghost before = out@;
    out.push(i);
    proof {
        pushed(before, i);
    }
}

proof fn leave(out: Seq<usize>, i: int, p: spec_fn(int) -> bool)
    requires
        holds_below(out, i, p),
        !p(i),
    ensures
        holds_below(out, i + 1, p),
{
}

proof fn pushed(before: Seq<usize>, i: usize)
    requires
        before.no_duplicates(),
        !before.contains(i),
    ensures
        before.push(i).no_duplicates(),
        forall|k: usize| #[trigger] before.push(i).contains(k) <==> before.contains(k) || k == i,
{
    let now = before.push(i);
    assert forall|k: usize| #[trigger] now.contains(k) <==> before.contains(k) || k == i by {
        if before.contains(k) {
            let j = choose|j: int| 0 <= j < before.len() && before[j] == k;
            assert(now[j] == k);
        }
        if k == i {
            assert(now[before.len() as int] == k);
        }
        if now.contains(k) && k != i {
            let j = choose|j: int| 0 <= j < now.len() && now[j] == k;
            assert(before[j] == k);
        }
    }
}

fn first_among(hay: &[u8], a: u8, b: u8, c: u8, n: usize) -> (r: Option<usize>)
    requires
        n == 1 ==> b == a && c == a,
        n == 2 ==> c == b,
    ensures
        match r {
            Some(i) => search::first_of(hay@, a, b, c, i as int),
            None => search::none_of(hay@, a, b, c, hay@.len() as int),
        },
{
    if n == 1 {
        search::byte(a, hay)
    } else if n == 2 {
        search::byte2(a, b, hay)
    } else {
        search::byte3(a, b, c, hay)
    }
}

/// Add every offset at which one of three bytes stands.
fn sweep(hay: &[u8], a: u8, b: u8, c: u8, n: usize, out: &mut Vec<usize>)
    requires
        n == 1 ==> b == a && c == a,
        n == 2 ==> c == b,
        old(out)@.no_duplicates(),
        forall|i: usize| #[trigger]
            old(out)@.contains(i) ==> i < hay@.len() && hay@[i as int] != a && hay@[i as int] != b
                && hay@[i as int] != c,
    ensures
        final(out)@.no_duplicates(),
        forall|i: usize| #[trigger]
            final(out)@.contains(i) <==> old(out)@.contains(i) || (i < hay@.len() && (hay@[i as int]
                == a || hay@[i as int] == b || hay@[i as int] == c)),
{
    let ghost start = out@;
    let mut base: usize = 0;
    loop
        invariant
            base <= hay@.len(),
            n == 1 ==> b == a && c == a,
            n == 2 ==> c == b,
            out@.no_duplicates(),
            forall|i: usize| #[trigger]
                start.contains(i) ==> i < hay@.len() && hay@[i as int] != a && hay@[i as int] != b
                    && hay@[i as int] != c,
            forall|i: usize| #[trigger]
                out@.contains(i) <==> start.contains(i) || (i < base && (hay@[i as int] == a
                    || hay@[i as int] == b || hay@[i as int] == c)),
        ensures
            out@.no_duplicates(),
            forall|i: usize| #[trigger]
                out@.contains(i) <==> start.contains(i) || (i < hay@.len() && (hay@[i as int] == a
                    || hay@[i as int] == b || hay@[i as int] == c)),
        decreases hay@.len() - base,
    {
        let tail: &[u8] = slice_subrange(hay, base, hay.len());
        assert(forall|j: int| base <= j < hay@.len() ==> #[trigger] hay@[j] == tail@[j - base]);
        match first_among(tail, a, b, c, n) {
            None => {
                break;
            },
            Some(p) => {
                let at: usize = base + p;
                assert(hay@[at as int] == tail@[p as int]);
                let ghost before = out@;
                out.push(at);
                proof {
                    pushed(before, at);
                }
                base = at + 1;
            },
        }
    }
}

proof fn one_pass(v: Seq<u8>, k: int, next: int, a: u8, b: u8, c: u8)
    requires
        v.no_duplicates(),
        0 <= k < next <= v.len(),
        next <= k + 3,
        a == v[k],
        b == if v.len() - k > 1 {
            v[k + 1]
        } else {
            a
        },
        c == if v.len() - k > 2 {
            v[k + 2]
        } else {
            a
        },
        next == if v.len() - k > 3 {
            k + 3
        } else {
            v.len() as int
        },
    ensures
        forall|x: u8| #[trigger]
            v.subrange(0, next).contains(x) <==> v.subrange(0, k).contains(x) || x == a || x == b
                || x == c,
        !v.subrange(0, k).contains(a),
        !v.subrange(0, k).contains(b),
        !v.subrange(0, k).contains(c),
{
    let now = v.subrange(0, next);
    let before = v.subrange(0, k);
    assert forall|x: u8| #[trigger]
        now.contains(x) <==> before.contains(x) || x == a || x == b || x == c by {
        if before.contains(x) {
            let i = choose|i: int| 0 <= i < before.len() && before[i] == x;
            assert(now[i] == x);
        }
        if x == a {
            assert(now[k] == x);
        }
        if x == b && v.len() - k > 1 {
            assert(now[k + 1] == x);
        }
        if x == c && v.len() - k > 2 {
            assert(now[k + 2] == x);
        }
        if now.contains(x) && !(x == a || x == b || x == c) {
            let i = choose|i: int| 0 <= i < now.len() && now[i] == x;
            assert(before[i] == x);
        }
    }
}

// ---------------------------------------------------------------------------
// The index
// ---------------------------------------------------------------------------

/// The formats behind a list of signatures.
pub open spec fn formats_of(sigs: Seq<&Signature>) -> Seq<Format> {
    Seq::new(sigs.len(), |i: int| sigs[i]@)
}

/// A byte, or zero past the end.
pub open spec fn byte_or_zero(hay: Seq<u8>, at: int) -> u8 {
    if 0 <= at < hay.len() {
        hay[at]
    } else {
        0
    }
}

/// Whether format `f`, whose leading byte is `off` into the file, begins where
/// a leading byte at `hit` would have it begin.
pub open spec fn begins_before(f: Format, hay: Seq<u8>, hit: int, off: int) -> bool {
    0 <= hit - off <= hay.len() && f.stands(hay, hit - off)
}

/// Of the first `n` formats, those anchored on the byte at `hit` that begin
/// there: where each begins, and its number.
pub open spec fn anchored_below(f: Seq<Format>, hay: Seq<u8>, hit: int, n: int) -> Seq<(int, int)>
    decreases n,
{
    if n <= 0 {
        Seq::empty()
    } else {
        let before = anchored_below(f, hay, hit, n - 1);
        match f[n - 1].anchor() {
            Some((b, off)) => if b == byte_or_zero(hay, hit) && begins_before(
                f[n - 1],
                hay,
                hit,
                off,
            ) {
                before.push((hit - off, n - 1))
            } else {
                before
            },
            None => before,
        }
    }
}

/// Of the first `n` formats, those without an anchor that begin where a header
/// at `hit` would have them begin.
pub open spec fn unanchored_below(f: Seq<Format>, hay: Seq<u8>, hit: int, n: int) -> Seq<(int, int)>
    decreases n,
{
    if n <= 0 {
        Seq::empty()
    } else {
        let before = unanchored_below(f, hay, hit, n - 1);
        if f[n - 1].anchor() is None && begins_before(f[n - 1], hay, hit, f[n - 1].header_offset as int) {
            before.push((hit - f[n - 1].header_offset, n - 1))
        } else {
            before
        }
    }
}

/// What a prefilter hit at `hit` turns out to be: where each candidate begins
/// and which format it is of, those with an anchor first.
pub open spec fn candidates(f: Seq<Format>, hay: Seq<u8>, hit: int) -> Seq<(int, int)> {
    anchored_below(f, hay, hit, f.len() as int) + unanchored_below(f, hay, hit, f.len() as int)
}

/// The list kept for one byte: of the first `n` formats those anchored on it,
/// each with the offset of the anchor.
spec fn listed_below(f: Seq<Format>, b: u8, n: int) -> Seq<(int, int)>
    decreases n,
{
    if n <= 0 {
        Seq::empty()
    } else {
        let before = listed_below(f, b, n - 1);
        match f[n - 1].anchor() {
            Some((a, off)) => if a == b {
                before.push((off, n - 1))
            } else {
                before
            },
            None => before,
        }
    }
}

/// The formats without an anchor, of the first `n`.
spec fn unlisted_below(f: Seq<Format>, n: int) -> Seq<int>
    decreases n,
{
    if n <= 0 {
        Seq::empty()
    } else if f[n - 1].anchor() is None {
        unlisted_below(f, n - 1).push(n - 1)
    } else {
        unlisted_below(f, n - 1)
    }
}

spec fn pairs(v: Seq<(usize, usize)>) -> Seq<(int, int)> {
    Seq::new(v.len(), |i: int| (v[i].0 as int, v[i].1 as int))
}

spec fn numbers(v: Seq<usize>) -> Seq<int> {
    Seq::new(v.len(), |i: int| v[i] as int)
}

/// Candidates as their start and number.
pub open spec fn places(v: Seq<(&Signature, usize, usize)>) -> Seq<(int, int)> {
    Seq::new(v.len(), |i: int| (v[i].1 as int, v[i].2 as int))
}

/// A list of signatures arranged for scanning.
///
/// Maps each leading byte to the signatures it could start, so a prefilter hit
/// turns into a short list rather than a walk of them all.
pub struct ScanIndex<'a> {
    pub prefilter: Prefilter,
    pub lists: Lists<'a>,
}

/// What a prefilter hit is looked up in.
pub struct Lists<'a> {
    sigs: Vec<&'a Signature>,
    /// For each byte: the offset of the leading byte, and the signature.
    by_byte: Vec<Vec<(usize, usize)>>,
    /// Signatures none of whose bytes can be searched for.
    unfiltered: Vec<usize>,
    max_span: usize,
}

impl<'a> ScanIndex<'a> {
    /// The signatures that are indexed.
    pub closed spec fn signatures(self) -> Seq<&'a Signature> {
        self.lists.sigs@
    }

    /// The formats that are indexed.
    pub open spec fn formats(self) -> Seq<Format> {
        formats_of(self.signatures())
    }

    /// How positions worth a comparison are found.
    pub open spec fn filter(self) -> Prefilter {
        self.prefilter
    }

    /// The lookahead the index was made with.
    pub closed spec fn span(self) -> int {
        self.lists.max_span as int
    }

    /// Whether the lists are those of the signatures, and the prefilter lets
    /// through every byte that a format is anchored on, and every byte where
    /// there is a format without an anchor.
    pub closed spec fn wf(self) -> bool {
        let f = self.formats();
        &&& self.lists.by_byte@.len() == 256
        &&& forall|b: u8|
            pairs((#[trigger] self.lists.by_byte@[b as int])@) == listed_below(f, b, f.len() as int)
        &&& numbers(self.lists.unfiltered@) == unlisted_below(f, f.len() as int)
        &&& self.prefilter.wf()
        &&& forall|i: int|
            0 <= i < self.lists.sigs@.len() ==> (#[trigger] self.lists.sigs@[i]).fits()
    }

    /// Whether the prefilter lets through what it must: everything where there
    /// is a format without an anchor, and else the bytes formats are anchored
    /// on.
    pub open spec fn lets_through(self) -> bool {
        let f = self.formats();
        if exists|i: int| 0 <= i < f.len() && (#[trigger] f[i]).anchor() is None {
            self.filter() is Everything
        } else {
            &&& self.filter().suits(distinct(anchor_bytes(f)).len())
            &&& f.len() > 0 ==> self.filter().searched() == Some(distinct(anchor_bytes(f)))
            &&& forall|b: u8| #[trigger]
                self.filter().accepts(b) <==> anchor_bytes(f).contains(b) || f.len() == 0
        }
    }

    pub fn new(db: &'a SignatureDb) -> (r: ScanIndex<'a>)
        requires
            db.fits(),
        ensures
            r.wf(),
            r.lets_through(),
            r.formats() == db@,
            r.span() == signature::longest_span(db@, db@.len() as int),
    {
        let mut sigs: Vec<&'a Signature> = Vec::new();
        let mut i: usize = 0;
        while i < db.signatures.len()
            invariant
                i <= db.signatures@.len(),
                sigs@.len() == i,
                forall|k: int| 0 <= k < i ==> *(#[trigger] sigs@[k]) == db.signatures@[k],
            decreases db.signatures@.len() - i,
        {
            sigs.push(&db.signatures[i]);
            i += 1;
        }
        let span: usize = db.max_header_span();
        assert forall|k: int| 0 <= k < sigs@.len() implies (#[trigger] sigs@[k]).fits() by {
            assert(db.signatures@[k].fits());
        }
        let r = Self::from_signatures(sigs, span);
        assert(r.formats() =~= db@);
        r
    }

    pub fn from_signatures(sigs: Vec<&'a Signature>, max_span: usize) -> (r: ScanIndex<'a>)
        requires
            forall|i: int| 0 <= i < sigs@.len() ==> (#[trigger] sigs@[i]).fits(),
        ensures
            r.wf(),
            r.lets_through(),
            r.signatures() == sigs@,
            r.span() == max_span,
    {
        let ghost f = formats_of(sigs@);
        let mut bytes: Vec<u8> = Vec::new();
        let mut unfiltered: Vec<usize> = Vec::new();
        let mut anchors: Vec<Option<(u8, usize)>> = Vec::new();
        let mut i: usize = 0;
        assert(numbers(unfiltered@) =~= Seq::<int>::empty());
        while i < sigs.len()
            invariant
                i <= sigs@.len(),
                f == formats_of(sigs@),
                forall|k: int| 0 <= k < sigs@.len() ==> (#[trigger] sigs@[k]).fits(),
                anchors@.len() == i,
                forall|k: int| 0 <= k < i ==> is_anchor(#[trigger] anchors@[k], f[k]),
                numbers(unfiltered@) == unlisted_below(f, i as int),
                bytes@ == anchor_bytes_below(f, i as int),
            decreases sigs@.len() - i,
        {
            let a: Option<(u8, usize)> = sigs[i].prefilter_byte();
            assert(f[i as int] == sigs@[i as int]@);
            match a {
                Some((b, _)) => {
                    bytes.push(b);
                },
                None => {
                    let ghost before = numbers(unfiltered@);
                    unfiltered.push(i);
                    assert(numbers(unfiltered@) =~= before.push(i as int));
                },
            }
            anchors.push(a);
            i += 1;
        }
        let mut by_byte: Vec<Vec<(usize, usize)>> = Vec::new();
        let mut b: usize = 0;
        while b < 256
            invariant
                b <= 256,
                by_byte@.len() == b,
                f.len() == anchors@.len(),
                forall|k: int| 0 <= k < anchors@.len() ==> is_anchor(#[trigger] anchors@[k], f[k]),
                forall|x: u8|
                    x < b ==> pairs((#[trigger] by_byte@[x as int])@) == listed_below(
                        f,
                        x,
                        f.len() as int,
                    ),
            decreases 256 - b,
        {
            let list: Vec<(usize, usize)> = list_for(&anchors, b as u8, Ghost(f));
            by_byte.push(list);
            b += 1;
        }
        proof {
            some_unlisted(f, f.len() as int);
            all_anchored(f, f.len() as int);
        }
        // A format that no byte can be searched for has to be looked for at
        // every offset.
        let prefilter = if unfiltered.len() == 0 {
            assert(numbers(unfiltered@).len() == 0);
            proof {
                distinct_bytes(bytes@);
                no_bytes(bytes@);
            }
            Prefilter::for_bytes(bytes.as_slice())
        } else {
            assert(numbers(unfiltered@).len() > 0);
            Prefilter::Everything
        };
        ScanIndex { prefilter, lists: Lists { sigs, by_byte, unfiltered, max_span } }
    }

    /// Lookahead the scanner must carry across a block boundary so a header
    /// straddling it is still found.
    pub fn max_header_span(&self) -> (r: usize)
        ensures
            r == self.span(),
    {
        self.lists.max_span
    }

    pub fn strategy(&self) -> (r: &'static str)
        ensures
            r@ == self.filter().named(),
    {
        self.prefilter.strategy()
    }

    /// The signature at position `i`.
    pub fn signature(&self, i: usize) -> (r: &'a Signature)
        requires
            self.wf(),
            i < self.signatures().len(),
        ensures
            r == self.signatures()[i as int],
            r@ == self.formats()[i as int],
            r.fits(),
    {
        self.lists.sigs[i]
    }

    pub fn len(&self) -> (r: usize)
        ensures
            r == self.signatures().len(),
    {
        self.lists.sigs.len()
    }

    /// Every offset in `hay` whose byte can be a leading byte, each once.
    pub fn hits(&self, hay: &[u8]) -> (r: Vec<usize>)
        requires
            self.wf(),
        ensures
            r@.no_duplicates(),
            forall|i: usize| #[trigger]
                r@.contains(i) <==> i < hay@.len() && self.filter().accepts(hay@[i as int]),
    {
        self.prefilter.for_each_hit(hay)
    }

    /// Signatures that begin where the byte at `hit` says they may.
    ///
    /// `hit` is the position of the leading byte, which for a container format
    /// is not the start of the file, so each candidate comes with its start
    /// offset, and with the signature's position in the list the index was
    /// built from.
    pub fn candidates_at(&self, hay: &[u8], hit: usize) -> (r: Vec<(&'a Signature, usize, usize)>)
        requires
            self.wf(),
        ensures
            places(r@) == candidates(self.formats(), hay@, hit as int),
            forall|k: int|
                0 <= k < r@.len() ==> (#[trigger] r@[k]).2 < self.signatures().len() && r@[k].0
                    == self.signatures()[r@[k].2 as int],
    {
        let ghost f = self.formats();
        let b: u8 = if hit < hay.len() {
            hay[hit]
        } else {
            0
        };
        assert(self.lists.by_byte@[b as int]@.len() == pairs(self.lists.by_byte@[b as int]@).len());
        let list: &Vec<(usize, usize)> = &self.lists.by_byte[b as usize];
        let mut out: Vec<(&'a Signature, usize, usize)> = Vec::new();
        let mut k: usize = 0;
        proof {
            listing_grows(f, b, f.len() as int);
            chosen_from_none(f, hay@, hit as int, b);
        }
        assert(places(out@) =~= chosen(f, hay@, hit as int, pairs(list@), 0));
        while k < list.len()
            invariant
                k <= list@.len(),
                self.wf(),
                f == self.formats(),
                pairs(list@) == listed_below(f, b, f.len() as int),
                forall|j: int|
                    0 <= j < list@.len() ==> 0 <= (#[trigger] pairs(list@)[j]).1 < f.len(),
                places(out@) == chosen(f, hay@, hit as int, pairs(list@), k as int),
                forall|j: int|
                    0 <= j < out@.len() ==> (#[trigger] out@[j]).2 < self.signatures().len()
                        && out@[j].0 == self.signatures()[out@[j].2 as int],
            decreases list@.len() - k,
        {
            let (off, i): (usize, usize) = list[k];
            assert(pairs(list@)[k as int] == (off as int, i as int));
            if hit >= off && hit - off <= hay.len() && self.lists.sigs[i].matches_at(hay, hit - off) {
                let ghost before = places(out@);
                out.push((self.lists.sigs[i], hit - off, i));
                assert(places(out@) =~= before.push((hit - off, i as int)));
            }
            k += 1;
        }
        proof {
            listed_are_anchored(f, hay@, hit as int, b, f.len() as int);
        }
        let ghost first = places(out@);
        let mut u: usize = 0;
        proof {
            unlisted_grow(f, f.len() as int);
            assert(picked(f, hay@, hit as int, numbers(self.lists.unfiltered@), 0) =~= Seq::empty());
        }
        while u < self.lists.unfiltered.len()
            invariant
                u <= self.lists.unfiltered@.len(),
                self.wf(),
                f == self.formats(),
                forall|j: int|
                    0 <= j < self.lists.unfiltered@.len() ==> 0 <= (#[trigger] numbers(
                        self.lists.unfiltered@,
                    )[j]) < f.len(),
                places(out@) == first + picked(
                    f,
                    hay@,
                    hit as int,
                    numbers(self.lists.unfiltered@),
                    u as int,
                ),
                forall|j: int|
                    0 <= j < out@.len() ==> (#[trigger] out@[j]).2 < self.signatures().len()
                        && out@[j].0 == self.signatures()[out@[j].2 as int],
            decreases self.lists.unfiltered@.len() - u,
        {
            let i: usize = self.lists.unfiltered[u];
            assert(numbers(self.lists.unfiltered@)[u as int] == i as int);
            let off: usize = self.lists.sigs[i].header_offset;
            if hit >= off && hit - off <= hay.len() && self.lists.sigs[i].matches_at(hay, hit - off) {
                let ghost before = places(out@);
                out.push((self.lists.sigs[i], hit - off, i));
                assert(places(out@) =~= before.push((hit - off, i as int)));
            }
            u += 1;
        }
        proof {
            unlisted_are_unanchored(f, hay@, hit as int, f.len() as int);
        }
        out
    }
}

/// The anchors of the first `n` formats, as bytes.
pub open spec fn anchor_bytes_below(f: Seq<Format>, n: int) -> Seq<u8>
    decreases n,
{
    if n <= 0 {
        Seq::empty()
    } else {
        match f[n - 1].anchor() {
            Some((b, _)) => anchor_bytes_below(f, n - 1).push(b),
            None => anchor_bytes_below(f, n - 1),
        }
    }
}

/// The bytes that formats are anchored on.
pub open spec fn anchor_bytes(f: Seq<Format>) -> Seq<u8> {
    anchor_bytes_below(f, f.len() as int)
}

proof fn needles_below(f: Seq<Format>, n: int, b: u8)
    requires
        0 <= n <= f.len(),
    ensures
        anchor_bytes_below(f, n).contains(b) <==> exists|i: int|
            0 <= i < n && ((#[trigger] f[i]).anchor() matches Some(a) && a.0 == b),
    decreases n,
{
    if n > 0 {
        needles_below(f, n - 1, b);
        let before = anchor_bytes_below(f, n - 1);
        let now = anchor_bytes_below(f, n);
        if before.contains(b) {
            let k = choose|k: int| 0 <= k < before.len() && before[k] == b;
            assert(now[k] == b);
        }
        if let Some(a) = f[n - 1].anchor() {
            assert(now[before.len() as int] == a.0);
            if now.contains(b) && a.0 != b {
                let k = choose|k: int| 0 <= k < now.len() && now[k] == b;
                assert(before[k] == b);
            }
        }
    }
}

/// The bytes that are searched for are those that some format is anchored on,
/// and no others.
pub proof fn needles_are_anchors(f: Seq<Format>, b: u8)
    ensures
        anchor_bytes(f).contains(b) <==> exists|i: int|
            0 <= i < f.len() && ((#[trigger] f[i]).anchor() matches Some(a) && a.0 == b),
{
    needles_below(f, f.len() as int, b);
}

spec fn is_anchor(a: Option<(u8, usize)>, f: Format) -> bool {
    match a {
        Some((b, off)) => f.anchor() == Some((b, off as int)),
        None => f.anchor() is None,
    }
}

fn list_for(
    anchors: &Vec<Option<(u8, usize)>>,
    b: u8,
    Ghost(f): Ghost<Seq<Format>>,
) -> (r: Vec<(usize, usize)>)
    requires
        f.len() == anchors@.len(),
        forall|k: int| 0 <= k < anchors@.len() ==> is_anchor(#[trigger] anchors@[k], f[k]),
    ensures
        pairs(r@) == listed_below(f, b, f.len() as int),
{
    let mut out: Vec<(usize, usize)> = Vec::new();
    let mut i: usize = 0;
    assert(pairs(out@) =~= Seq::<(int, int)>::empty());
    while i < anchors.len()
        invariant
            i <= anchors@.len(),
            f.len() == anchors@.len(),
            forall|k: int| 0 <= k < anchors@.len() ==> is_anchor(#[trigger] anchors@[k], f[k]),
            pairs(out@) == listed_below(f, b, i as int),
        decreases anchors@.len() - i,
    {
        assert(is_anchor(anchors@[i as int], f[i as int]));
        if let Some((a, off)) = anchors[i] {
            if a == b {
                let ghost before = pairs(out@);
                out.push((off, i));
                assert(pairs(out@) =~= before.push((off as int, i as int)));
            }
        }
        i += 1;
    }
    out
}

proof fn some_unlisted(f: Seq<Format>, n: int)
    requires
        0 <= n <= f.len(),
    ensures
        unlisted_below(f, n).len() > 0 <==> exists|i: int|
            0 <= i < n && (#[trigger] f[i]).anchor() is None,
    decreases n,
{
    if n > 0 {
        some_unlisted(f, n - 1);
        if f[n - 1].anchor() is None {
            assert(f[n - 1].anchor() is None);
        }
    }
}

proof fn all_anchored(f: Seq<Format>, n: int)
    requires
        0 <= n <= f.len(),
    ensures
        unlisted_below(f, n).len() == 0 ==> anchor_bytes_below(f, n).len() == n,
    decreases n,
{
    if n > 0 {
        all_anchored(f, n - 1);
    }
}

proof fn no_bytes(bytes: Seq<u8>)
    ensures
        distinct(bytes).len() == 0 <==> bytes.len() == 0,
{
    distinct_bytes(bytes);
    if bytes.len() > 0 {
        assert(bytes.contains(bytes[0]));
        assert(distinct(bytes).contains(bytes[0]));
    }
    if distinct(bytes).len() > 0 {
        assert(distinct(bytes).contains(distinct(bytes)[0]));
        assert(bytes.contains(distinct(bytes)[0]));
    }
}

/// Of the first `k` listed formats, those that begin where they should.
spec fn chosen(f: Seq<Format>, hay: Seq<u8>, hit: int, list: Seq<(int, int)>, k: int) -> Seq<
    (int, int),
>
    decreases k,
{
    if k <= 0 {
        Seq::empty()
    } else {
        let before = chosen(f, hay, hit, list, k - 1);
        let (off, i) = list[k - 1];
        if begins_before(f[i], hay, hit, off) {
            before.push((hit - off, i))
        } else {
            before
        }
    }
}

/// Of the first `k` numbered formats, those that begin where they should.
spec fn picked(f: Seq<Format>, hay: Seq<u8>, hit: int, list: Seq<int>, k: int) -> Seq<(int, int)>
    decreases k,
{
    if k <= 0 {
        Seq::empty()
    } else {
        let before = picked(f, hay, hit, list, k - 1);
        let i = list[k - 1];
        if begins_before(f[i], hay, hit, f[i].header_offset as int) {
            before.push((hit - f[i].header_offset, i))
        } else {
            before
        }
    }
}

proof fn chosen_from_none(f: Seq<Format>, hay: Seq<u8>, hit: int, b: u8)
    ensures
        chosen(f, hay, hit, listed_below(f, b, f.len() as int), 0) == Seq::<(int, int)>::empty(),
{
}

proof fn chosen_reads_a_prefix(
    f: Seq<Format>,
    hay: Seq<u8>,
    hit: int,
    a: Seq<(int, int)>,
    b: Seq<(int, int)>,
    k: int,
)
    requires
        0 <= k <= a.len(),
        a.len() <= b.len(),
        forall|i: int| 0 <= i < a.len() ==> a[i] == b[i],
    ensures
        chosen(f, hay, hit, a, k) == chosen(f, hay, hit, b, k),
    decreases k,
{
    if k > 0 {
        chosen_reads_a_prefix(f, hay, hit, a, b, k - 1);
    }
}

proof fn picked_reads_a_prefix(
    f: Seq<Format>,
    hay: Seq<u8>,
    hit: int,
    a: Seq<int>,
    b: Seq<int>,
    k: int,
)
    requires
        0 <= k <= a.len(),
        a.len() <= b.len(),
        forall|i: int| 0 <= i < a.len() ==> a[i] == b[i],
    ensures
        picked(f, hay, hit, a, k) == picked(f, hay, hit, b, k),
    decreases k,
{
    if k > 0 {
        picked_reads_a_prefix(f, hay, hit, a, b, k - 1);
    }
}

proof fn listing_grows(f: Seq<Format>, b: u8, n: int)
    requires
        0 <= n <= f.len(),
    ensures
        listed_below(f, b, n).len() <= n,
        forall|j: int|
            0 <= j < listed_below(f, b, n).len() ==> 0 <= (#[trigger] listed_below(f, b, n)[j]).1 < n,
    decreases n,
{
    if n > 0 {
        listing_grows(f, b, n - 1);
    }
}

proof fn unlisted_grow(f: Seq<Format>, n: int)
    requires
        0 <= n <= f.len(),
    ensures
        forall|j: int|
            0 <= j < unlisted_below(f, n).len() ==> 0 <= (#[trigger] unlisted_below(f, n)[j]) < n,
    decreases n,
{
    if n > 0 {
        unlisted_grow(f, n - 1);
        let before = unlisted_below(f, n - 1);
        assert forall|j: int| 0 <= j < unlisted_below(f, n).len() implies 0
            <= (#[trigger] unlisted_below(f, n)[j]) < n by {
            if j < before.len() {
                assert(unlisted_below(f, n)[j] == before[j]);
            }
        }
    }
}

proof fn listed_are_anchored(f: Seq<Format>, hay: Seq<u8>, hit: int, b: u8, n: int)
    requires
        0 <= n <= f.len(),
        b == byte_or_zero(hay, hit),
    ensures
        chosen(f, hay, hit, listed_below(f, b, n), listed_below(f, b, n).len() as int)
            == anchored_below(f, hay, hit, n),
    decreases n,
{
    if n > 0 {
        listed_are_anchored(f, hay, hit, b, n - 1);
        let before = listed_below(f, b, n - 1);
        let now = listed_below(f, b, n);
        chosen_reads_a_prefix(f, hay, hit, before, now, before.len() as int);
    }
}

proof fn unlisted_are_unanchored(f: Seq<Format>, hay: Seq<u8>, hit: int, n: int)
    requires
        0 <= n <= f.len(),
    ensures
        picked(f, hay, hit, unlisted_below(f, n), unlisted_below(f, n).len() as int)
            == unanchored_below(f, hay, hit, n),
    decreases n,
{
    if n > 0 {
        unlisted_are_unanchored(f, hay, hit, n - 1);
        let before = unlisted_below(f, n - 1);
        let now = unlisted_below(f, n);
        picked_reads_a_prefix(f, hay, hit, before, now, before.len() as int);
    }
}

/// Where the leading byte of a file of format `f` that begins at `at` is: its
/// anchor, or the first byte of its header where it has none.
pub open spec fn lead(f: Format, at: int) -> int {
    match f.anchor() {
        Some((_, off)) => at + off,
        None => at + f.header_offset,
    }
}

proof fn anchored_holds(f: Seq<Format>, hay: Seq<u8>, hit: int, n: int, at: int, i: int)
    requires
        0 <= n <= f.len(),
    ensures
        anchored_below(f, hay, hit, n).contains((at, i)) <==> {
            &&& 0 <= i < n
            &&& f[i].anchor() is Some
            &&& f[i].anchor()->Some_0.0 == byte_or_zero(hay, hit)
            &&& hit == lead(f[i], at)
            &&& 0 <= at <= hay.len()
            &&& f[i].stands(hay, at)
        },
        anchored_below(f, hay, hit, n).no_duplicates(),
        forall|k: int|
            0 <= k < anchored_below(f, hay, hit, n).len() ==> (#[trigger] anchored_below(
                f,
                hay,
                hit,
                n,
            )[k]).1 < n,
    decreases n,
{
    if n > 0 {
        anchored_holds(f, hay, hit, n - 1, at, i);
        let before = anchored_below(f, hay, hit, n - 1);
        let now = anchored_below(f, hay, hit, n);
        held_before(before, now, (at, i));
    }
}

proof fn unanchored_holds(f: Seq<Format>, hay: Seq<u8>, hit: int, n: int, at: int, i: int)
    requires
        0 <= n <= f.len(),
    ensures
        unanchored_below(f, hay, hit, n).contains((at, i)) <==> {
            &&& 0 <= i < n
            &&& f[i].anchor() is None
            &&& hit == lead(f[i], at)
            &&& 0 <= at <= hay.len()
            &&& f[i].stands(hay, at)
        },
        unanchored_below(f, hay, hit, n).no_duplicates(),
        forall|k: int|
            0 <= k < unanchored_below(f, hay, hit, n).len() ==> (#[trigger] unanchored_below(
                f,
                hay,
                hit,
                n,
            )[k]).1 < n,
    decreases n,
{
    if n > 0 {
        unanchored_holds(f, hay, hit, n - 1, at, i);
        let before = unanchored_below(f, hay, hit, n - 1);
        let now = unanchored_below(f, hay, hit, n);
        held_before(before, now, (at, i));
    }
}

proof fn held_before(before: Seq<(int, int)>, now: Seq<(int, int)>, x: (int, int))
    requires
        now == before || now == before.push(now.last()),
        now.len() >= before.len(),
    ensures
        now.contains(x) <==> before.contains(x) || (now.len() > before.len() && now.last() == x),
{
    if before.contains(x) {
        let k = choose|k: int| 0 <= k < before.len() && before[k] == x;
        assert(now[k] == x);
    }
    if now.contains(x) {
        let k = choose|k: int| 0 <= k < now.len() && now[k] == x;
        if k < before.len() {
            assert(before[k] == x);
        }
    }
    if now.len() > before.len() && now.last() == x {
        assert(now[now.len() - 1] == x);
    }
}

/// What a hit turns out to be is exactly the formats that begin where their
/// leading byte is the hit, each once.
pub proof fn a_hit_is_resolved(f: Seq<Format>, hay: Seq<u8>, hit: int, at: int, i: int)
    requires
        0 <= hit < hay.len(),
    ensures
        candidates(f, hay, hit).contains((at, i)) <==> 0 <= i < f.len() && hit == lead(f[i], at)
            && 0 <= at && f[i].stands(hay, at),
        candidates(f, hay, hit).no_duplicates(),
{
    let n = f.len() as int;
    let a = anchored_below(f, hay, hit, n);
    let u = unanchored_below(f, hay, hit, n);
    let all = candidates(f, hay, hit);
    anchored_holds(f, hay, hit, n, at, i);
    unanchored_holds(f, hay, hit, n, at, i);
    if a.contains((at, i)) {
        let k = choose|k: int| 0 <= k < a.len() && a[k] == (at, i);
        assert(all[k] == (at, i));
    }
    if u.contains((at, i)) {
        let k = choose|k: int| 0 <= k < u.len() && u[k] == (at, i);
        assert(all[a.len() + k] == (at, i));
    }
    if all.contains((at, i)) {
        let k = choose|k: int| 0 <= k < all.len() && all[k] == (at, i);
        if k < a.len() {
            assert(a[k] == (at, i));
        } else {
            assert(u[k - a.len()] == (at, i));
        }
    }
    if 0 <= i < n && 0 <= at && f[i].stands(hay, at) && hit == lead(f[i], at) {
        a_lead_is_inside(f[i], hay, at);
    }
    assert forall|x: int, y: int| 0 <= x < y < all.len() implies all[x] != all[y] by {
        if y < a.len() {
            assert(a[x] != a[y]);
        } else if x >= a.len() {
            assert(u[x - a.len()] != u[y - a.len()]);
        } else {
            let p = a[x];
            let q = u[y - a.len()];
            assert(a.contains(p) && u.contains(q));
            anchored_holds(f, hay, hit, n, p.0, p.1);
            unanchored_holds(f, hay, hit, n, q.0, q.1);
        }
    }
}

/// The leading byte of a format that stands is inside the data, and is the byte
/// it is anchored on.
pub proof fn a_lead_is_inside(f: Format, hay: Seq<u8>, at: int)
    requires
        f.stands(hay, at),
        0 <= at,
    ensures
        f.header.len() > 0 ==> lead(f, at) < hay.len(),
        f.anchor() matches Some((b, off)) ==> hay[at + off] == b && off < f.span(),
{
    if let Some((b, off)) = f.anchor() {
        let i = choose|i: int| f.anchored_at(i);
        assert(f.exact(i));
        assert(f.agrees(i, hay[at + f.header_offset + i]));
        let got = hay[at + f.header_offset + i];
        if let Some(m) = f.header_mask {
            let want = f.header[i];
            let bits = m[i];
            assert(got == want) by (bit_vector)
                requires
                    bits == 0xFFu8,
                    got & bits == want & bits,
            ;
        }
    }
}

/// No header is missed: wherever a format with a header stands, its leading
/// byte is one the prefilter lets through, and the hit there resolves to it.
pub proof fn no_header_is_missed(index: ScanIndex<'_>, hay: Seq<u8>, at: int, i: int)
    requires
        index.lets_through(),
        0 <= i < index.formats().len(),
        0 <= at,
        index.formats()[i].header.len() > 0,
        index.formats()[i].stands(hay, at),
    ensures
        ({
            let hit = lead(index.formats()[i], at);
            &&& 0 <= hit < hay.len()
            &&& index.filter().accepts(hay[hit])
            &&& candidates(index.formats(), hay, hit).contains((at, i))
        }),
{
    let f = index.formats();
    let hit = lead(f[i], at);
    a_lead_is_inside(f[i], hay, at);
    if f[i].anchor() is Some {
        let k = choose|k: int| f[i].anchored_at(k);
        assert(f[i].exact(k));
        anchors_are_listed(f, f.len() as int, i);
    }
    a_hit_is_resolved(f, hay, hit, at, i);
}

proof fn anchors_are_listed(f: Seq<Format>, n: int, i: int)
    requires
        0 <= i < n <= f.len(),
        f[i].anchor() is Some,
    ensures
        anchor_bytes_below(f, n).contains(f[i].anchor()->Some_0.0),
    decreases n,
{
    let now = anchor_bytes_below(f, n);
    if i < n - 1 {
        anchors_are_listed(f, n - 1, i);
        let before = anchor_bytes_below(f, n - 1);
        let b = f[i].anchor()->Some_0.0;
        let k = choose|k: int| 0 <= k < before.len() && before[k] == b;
        assert(now[k] == b);
    } else {
        assert(now[now.len() - 1] == f[i].anchor()->Some_0.0);
    }
}

} // verus!
