//! Putting rows in order, by a number and then by a text.

use vstd::prelude::*;
use crate::text;

verus! {

/// Whether row `a` goes before row `b`: by number, then by text, and otherwise
/// as they stood.
pub open spec fn ahead(values: Seq<u64>, keys: Seq<Seq<char>>, a: int, b: int) -> bool {
    ||| values[a] < values[b]
    ||| values[a] == values[b] && text::sooner(keys[a], keys[b])
    ||| values[a] == values[b] && keys[a] == keys[b] && a < b
}

/// The numbers of rows that only their texts put in order.
pub open spec fn alike(n: nat) -> Seq<u64> {
    Seq::new(n, |i: int| 0u64)
}

/// Whether `r` lists the rows from `lo` to `hi`, each once, in order.
pub open spec fn in_order(
    values: Seq<u64>,
    keys: Seq<Seq<char>>,
    r: Seq<usize>,
    lo: int,
    hi: int,
) -> bool {
    &&& r.len() == hi - lo
    &&& forall|i: int| 0 <= i < r.len() ==> lo <= (#[trigger] r[i]) < hi
    &&& forall|k: int| lo <= k < hi ==> #[trigger] r.contains(k as usize)
    &&& forall|i: int, j: int|
        0 <= i < j < r.len() ==> ahead(
            values,
            keys,
            (#[trigger] r[i]) as int,
            (#[trigger] r[j]) as int,
        )
}

proof fn ahead_goes_on(values: Seq<u64>, keys: Seq<Seq<char>>, a: int, b: int, c: int)
    requires
        ahead(values, keys, a, b),
        ahead(values, keys, b, c),
    ensures
        ahead(values, keys, a, c),
{
    text::texts_are_ordered(keys[a], keys[b], keys[c]);
}

fn goes_first(values: &Vec<u64>, keys: &Vec<String>, a: usize, b: usize) -> (r: bool)
    requires
        a < values@.len(),
        b < values@.len(),
        a < keys@.len(),
        b < keys@.len(),
    ensures
        r == ahead(values@, text::texts(keys@), a as int, b as int),
        !r && a != b ==> ahead(values@, text::texts(keys@), b as int, a as int),
{
    proof {
        text::texts_are_ordered(keys@[a as int]@, keys@[b as int]@, keys@[a as int]@);
    }
    if values[a] != values[b] {
        values[a] < values[b]
    } else if text::comes_first(keys[a].as_str(), keys[b].as_str()) {
        true
    } else if text::comes_first(keys[b].as_str(), keys[a].as_str()) {
        false
    } else {
        a < b
    }
}

/// The rows in order: by number, then by text, and otherwise as they stood.
pub fn order(values: &Vec<u64>, keys: &Vec<String>) -> (r: Vec<usize>)
    requires
        values@.len() == keys@.len(),
    ensures
        in_order(values@, text::texts(keys@), r@, 0, keys@.len() as int),
{
    ordered(values, keys, 0, keys.len())
}

fn ordered(values: &Vec<u64>, keys: &Vec<String>, lo: usize, hi: usize) -> (r: Vec<usize>)
    requires
        values@.len() == keys@.len(),
        lo <= hi <= keys@.len(),
    ensures
        in_order(values@, text::texts(keys@), r@, lo as int, hi as int),
    decreases hi - lo,
{
    if lo == hi {
        return Vec::new();
    }
    if hi - lo == 1 {
        let mut one: Vec<usize> = Vec::new();
        one.push(lo);
        assert(one@[0] == lo);
        return one;
    }
    let mid: usize = lo + (hi - lo) / 2;
    let a: Vec<usize> = ordered(values, keys, lo, mid);
    let b: Vec<usize> = ordered(values, keys, mid, hi);
    let mut out: Vec<usize> = Vec::new();
    let mut i: usize = 0;
    let mut j: usize = 0;
    while i < a.len() || j < b.len()
        invariant
            values@.len() == keys@.len(),
            lo <= mid <= hi <= keys@.len(),
            in_order(values@, text::texts(keys@), a@, lo as int, mid as int),
            in_order(values@, text::texts(keys@), b@, mid as int, hi as int),
            i <= a@.len(),
            j <= b@.len(),
            out@.len() == i + j,
            forall|x: int| 0 <= x < out@.len() ==> lo <= (#[trigger] out@[x]) < hi,
            forall|x: int| 0 <= x < i ==> #[trigger] out@.contains(a@[x]),
            forall|x: int| 0 <= x < j ==> #[trigger] out@.contains(b@[x]),
            forall|x: int, y: int|
                0 <= x < y < out@.len() ==> ahead(
                    values@,
                    text::texts(keys@),
                    (#[trigger] out@[x]) as int,
                    (#[trigger] out@[y]) as int,
                ),
            forall|x: int, y: int|
                0 <= x < out@.len() && i <= y < a@.len() ==> ahead(
                    values@,
                    text::texts(keys@),
                    (#[trigger] out@[x]) as int,
                    (#[trigger] a@[y]) as int,
                ),
            forall|x: int, y: int|
                0 <= x < out@.len() && j <= y < b@.len() ==> ahead(
                    values@,
                    text::texts(keys@),
                    (#[trigger] out@[x]) as int,
                    (#[trigger] b@[y]) as int,
                ),
        decreases a@.len() - i + b@.len() - j,
    {
        let ghost was = out@;
        let left: bool = if i >= a.len() {
            false
        } else if j >= b.len() {
            true
        } else {
            goes_first(values, keys, a[i], b[j])
        };
        let next: usize = if left {
            a[i]
        } else {
            b[j]
        };
        proof {
            assert(i < a@.len() ==> lo <= a@[i as int] < mid);
            assert(j < b@.len() ==> mid <= b@[j as int] < hi);
            assert forall|y: int| i <= y < a@.len() && !(left && y == i) implies ahead(
                values@,
                text::texts(keys@),
                next as int,
                (#[trigger] a@[y]) as int,
            ) by {
                if left {
                    assert(ahead(values@, text::texts(keys@), a@[i as int] as int, a@[y] as int));
                } else {
                    assert(ahead(values@, text::texts(keys@), next as int, a@[i as int] as int));
                    if y > i {
                        assert(ahead(values@, text::texts(keys@), a@[i as int] as int, a@[y] as int));
                        ahead_goes_on(
                            values@,
                            text::texts(keys@),
                            next as int,
                            a@[i as int] as int,
                            a@[y] as int,
                        );
                    }
                }
            }
            assert forall|y: int| j <= y < b@.len() && !(!left && y == j) implies ahead(
                values@,
                text::texts(keys@),
                next as int,
                (#[trigger] b@[y]) as int,
            ) by {
                if !left {
                    assert(ahead(values@, text::texts(keys@), b@[j as int] as int, b@[y] as int));
                } else {
                    assert(ahead(values@, text::texts(keys@), next as int, b@[j as int] as int));
                    if y > j {
                        assert(ahead(values@, text::texts(keys@), b@[j as int] as int, b@[y] as int));
                        ahead_goes_on(
                            values@,
                            text::texts(keys@),
                            next as int,
                            b@[j as int] as int,
                            b@[y] as int,
                        );
                    }
                }
            }
        }
        out.push(next);
        proof {
            assert forall|v: usize| was.contains(v) implies #[trigger] out@.contains(v) by {
                let k = choose|k: int| 0 <= k < was.len() && was[k] == v;
                assert(out@[k] == v);
            }
            assert(out@[was.len() as int] == next);
            assert(out@.contains(next));
        }
        if left {
            i += 1;
        } else {
            j += 1;
        }
    }
    assert forall|k: int| lo <= k < hi implies #[trigger] out@.contains(k as usize) by {
        if k < mid {
            assert(a@.contains(k as usize));
            let x = choose|x: int| 0 <= x < a@.len() && a@[x] == k as usize;
            assert(out@.contains(a@[x]));
        } else {
            assert(b@.contains(k as usize));
            let x = choose|x: int| 0 <= x < b@.len() && b@[x] == k as usize;
            assert(out@.contains(b@[x]));
        }
    }
    out
}

/// An order is the only one: two lists of the same rows in order are the same
/// list.
pub proof fn an_order_is_unique(
    values: Seq<u64>,
    keys: Seq<Seq<char>>,
    r: Seq<usize>,
    s: Seq<usize>,
    lo: int,
    hi: int,
)
    requires
        0 <= lo <= hi <= usize::MAX,
        in_order(values, keys, r, lo, hi),
        in_order(values, keys, s, lo, hi),
    ensures
        r == s,
{
    assert forall|i: int| 0 <= i < r.len() implies r[i] == s[i] by {
        same_so_far(values, keys, r, s, lo, hi, i);
    }
    assert(r =~= s);
}

proof fn same_so_far(
    values: Seq<u64>,
    keys: Seq<Seq<char>>,
    r: Seq<usize>,
    s: Seq<usize>,
    lo: int,
    hi: int,
    i: int,
)
    requires
        0 <= lo <= hi <= usize::MAX,
        in_order(values, keys, r, lo, hi),
        in_order(values, keys, s, lo, hi),
        0 <= i < r.len(),
    ensures
        r[i] == s[i],
        forall|k: int| 0 <= k < i ==> r[k] == s[k],
    decreases i,
{
    if i > 0 {
        same_so_far(values, keys, r, s, lo, hi, i - 1);
    }
    // Each is somewhere in the other, and not among the first `i`.
    assert(s.contains(r[i] as int as usize));
    assert(r.contains(s[i] as int as usize));
    let p = choose|p: int| 0 <= p < s.len() && s[p] == r[i];
    let q = choose|q: int| 0 <= q < r.len() && r[q] == s[i];
    text::texts_are_ordered(keys[r[i] as int], keys[s[i] as int], keys[r[i] as int]);
    if p < i {
        assert(r[p] == s[p]);
        assert(ahead(values, keys, r[p] as int, r[i] as int));
        text::texts_are_ordered(keys[r[i] as int], keys[r[i] as int], keys[r[i] as int]);
    }
    if q < i {
        assert(r[q] == s[q]);
        assert(ahead(values, keys, s[q] as int, s[i] as int));
        text::texts_are_ordered(keys[s[i] as int], keys[s[i] as int], keys[s[i] as int]);
    }
    if p > i {
        assert(ahead(values, keys, s[i] as int, s[p] as int));
        if q > i {
            assert(ahead(values, keys, r[i] as int, r[q] as int));
        }
    }
}

} // verus!
