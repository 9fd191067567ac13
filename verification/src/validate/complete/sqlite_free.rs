//! The free space of SQLite databases: freeblocks on a page, and the freelist.

use vstd::prelude::*;
use super::super::sqlite_pages as pages;
use super::super::sqlite_pages::{Layout, Shape, Tour};
use super::{be16, be32};

verus! {

broadcast use super::group_read;

// ---------------------------------------------------------------------------
// Freeblocks
// ---------------------------------------------------------------------------

/// Whether the `j`-th of these freeblocks lies behind the cell pointers and on
/// the page, and leads to the next, which lies further on, or to none.
pub open spec fn nth_free(c: Shape, p: Seq<u8>, array_end: int, free: Seq<int>, j: int) -> bool {
    &&& free[j] > 0
    &&& array_end <= free[j]
    &&& free[j] + 4 <= c.usable
    &&& free[j + 1] == be16(p, free[j])
    &&& free[j + 1] == 0 || free[j] < free[j + 1]
}

proof fn along_the_freeblocks(c: Shape, p: Seq<u8>, array_end: int, free: Seq<int>, j: int)
    requires
        0 <= j < free.len(),
        free.len() - 1 <= c.page_size / 4,
        forall|i: int| 0 <= i < free.len() - 1 ==> #[trigger] nth_free(c, p, array_end, free, i),
    ensures
        pages::freeblocks_from(c, p, array_end, free[j], j) == pages::freeblocks_from(
            c,
            p,
            array_end,
            free.last(),
            free.len() - 1,
        ),
    decreases free.len() - j,
{
    if j < free.len() - 1 {
        assert(nth_free(c, p, array_end, free, j));
        along_the_freeblocks(c, p, array_end, free, j + 1);
    }
}

/// Freeblocks that follow each other up the page to the last are in order. One
/// that lies among the cell pointers or off the page, or that leads back, is
/// not.
pub proof fn freeblocks_lead_up_the_page(c: Shape, p: Seq<u8>, array_end: int, free: Seq<int>)
    requires
        0 < free.len() <= c.page_size / 4,
        forall|i: int| 0 <= i < free.len() - 1 ==> #[trigger] nth_free(c, p, array_end, free, i),
    ensures
        ({
            let r = pages::freeblocks_from(c, p, array_end, free[0], 0);
            let last = free.last();
            &&& last == 0 ==> r is None
            &&& last != 0 && (last < array_end || last + 4 > c.usable) ==> r is Some
            &&& last != 0 && be16(p, last) != 0 && be16(p, last) <= last ==> r is Some
        }),
{
    along_the_freeblocks(c, p, array_end, free, 0);
}

// ---------------------------------------------------------------------------
// Page headers
// ---------------------------------------------------------------------------

/// Whether this is what the header of page `n` says, and its kind is one of the
/// four.
pub open spec fn header_says(c: Shape, n: int, lay: Layout) -> bool {
    let p = c.page(n);
    let start = be16(p, lay.h + 5);
    &&& lay.h == (if n == 1 {
        100int
    } else {
        0int
    })
    &&& p[lay.h] == (if lay.table {
        if lay.interior {
            5u8
        } else {
            13u8
        }
    } else {
        if lay.interior {
            2u8
        } else {
            10u8
        }
    })
    &&& lay.array == lay.h + (if lay.interior {
        12int
    } else {
        8int
    })
    &&& lay.cells == be16(p, lay.h + 3)
    &&& lay.array_end == lay.array + 2 * lay.cells
    &&& lay.content == (if start == 0 {
        65536
    } else {
        start
    })
}

/// A page is in order as a page of a tree exactly where its content lies behind
/// its cell pointers and on the page, no more than 60 of its bytes are fragments,
/// and its freeblocks are in order; and then it is what its header says.
pub proof fn a_page_is_in_order_where_its_parts_fit(
    c: Shape,
    n: int,
    lay: Layout,
    free: Seq<int>,
)
    requires
        header_says(c, n, lay),
        0 < free.len() <= c.page_size / 4,
        free[0] == be16(c.page(n), lay.h + 1),
        forall|i: int|
            0 <= i < free.len() - 1 ==> #[trigger] nth_free(c, c.page(n), lay.array_end, free, i),
        free.last() == 0,
    ensures
        match pages::layout_of(c, n) {
            Ok(l) => {
                &&& l == lay
                &&& lay.array_end <= lay.content <= c.usable
                &&& c.page(n)[lay.h + 7] <= 60
            },
            Err(h) => {
                &&& h.page == n
                &&& !(lay.array_end <= lay.content <= c.usable) || c.page(n)[lay.h + 7] > 60
            },
        },
{
    freeblocks_lead_up_the_page(c, c.page(n), lay.array_end, free);
}

// ---------------------------------------------------------------------------
// The freelist
// ---------------------------------------------------------------------------

/// How many leaves the trunk page `n` lists.
pub open spec fn leaf_count(c: Shape, n: int) -> int {
    be32(c.page(n), 4)
}

/// The `k`-th leaf that the trunk page `n` lists.
pub open spec fn leaf(c: Shape, n: int, k: int) -> int {
    be32(c.page(n), 8 + 4 * k)
}

/// Whether page `n` may be a trunk of the freelist: a page that nothing else has
/// claimed, with no more leaves than fit, each of them a page that nothing has
/// claimed, and none listed twice.
pub open spec fn trunk_fits(c: Shape, claimed: Seq<bool>, n: int) -> bool {
    &&& 1 <= n <= c.page_count
    &&& !claimed[n]
    &&& 8 + 4 * leaf_count(c, n) <= c.page(n).len()
    &&& leaf_count(c, n) + 2 <= c.usable / 4
    &&& forall|k: int|
        0 <= k < leaf_count(c, n) ==> 1 <= #[trigger] leaf(c, n, k) <= c.page_count && leaf(
            c,
            n,
            k,
        ) != n && !claimed[leaf(c, n, k)]
    &&& forall|j: int, k: int|
        0 <= j < k < leaf_count(c, n) ==> #[trigger] leaf(c, n, j) != #[trigger] leaf(c, n, k)
}

/// The pages claimed once page `n` and its first `k` leaves are.
pub open spec fn with_leaves(c: Shape, claimed: Seq<bool>, n: int, k: int) -> Seq<bool> {
    Seq::new(
        claimed.len(),
        |p: int| claimed[p] || p == n || exists|i: int| 0 <= i < k && #[trigger] leaf(c, n, i) == p,
    )
}

proof fn along_the_leaves(c: Shape, claimed: Seq<bool>, n: int, k: int, counted: int)
    requires
        claimed.len() == c.page_count + 1,
        trunk_fits(c, claimed, n),
        0 <= k <= leaf_count(c, n),
    ensures
        pages::leaves_from(
            c,
            n,
            leaf_count(c, n),
            k,
            with_leaves(c, claimed, n, k),
            counted + k,
        ) == Ok::<(Seq<bool>, int), pages::Harm>(
            (with_leaves(c, claimed, n, leaf_count(c, n)), counted + leaf_count(c, n)),
        ),
    decreases leaf_count(c, n) - k,
{
    if k < leaf_count(c, n) {
        let now = with_leaves(c, claimed, n, k);
        let next = with_leaves(c, claimed, n, k + 1);
        let l = leaf(c, n, k);
        assert(pages::u32_or_zero(c.page(n), 8 + 4 * k) == l);
        assert(!now[l]) by {
            if exists|i: int| 0 <= i < k && #[trigger] leaf(c, n, i) == l {
                let i = choose|i: int| 0 <= i < k && #[trigger] leaf(c, n, i) == l;
                assert(leaf(c, n, i) != leaf(c, n, k));
            }
        }
        assert(now.update(l, true) =~= next) by {
            assert forall|p: int| 0 <= p < now.len() implies now.update(l, true)[p] == #[trigger] next[p] by {
                if p == l {
                    assert(0 <= k < k + 1 && leaf(c, n, k) == p);
                }
                if next[p] && p != l && !claimed[p] && p != n {
                    let i = choose|i: int| 0 <= i < k + 1 && #[trigger] leaf(c, n, i) == p;
                    assert(0 <= i < k && leaf(c, n, i) == p);
                }
                if now[p] && !claimed[p] && p != n {
                    let i = choose|i: int| 0 <= i < k && #[trigger] leaf(c, n, i) == p;
                    assert(0 <= i < k + 1 && leaf(c, n, i) == p);
                }
            }
        }
        along_the_leaves(c, claimed, n, k + 1, counted);
    }
}

/// A trunk page of the freelist that fits claims itself and its leaves and no
/// other page, counts each of them, and leads to the trunk that its first four
/// bytes name.
pub proof fn a_trunk_leads_to_the_next(
    c: Shape,
    claimed: Seq<bool>,
    prev: int,
    n: int,
    counted: int,
)
    requires
        claimed.len() == c.page_count + 1,
        trunk_fits(c, claimed, n),
    ensures
        pages::freelist_from(c, claimed, prev, n, counted) == pages::freelist_from(
            c,
            with_leaves(c, claimed, n, leaf_count(c, n)),
            n,
            be32(c.page(n), 0),
            counted + 1 + leaf_count(c, n),
        ),
{
    assert(claimed.update(n, true) =~= with_leaves(c, claimed, n, 0));
    assert(pages::u32_or_zero(c.page(n), 0) == be32(c.page(n), 0));
    assert(pages::u32_or_zero(c.page(n), 4) == leaf_count(c, n));
    along_the_leaves(c, claimed, n, 0, counted + 1);
}

/// The freelist ends where no further trunk is named. A trunk that the database
/// does not have, or that something else has claimed, is damage on the page that
/// names it; one with more leaves than fit is damage on itself.
pub proof fn a_freelist_ends_or_breaks(
    c: Shape,
    claimed: Seq<bool>,
    prev: int,
    n: int,
    counted: int,
)
    requires
        claimed.len() == c.page_count + 1,
        0 <= n,
    ensures
        ({
            let r = pages::freelist_from(c, claimed, prev, n, counted);
            &&& n == 0 ==> r == Ok::<(Seq<bool>, int), pages::Harm>((claimed, counted))
            &&& n > 0 && (n > c.page_count || claimed[n]) ==> (r matches Err(h) && h.page == prev)
            &&& 1 <= n <= c.page_count && !claimed[n] && c.page(n).len() >= 8 && c.usable >= 8
                && leaf_count(c, n) + 2 > c.usable / 4 ==> (r matches Err(h) && h.page == n)
        }),
{
    if 1 <= n <= c.page_count && c.page(n).len() >= 8 {
        assert(pages::u32_or_zero(c.page(n), 4) == leaf_count(c, n));
    }
}

/// The freelist must have as many pages as the header declares, and then what was
/// counted is told.
pub proof fn the_freelist_is_as_long_as_declared(
    counted: int,
    trunk: int,
    declared: int,
    t: Tour,
    trees: int,
)
    ensures
        match pages::freelist_check(counted, trunk, declared, t, trees) {
            Ok(r) => {
                &&& counted == declared
                &&& r.freelist_pages == declared
                &&& r.btree_pages == t.btree_pages
                &&& r.overflow_pages == t.overflow_pages
                &&& r.trees == trees
            },
            Err(h) => counted != declared && h.page == (if trunk > 0 {
                trunk
            } else {
                1
            }),
        },
{
}

} // verus!
