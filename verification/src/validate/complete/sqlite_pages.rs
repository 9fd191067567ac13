//! The pages of SQLite databases: numbers, records, cells and pages.

use vstd::prelude::*;
use crate::bytes;
use super::super::sqlite_pages as pages;
use super::super::sqlite_pages::{Cell, Layout, Shape, Tour};
use super::{be16, be32};

verus! {

broadcast use super::group_read;

// ---------------------------------------------------------------------------
// Numbers and records
// ---------------------------------------------------------------------------

/// The number that `n` groups of seven bits from `at` on spell, the highest
/// first.
pub open spec fn groups(d: Seq<u8>, at: int, n: int) -> int
    decreases n,
{
    if n <= 0 {
        0
    } else {
        0x80 * groups(d, at, n - 1) + d[at + n - 1] as int % 0x80
    }
}

proof fn along_the_groups(d: Seq<u8>, at: int, n: int, i: int)
    requires
        0 <= i <= n <= 8,
        0 <= at,
        at + n < d.len(),
        forall|j: int| 0 <= j < n ==> #[trigger] d[at + j] >= 128,
    ensures
        pages::varint_from(d, at, i, groups(d, at, i)) == pages::varint_from(
            d,
            at,
            n,
            groups(d, at, n),
        ),
    decreases n - i,
{
    if i < n {
        assert(d[at + i] >= 128);
        assert(groups(d, at, i + 1) == 0x80 * groups(d, at, i) + d[at + i] as int % 0x80);
        along_the_groups(d, at, n, i + 1);
    }
}

/// A number takes one byte more than the bytes before it that have their top
/// bit set, up to nine; seven bits of each count, and all eight of a ninth.
pub proof fn a_varint_is_its_groups(d: Seq<u8>, at: int, n: int)
    requires
        0 <= n <= 8,
        0 <= at,
        at + n < d.len(),
        forall|j: int| 0 <= j < n ==> #[trigger] d[at + j] >= 128,
        n < 8 ==> d[at + n] < 128,
    ensures
        pages::varint_at(d, at) == Some(
            (
                if n < 8 {
                    0x80 * groups(d, at, n) + d[at + n]
                } else {
                    0x100 * groups(d, at, n) + d[at + n]
                },
                n + 1,
            ),
        ),
{
    along_the_groups(d, at, n, 0);
}

/// What columns take by their type: nothing for NULL and the constants 0 and 1;
/// 1, 2, 3, 4, 6 and 8 bytes for integers; 8 for a real; and for a blob or a
/// text half of what its type is past 12 or 13.
pub proof fn columns_take_what_their_type_says(n: int)
    requires
        n >= 0,
    ensures
        pages::size_of(0) == Some(0int),
        pages::size_of(1) == Some(1int),
        pages::size_of(2) == Some(2int),
        pages::size_of(3) == Some(3int),
        pages::size_of(4) == Some(4int),
        pages::size_of(5) == Some(6int),
        pages::size_of(6) == Some(8int),
        pages::size_of(7) == Some(8int),
        pages::size_of(8) == Some(0int),
        pages::size_of(9) == Some(0int),
        pages::size_of(10) is None,
        pages::size_of(11) is None,
        pages::size_of(12 + 2 * n) == Some(n),
        pages::size_of(13 + 2 * n) == Some(n),
{
}

/// A schema row whose header is `hdr` bytes, and whose five columns have types
/// of one byte each, names as its root the number in its fourth column, behind
/// the first three.
pub proof fn a_schema_row_names_its_root(rec: Seq<u8>, a: int, b: int, c: int)
    requires
        rec.len() >= 6,
        rec[0] == 6,
        forall|i: int| 1 <= i < 6 ==> #[trigger] rec[i] < 128,
        pages::size_of(rec[1] as int) == Some(a),
        pages::size_of(rec[2] as int) == Some(b),
        pages::size_of(rec[3] as int) == Some(c),
        1 <= rec[4] <= 4 || rec[4] == 8 || rec[4] == 9,
        rec[4] <= 4 ==> 6 + a + b + c + rec[4] <= rec.len(),
        6 + a + b + c <= rec.len(),
    ensures
        ({
            let at = 6 + a + b + c;
            pages::rootpage_of(rec) == Some(
                if rec[4] == 1 {
                    rec[at] as int
                } else if rec[4] == 2 {
                    be16(rec, at)
                } else if rec[4] == 3 {
                    0x1_0000 * rec[at] + be16(rec, at + 1)
                } else if rec[4] == 4 {
                    be32(rec, at)
                } else if rec[4] == 8 {
                    0
                } else {
                    1
                },
            )
        }),
{
    a_varint_is_its_groups(rec, 0, 0);
    a_varint_is_its_groups(rec, 1, 0);
    a_varint_is_its_groups(rec, 2, 0);
    a_varint_is_its_groups(rec, 3, 0);
    a_varint_is_its_groups(rec, 4, 0);
    a_varint_is_its_groups(rec, 5, 0);
    assert(groups(rec, 0, 0) == 0);
    reveal_with_fuel(pages::types_from, 6);
    reveal_with_fuel(pages::big_endian, 5);
    let none = Seq::<int>::empty();
    let types = pages::types_from(rec, 1, 6, none)->0;
    assert(types[0] == rec[1] && types[1] == rec[2] && types[2] == rec[3] && types[3] == rec[4]);
}

// ---------------------------------------------------------------------------
// Cells
// ---------------------------------------------------------------------------

/// A payload that fits is all on its page. Of one that does not, no more than
/// fits and no less than the least there is, and what spills over fills whole
/// overflow pages, unless only the least is kept.
pub proof fn a_payload_spills_in_whole_pages(usable: int, payload: int, table_leaf: bool)
    requires
        usable >= 480,
        payload >= 0,
    ensures
        ({
            let most = if table_leaf {
                usable - 35
            } else {
                (usable - 12) * 64 / 255 - 23
            };
            let least = (usable - 12) * 32 / 255 - 23;
            let local = pages::local_part(usable, payload, table_leaf);
            &&& payload <= most ==> local == payload
            &&& payload > most ==> {
                &&& least <= local <= most
                &&& local == least || (payload - local) % (usable - 4) == 0
                &&& local == least ==> (payload - least) % (usable - 4) == 0 || least + (payload
                    - least) % (usable - 4) > most
            }
        }),
{
    let least = (usable - 12) * 32 / 255 - 23;
    let m = usable - 4;
    let x = payload - least;
    vstd::arithmetic::div_mod::lemma_mod_bound(x, m);
    vstd::arithmetic::div_mod::lemma_fundamental_div_mod(x, m);
    let q = x / m;
    assert((x - x % m) % m == 0) by {
        assert(x - x % m == m * q);
        vstd::arithmetic::div_mod::lemma_mod_multiples_basic(q, m);
        assert(m * q == q * m) by (nonlinear_arith);
    }
}

/// Whether the header of page `n` is in order: it is an index or a table page,
/// interior or leaf; its cell pointers fit, its content lies behind them and on
/// the page, no more than 60 bytes are fragments, and there is no freeblock.
pub open spec fn header_in_order(c: Shape, n: int, lay: Layout) -> bool {
    let p = c.page(n);
    let start = be16(p, lay.h + 5);
    &&& lay.h == (if n == 1 {
        100int
    } else {
        0int
    })
    &&& p[lay.h] == (if lay.table {
        if lay.interior {
            5u8
        } else {
            13u8
        }
    } else {
        if lay.interior {
            2u8
        } else {
            10u8
        }
    })
    &&& lay.array == lay.h + (if lay.interior {
        12int
    } else {
        8int
    })
    &&& lay.cells == be16(p, lay.h + 3)
    &&& lay.array_end == lay.array + 2 * lay.cells
    &&& lay.content == (if start == 0 {
        65536
    } else {
        start
    })
    &&& lay.array_end <= lay.content <= c.usable
    &&& p[lay.h + 7] <= 60
    &&& be16(p, lay.h + 1) == 0
}

/// A page whose header is in order is read as it says.
pub proof fn a_page_is_what_its_header_says(c: Shape, n: int, lay: Layout)
    requires
        header_in_order(c, n, lay),
    ensures
        pages::layout_of(c, n) == Ok::<Layout, pages::Harm>(lay),
{
}

/// A page that is none of the four kinds is no page of a tree.
pub proof fn another_kind_is_damage(c: Shape, n: int)
    requires
        ({
            let kind = c.page(n)[if n == 1 {
                100
            } else {
                0
            }];
            kind != 2 && kind != 5 && kind != 10 && kind != 13
        }),
    ensures
        pages::layout_of(c, n) matches Err(h) && h.page == n,
{
}

/// Whether the `i`-th cell of a table leaf holds a row of `payload` bytes, all
/// on the page, behind its size and its key, which take a byte each.
pub open spec fn holds_row(c: Shape, n: int, lay: Layout, i: int, payload: int) -> bool {
    let p = c.page(n);
    let off = be16(p, lay.array + 2 * i);
    &&& bytes::larger(lay.array_end, lay.content) <= off
    &&& off + 2 + payload <= c.usable
    &&& p[off] == payload
    &&& payload < 128
    &&& p[off + 1] < 128
    &&& payload <= c.usable - 35
}

proof fn row_read(c: Shape, n: int, lay: Layout, i: int, payload: int)
    requires
        c.stands(),
        1 <= n <= c.page_count,
        0 <= lay.array_end,
        lay.table,
        !lay.interior,
        holds_row(c, n, lay, i, payload),
    ensures
        ({
            let off = be16(c.page(n), lay.array + 2 * i);
            pages::cell_at(c, n, lay, i) == (Cell::Payload {
                child: None,
                at: off + 2,
                local: payload,
                payload,
            })
        }),
{
    let p = c.page(n);
    let off = be16(p, lay.array + 2 * i);
    page_fits(c, n);
    a_varint_is_its_groups(p, off, 0);
    a_varint_is_its_groups(p, off + 1, 0);
    assert(groups(p, off, 0) == 0 && groups(p, off + 1, 0) == 0);
}

proof fn page_fits(c: Shape, n: int)
    requires
        c.stands(),
        1 <= n <= c.page_count,
    ensures
        c.page(n).len() == c.page_size,
        c.usable <= c.page_size,
{
    assert((n - 1) * c.page_size >= 0 && (n - 1) * c.page_size + c.page_size <= c.page_count
        * c.page_size) by (nonlinear_arith)
        requires
            1 <= n <= c.page_count,
            c.page_size >= 0,
    ;
}

proof fn along_the_rows(
    c: Shape,
    n: int,
    lay: Layout,
    payloads: Seq<int>,
    i: int,
    t: Tour,
    stack: Seq<(int, int)>,
)
    requires
        c.stands(),
        1 <= n <= c.page_count,
        0 <= lay.array_end,
        lay.table,
        !lay.interior,
        lay.cells == payloads.len(),
        forall|k: int| 0 <= k < payloads.len() ==> #[trigger] holds_row(c, n, lay, k, payloads[k]),
        0 <= i <= payloads.len(),
    ensures
        pages::cells_from(c, n, lay, false, i, t, stack) == Ok::<
            (Tour, Seq<(int, int)>),
            pages::Harm,
        >((t, stack)),
    decreases payloads.len() - i,
{
    if i < payloads.len() {
        assert(holds_row(c, n, lay, i, payloads[i]));
        row_read(c, n, lay, i, payloads[i]);
        along_the_rows(c, n, lay, payloads, i + 1, t, stack);
    }
}

/// A leaf of a table whose header is in order, and whose cells all hold short
/// rows, is passed, and counts as one page of its tree; it leads nowhere else.
pub proof fn a_leaf_in_order_is_passed(
    c: Shape,
    t: Tour,
    n: int,
    lay: Layout,
    payloads: Seq<int>,
    stack: Seq<(int, int)>,
)
    requires
        c.stands(),
        1 <= n <= c.page_count,
        header_in_order(c, n, lay),
        lay.table,
        !lay.interior,
        lay.cells == payloads.len(),
        forall|k: int| 0 <= k < payloads.len() ==> #[trigger] holds_row(c, n, lay, k, payloads[k]),
    ensures
        pages::visit(c, t, n, false, stack) == Ok::<(Tour, Seq<(int, int)>), pages::Harm>(
            (Tour { btree_pages: t.btree_pages + 1, ..t }, stack),
        ),
{
    a_page_is_what_its_header_says(c, n, lay);
    page_fits(c, n);
    along_the_rows(
        c,
        n,
        lay,
        payloads,
        0,
        Tour { btree_pages: t.btree_pages + 1, ..t },
        stack,
    );
}

/// Whether the `i`-th cell of an interior table page is inside its content.
pub open spec fn leads_on(c: Shape, n: int, lay: Layout, i: int) -> bool {
    let off = be16(c.page(n), lay.array + 2 * i);
    bytes::larger(lay.array_end, lay.content) <= off && off + 4 <= c.usable
}

/// The pages that the cells of an interior table page lead to, from the `i`-th
/// on, each with the page that names it.
pub open spec fn led_to(c: Shape, n: int, lay: Layout, i: int) -> Seq<(int, int)>
    decreases lay.cells - i,
{
    if i >= lay.cells {
        Seq::empty()
    } else {
        seq![(be32(c.page(n), be16(c.page(n), lay.array + 2 * i)), n)] + led_to(c, n, lay, i + 1)
    }
}

proof fn along_the_children(
    c: Shape,
    n: int,
    lay: Layout,
    schema: bool,
    i: int,
    t: Tour,
    stack: Seq<(int, int)>,
)
    requires
        c.stands(),
        1 <= n <= c.page_count,
        lay.table,
        lay.interior,
        0 <= i <= lay.cells,
        forall|k: int| 0 <= k < lay.cells ==> #[trigger] leads_on(c, n, lay, k),
    ensures
        pages::cells_from(c, n, lay, schema, i, t, stack) == Ok::<
            (Tour, Seq<(int, int)>),
            pages::Harm,
        >((t, stack + led_to(c, n, lay, i))),
    decreases lay.cells - i,
{
    if i < lay.cells {
        assert(leads_on(c, n, lay, i));
        page_fits(c, n);
        let child = be32(c.page(n), be16(c.page(n), lay.array + 2 * i));
        along_the_children(c, n, lay, schema, i + 1, t, stack.push((child, n)));
        assert(stack.push((child, n)) + led_to(c, n, lay, i + 1) =~= stack + (seq![(child, n)]
            + led_to(c, n, lay, i + 1)));
    } else {
        assert(stack + led_to(c, n, lay, i) =~= stack);
    }
}

/// An interior page of a table leads to the page in each of its cells and, last,
/// to the one in its header: all of them are still to be visited, and none else.
pub proof fn an_interior_page_leads_to_its_children(
    c: Shape,
    t: Tour,
    n: int,
    schema: bool,
    lay: Layout,
    stack: Seq<(int, int)>,
)
    requires
        c.stands(),
        1 <= n <= c.page_count,
        header_in_order(c, n, lay),
        lay.table,
        lay.interior,
        forall|k: int| 0 <= k < lay.cells ==> #[trigger] leads_on(c, n, lay, k),
    ensures
        pages::visit(c, t, n, schema, stack) == Ok::<(Tour, Seq<(int, int)>), pages::Harm>(
            (
                Tour { btree_pages: t.btree_pages + 1, ..t },
                (stack + led_to(c, n, lay, 0)).push((be32(c.page(n), lay.h + 8), n)),
            ),
        ),
{
    a_page_is_what_its_header_says(c, n, lay);
    page_fits(c, n);
    along_the_children(
        c,
        n,
        lay,
        schema,
        0,
        Tour { btree_pages: t.btree_pages + 1, ..t },
        stack,
    );
}

// ---------------------------------------------------------------------------
// Pages that belong to nothing else
// ---------------------------------------------------------------------------

/// A page may be reached once: a pointer to a page that the database has, and
/// that nothing else has claimed, is followed, and claims just that page; any
/// other is damage on the page that holds the pointer.
pub proof fn a_page_is_reached_once(
    c: Shape,
    claimed: Seq<bool>,
    from: int,
    n: int,
    what: Seq<char>,
)
    requires
        claimed.len() == c.page_count + 1,
        0 <= n,
    ensures
        match pages::claim(c, claimed, from, n, what) {
            Ok(after) => {
                &&& 1 <= n <= c.page_count
                &&& !claimed[n]
                &&& after.len() == claimed.len()
                &&& after[n]
                &&& forall|k: int| 0 <= k < after.len() && k != n ==> after[k] == claimed[k]
            },
            Err(h) => (n < 1 || n > c.page_count || claimed[n]) && h.page == from,
        },
{
}

/// Before a walk the first page is taken, and the one at one gibibyte, which is
/// never used; where there are pointer maps, so is the second page, and from
/// there every page that comes after as many as one map has entries of five
/// bytes for. No other is.
pub proof fn some_pages_are_never_reached(c: Shape, maps: bool, n: int)
    requires
        c.stands(),
        c.usable >= 480,
        1 <= n <= c.page_count,
    ensures
        pages::claimed_at_first(c, maps)[n] <==> {
            ||| n == 1
            ||| (n - 1) * c.page_size <= 0x4000_0000 < n * c.page_size
            ||| maps && exists|k: int| k >= 0 && n == #[trigger] (k * (c.usable / 5 + 1)) + 2
        },
{
    let s = c.page_size;
    let at = 0x4000_0000int;
    vstd::arithmetic::div_mod::lemma_fundamental_div_mod(at, s);
    vstd::arithmetic::div_mod::lemma_mod_bound(at, s);
    let q = at / s;
    assert(n == q + 1 <==> (n - 1) * s <= at < n * s) by (nonlinear_arith)
        requires
            at == s * q + at % s,
            0 <= at % s < s,
    ;
    let m = c.usable / 5 + 1;
    assert(m > 0);
    if n >= 2 && (n - 2) % m == 0 {
        vstd::arithmetic::div_mod::lemma_fundamental_div_mod(n - 2, m);
        let k = (n - 2) / m;
        assert(k >= 0) by (nonlinear_arith)
            requires
                k == (n - 2) / m,
                n >= 2,
                m > 0,
        ;
        assert(n == k * m + 2) by {
            assert(m * k == k * m) by (nonlinear_arith);
        }
    }
    if exists|k: int| k >= 0 && n == #[trigger] (k * m) + 2 {
        let k = choose|k: int| k >= 0 && n == #[trigger] (k * m) + 2;
        assert(k * m >= 0) by (nonlinear_arith)
            requires
                k >= 0,
                m > 0,
        ;
        vstd::arithmetic::div_mod::lemma_mod_multiples_basic(k, m);
    }
}

/// An overflow page that holds the rest of a payload, and names none after it,
/// ends its chain, and counts as one.
pub proof fn the_last_overflow_page_ends_the_chain(
    c: Shape,
    t: Tour,
    prev: int,
    n: int,
    remaining: int,
)
    requires
        c.stands(),
        c.usable >= 480,
        t.claimed.len() == c.page_count + 1,
        1 <= n <= c.page_count,
        !t.claimed[n],
        0 < remaining <= c.usable - 4,
    ensures
        ({
            let r = pages::overflow_from(c, t, prev, n, remaining);
            if be32(c.page(n), 0) == 0 {
                r matches Ok(after) && after.overflow_pages == t.overflow_pages + 1
                    && after.btree_pages == t.btree_pages && after.claimed[n]
            } else {
                r matches Err(h) && h.page == n
            }
        }),
{
    page_fits(c, n);
    reveal_with_fuel(pages::overflow_from, 2);
}

/// An overflow page before the last leads to the page that it names, with as
/// much of the payload behind it as a page holds but for that name; one that
/// names none is damage.
pub proof fn an_overflow_page_leads_to_the_next(
    c: Shape,
    t: Tour,
    prev: int,
    n: int,
    remaining: int,
)
    requires
        c.stands(),
        c.usable >= 480,
        t.claimed.len() == c.page_count + 1,
        1 <= n <= c.page_count,
        !t.claimed[n],
        remaining > c.usable - 4,
    ensures
        ({
            let r = pages::overflow_from(c, t, prev, n, remaining);
            let next = be32(c.page(n), 0);
            if next == 0 {
                r matches Err(h) && h.page == n
            } else {
                r == pages::overflow_from(
                    c,
                    Tour {
                        claimed: t.claimed.update(n, true),
                        overflow_pages: t.overflow_pages + 1,
                        ..t
                    },
                    n,
                    next,
                    remaining - (c.usable - 4),
                )
            }
        }),
{
    page_fits(c, n);
}

} // verus!
