//! Walk a SQLite database's page structure, and say where it breaks.
//!
//! The header tells how big a database is and nothing about whether its pages
//! are its own: a page overwritten with anything at all leaves it intact. So
//! the database is walked the way SQLite reads it. Page 1 holds the schema
//! table, whose rows name the root page of every other table and index; every
//! b-tree is walked from its root, every overflow chain and the freelist are
//! followed, and no page may be reached twice.
//!
//! The first page that fails is reported. Pages the walk never reaches are not
//! judged. Each page is visited at most once, so the walk is linear.

use vstd::prelude::*;
use vstd::arithmetic::mul::*;
use vstd::slice::*;
use crate::bytes;
use crate::text;

verus! {

broadcast use bytes::slice_fits;

/// Where and why the page structure fails.
#[derive(Debug, PartialEq, Eq)]
pub struct Damage {
    /// 1-based page number.
    pub page: u32,
    pub why: String,
}

/// What a clean walk established.
#[derive(Debug, PartialEq, Eq)]
pub struct Walked {
    pub btree_pages: u32,
    pub overflow_pages: u32,
    pub freelist_pages: u32,
    pub trees: u32,
}

/// The mathematical content of a [`Damage`].
pub struct Harm {
    pub page: int,
    pub why: Seq<char>,
}

impl View for Damage {
    type V = Harm;

    open spec fn view(&self) -> Harm {
        Harm { page: self.page as int, why: self.why@ }
    }
}

/// A database: its bytes, the size of a page, how much of a page is usable,
/// and how many pages there are.
pub struct Shape {
    pub d: Seq<u8>,
    pub page_size: int,
    pub usable: int,
    pub page_count: int,
}

impl Shape {
    /// The bytes of page `n`, counted from 1.
    pub open spec fn page(self, n: int) -> Seq<u8> {
        self.d.subrange((n - 1) * self.page_size, (n - 1) * self.page_size + self.page_size)
    }

    /// All pages are present, and a page is large enough to hold cells.
    pub open spec fn stands(self) -> bool {
        &&& 196 <= self.usable <= self.page_size
        &&& 1 <= self.page_count
        &&& self.page_count * self.page_size <= self.d.len()
    }
}

// ---------------------------------------------------------------------------
// Varints and schema records
// ---------------------------------------------------------------------------

/// A varint of which `i` groups, of value `v`, have been read.
pub open spec fn varint_from(d: Seq<u8>, at: int, i: int, v: int) -> Option<(int, int)>
    decreases 9 - i,
{
    if i > 8 || at + i >= d.len() {
        None
    } else if i == 8 {
        Some((v * 256 + d[at + i], 9))
    } else if d[at + i] < 128 {
        Some((v * 128 + d[at + i], i + 1))
    } else {
        varint_from(d, at, i + 1, v * 128 + d[at + i] - 128)
    }
}

/// The varint at `at`: its value and how many bytes it takes. One to nine
/// bytes, seven bits each, the highest first; the ninth byte gives all eight.
pub open spec fn varint_at(d: Seq<u8>, at: int) -> Option<(int, int)> {
    varint_from(d, at, 0, 0)
}

proof fn varint_bounds(d: Seq<u8>, at: int, i: int, v: int, room: int)
    requires
        0 <= i <= 8,
        0 <= v < room,
        i == 0 ==> room == 1,
        i == 1 ==> room == 0x80,
        i == 2 ==> room == 0x4000,
        i == 3 ==> room == 0x20_0000,
        i == 4 ==> room == 0x1000_0000,
        i == 5 ==> room == 0x8_0000_0000,
        i == 6 ==> room == 0x400_0000_0000,
        i == 7 ==> room == 0x2_0000_0000_0000,
        i == 8 ==> room == 0x100_0000_0000_0000,
    ensures
        varint_from(d, at, i, v) matches Some((value, len)) ==> 0 <= value <= u64::MAX && i < len <= 9
            && at + len <= d.len(),
    decreases 9 - i,
{
    if i < 8 && at + i < d.len() && d[at + i] >= 128 {
        varint_bounds(d, at, i + 1, v * 128 + d[at + i] - 128, room * 128);
    }
}

/// A varint: one to nine bytes, big-endian seven-bit groups, the ninth byte
/// contributing all eight bits. Returns the value and its length.
pub fn varint(d: &[u8], at: usize) -> (r: Option<(u64, usize)>)
    ensures
        match r {
            Some((v, n)) => varint_at(d@, at as int) == Some((v as int, n as int)),
            None => varint_at(d@, at as int) is None,
        },
        r matches Some((v, n)) ==> 1 <= n <= 9 && at + n <= d@.len(),
{
    let mut v: u64 = 0;
    let mut i: usize = 0;
    let ghost mut room: int = 1;
    let len: usize = d.len();
    proof {
        varint_bounds(d@, at as int, 0, 0, 1);
    }
    if at >= len {
        return None;
    }
    while i < 9
        invariant
            0 <= i <= 8,
            at < len,
            at + i <= len,
            len == d@.len(),
            0 <= v < room,
            i == 0 ==> room == 1,
            i == 1 ==> room == 0x80,
            i == 2 ==> room == 0x4000,
            i == 3 ==> room == 0x20_0000,
            i == 4 ==> room == 0x1000_0000,
            i == 5 ==> room == 0x8_0000_0000,
            i == 6 ==> room == 0x400_0000_0000,
            i == 7 ==> room == 0x2_0000_0000_0000,
            i == 8 ==> room == 0x100_0000_0000_0000,
            varint_at(d@, at as int) == varint_from(d@, at as int, i as int, v as int),
        decreases 9 - i,
    {
        if i >= len - at {
            return None;
        }
        let b: u8 = d[at + i];
        if i == 8 {
            return Some((v * 256 + b as u64, 9));
        }
        if b < 128 {
            return Some((v * 128 + b as u64, i + 1));
        }
        v = v * 128 + (b - 128) as u64;
        proof {
            room = room * 128;
        }
        i += 1;
    }
    None
}

/// How many bytes a column of the given serial type takes.
pub open spec fn size_of(t: int) -> Option<int> {
    if t == 0 || t == 8 || t == 9 {
        Some(0)
    } else if 1 <= t <= 4 {
        Some(t)
    } else if t == 5 {
        Some(6)
    } else if t == 6 || t == 7 {
        Some(8)
    } else if t >= 12 {
        Some((t - 12) / 2)
    } else {
        None
    }
}

/// The serial types of a record's columns, up to five of them; `None` where
/// one runs off the record.
pub open spec fn types_from(rec: Seq<u8>, at: int, hdr: int, types: Seq<int>) -> Option<Seq<int>>
    decreases 5 - types.len(),
{
    if at >= hdr || types.len() >= 5 {
        Some(types)
    } else {
        match varint_at(rec, at) {
            None => None,
            Some((t, n)) => types_from(rec, at + n, hdr, types.push(t)),
        }
    }
}

/// `n` bytes at `at`, as a big-endian number.
pub open spec fn big_endian(d: Seq<u8>, at: int, n: int) -> int
    decreases n,
{
    if n <= 0 {
        0
    } else {
        big_endian(d, at, n - 1) * 256 + d[at + n - 1]
    }
}

/// The fourth column of a schema record, where it is a small integer.
pub open spec fn rootpage_of(rec: Seq<u8>) -> Option<int> {
    match varint_at(rec, 0) {
        None => None,
        Some((hdr, n)) => if hdr > rec.len() {
            None
        } else {
            match types_from(rec, n, hdr, Seq::empty()) {
                None => None,
                Some(types) => if types.len() < 4 {
                    None
                } else {
                    match (size_of(types[0]), size_of(types[1]), size_of(types[2]), size_of(types[3])) {
                        (Some(a), Some(b), Some(c), Some(size)) => {
                            let body = hdr + a + b + c;
                            if body + size > rec.len() {
                                None
                            } else if types[3] == 8 {
                                Some(0)
                            } else if types[3] == 9 {
                                Some(1)
                            } else if 1 <= types[3] <= 4 {
                                Some(big_endian(rec, body, size))
                            } else {
                                None
                            }
                        },
                        _ => None,
                    }
                },
            }
        },
    }
}

fn column_size(t: u64) -> (r: Option<u64>)
    ensures
        match r {
            Some(n) => size_of(t as int) == Some(n as int),
            None => size_of(t as int) is None,
        },
{
    if t == 0 || t == 8 || t == 9 {
        Some(0)
    } else if t <= 4 {
        Some(t)
    } else if t == 5 {
        Some(6)
    } else if t == 6 || t == 7 {
        Some(8)
    } else if t >= 12 {
        Some((t - 12) / 2)
    } else {
        None
    }
}

proof fn big_endian_bounds(d: Seq<u8>, at: int, n: int)
    requires
        0 <= n <= 4,
    ensures
        0 <= big_endian(d, at, n),
        n == 0 ==> big_endian(d, at, n) == 0,
        n == 1 ==> big_endian(d, at, n) <= 0xFF,
        n == 2 ==> big_endian(d, at, n) <= 0xFFFF,
        n == 3 ==> big_endian(d, at, n) <= 0xFF_FFFF,
        big_endian(d, at, n) <= 0xFFFF_FFFF,
    decreases n,
{
    if n > 0 {
        big_endian_bounds(d, at, n - 1);
    }
}

/// The `rootpage` column of a schema row: type, name, table name, root page,
/// definition. `None` where the record is not shaped like one.
pub fn schema_rootpage(rec: &[u8]) -> (r: Option<u32>)
    ensures
        match r {
            Some(n) => rootpage_of(rec@) == Some(n as int),
            None => rootpage_of(rec@) is None,
        },
{
    let len: u64 = rec.len() as u64;
    let (hdr, first): (u64, usize) = match varint(rec, 0) {
        Some(x) => x,
        None => {
            return None;
        },
    };
    if hdr > len {
        return None;
    }
    let mut at: usize = first;
    let mut types: Vec<u64> = Vec::new();
    assert(widened(types@) =~= Seq::<int>::empty());
    while (at as u64) < hdr && types.len() < 5
        invariant
            types@.len() <= 5,
            hdr <= rec@.len(),
            types_from(rec@, first as int, hdr as int, Seq::empty()) == types_from(
                rec@,
                at as int,
                hdr as int,
                widened(types@),
            ),
            varint_at(rec@, 0) == Some((hdr as int, first as int)),
        decreases 5 - types@.len(),
    {
        match varint(rec, at) {
            None => {
                return None;
            },
            Some((t, n)) => {
                proof {
                    assert(widened(types@.push(t)) =~= widened(types@).push(t as int));
                }
                types.push(t);
                at = at + n;
            },
        }
    }
    if types.len() < 4 {
        return None;
    }
    assert(widened(types@)[0] == types@[0] && widened(types@)[1] == types@[1] && widened(types@)[2]
        == types@[2] && widened(types@)[3] == types@[3]);
    let t: u64 = types[3];
    let (a, b, c, size): (u64, u64, u64, u64) = match (
        column_size(types[0]),
        column_size(types[1]),
        column_size(types[2]),
        column_size(t),
    ) {
        (Some(a), Some(b), Some(c), Some(size)) => (a, b, c, size),
        _ => {
            return None;
        },
    };
    if a > len || b > len || c > len || size > len {
        return None;
    }
    let body: u128 = hdr as u128 + a as u128 + b as u128 + c as u128;
    if body + size as u128 > len as u128 {
        return None;
    }
    let body: usize = body as usize;
    if t == 8 {
        return Some(0);
    }
    if t == 9 {
        return Some(1);
    }
    if t < 1 || t > 4 {
        return None;
    }
    let mut v: u32 = 0;
    let mut i: usize = 0;
    while i < size as usize
        invariant
            i <= size <= 4,
            body + size <= rec@.len(),
            v == big_endian(rec@, body as int, i as int),
        decreases size - i,
    {
        proof {
            big_endian_bounds(rec@, body as int, i as int);
            big_endian_bounds(rec@, body as int, i + 1);
        }
        v = v * 256 + rec[body + i] as u32;
        i += 1;
    }
    Some(v)
}

spec fn widened(v: Seq<u64>) -> Seq<int> {
    Seq::new(v.len(), |i: int| v[i] as int)
}

// ---------------------------------------------------------------------------
// Claiming pages
// ---------------------------------------------------------------------------

/// How many pages have not been claimed.
pub open spec fn unclaimed(claimed: Seq<bool>) -> int
    decreases claimed.len(),
{
    if claimed.len() == 0 {
        0
    } else {
        unclaimed(claimed.drop_last()) + (if claimed.last() {
            0int
        } else {
            1int
        })
    }
}

/// Claim page `n` for one purpose, `from` being the page that points at it.
/// Reaching a page twice means two structures point at it, which a consistent
/// database never does.
pub open spec fn claim(
    c: Shape,
    claimed: Seq<bool>,
    from: int,
    n: int,
    what: Seq<char>,
) -> Result<Seq<bool>, Harm> {
    if n == 0 || n > c.page_count {
        Err(
            Harm {
                page: from,
                why: "a "@ + what + " pointer names page "@ + text::dec(n) + " in a "@ + text::dec(
                    c.page_count,
                ) + "-page database"@,
            },
        )
    } else if claimed[n] {
        Err(
            Harm {
                page: from,
                why: "page "@ + text::dec(n) + " is reached twice, the second time as a "@ + what,
            },
        )
    } else {
        Ok(claimed.update(n, true))
    }
}

proof fn claiming_leaves_fewer(claimed: Seq<bool>, n: int)
    requires
        0 <= n < claimed.len(),
        !claimed[n],
    ensures
        unclaimed(claimed.update(n, true)) == unclaimed(claimed) - 1,
    decreases claimed.len(),
{
    let after = claimed.update(n, true);
    if n == claimed.len() - 1 {
        assert(after.drop_last() =~= claimed.drop_last());
    } else {
        assert(after.drop_last() =~= claimed.drop_last().update(n, true));
        claiming_leaves_fewer(claimed.drop_last(), n);
    }
}

/// Between none and all of the pages are unclaimed.
pub proof fn unclaimed_counts(claimed: Seq<bool>)
    ensures
        0 <= unclaimed(claimed) <= claimed.len(),
    decreases claimed.len(),
{
    if claimed.len() > 0 {
        unclaimed_counts(claimed.drop_last());
    }
}

/// Claiming one page leaves one page fewer to claim.
pub proof fn a_claim_takes_one(c: Shape, claimed: Seq<bool>, from: int, n: int, what: Seq<char>)
    requires
        0 <= n,
        claimed.len() == c.page_count + 1,
    ensures
        claim(c, claimed, from, n, what) matches Ok(after) ==> after.len() == claimed.len()
            && unclaimed(after) == unclaimed(claimed) - 1 && unclaimed(after) >= 0 && (n != 0 ==> after[0] == claimed[0]),
{
    if 0 < n <= c.page_count && !claimed[n] {
        claiming_leaves_fewer(claimed, n);
        unclaimed_counts(claimed.update(n, true));
    }
}

/// The walk so far: which pages are claimed, how many were b-tree pages and
/// how many overflow pages, and the roots that schema rows have named.
#[verifier::ext_equal]
pub struct Tour {
    pub claimed: Seq<bool>,
    pub btree_pages: int,
    pub overflow_pages: int,
    pub roots: Seq<int>,
}

impl Tour {
    /// Every page counted is claimed, and page 0 is none.
    pub open spec fn counted(self, c: Shape) -> bool {
        &&& self.claimed.len() == c.page_count + 1
        &&& !self.claimed[0]
        &&& 0 <= self.btree_pages
        &&& 0 <= self.overflow_pages
        &&& self.btree_pages + self.overflow_pages <= c.page_count + 1 - unclaimed(self.claimed)
    }
}

proof fn page_zero_is_never_claimed(claimed: Seq<bool>)
    requires
        claimed.len() > 0,
        !claimed[0],
    ensures
        unclaimed(claimed) >= 1,
    decreases claimed.len(),
{
    if claimed.len() > 1 {
        page_zero_is_never_claimed(claimed.drop_last());
    } else {
        unclaimed_counts(claimed.drop_last());
        assert(claimed.last() == claimed[0]);
    }
}

/// Four bytes as a number, or zero where they run off the page.
pub open spec fn u32_or_zero(p: Seq<u8>, at: int) -> int {
    if bytes::fits(p, at, 4) {
        bytes::u32_be(p, at)
    } else {
        0
    }
}

// ---------------------------------------------------------------------------
// Overflow chains
// ---------------------------------------------------------------------------

/// `a` less `b`, but no less than zero.
pub open spec fn less(a: int, b: int) -> int {
    if a <= b {
        0
    } else {
        a - b
    }
}

/// Follow an overflow chain with `remaining` bytes of payload still to come,
/// `n` being the next page and `prev` the page that points at it.
pub open spec fn overflow_from(c: Shape, t: Tour, prev: int, n: int, remaining: int) -> Result<
    Tour,
    Harm,
>
    decreases remaining,
{
    if remaining <= 0 || c.usable <= 4 {
        Ok(t)
    } else {
        match claim(c, t.claimed, prev, n, "overflow page"@) {
            Err(h) => Err(h),
            Ok(claimed) => {
                let t1 = Tour { claimed, overflow_pages: t.overflow_pages + 1, ..t };
                let next = u32_or_zero(c.page(n), 0);
                let left = less(remaining, c.usable - 4);
                if left <= 0 && next != 0 {
                    Err(
                        Harm {
                            page: n,
                            why: "an overflow chain continues past the end of its payload"@,
                        },
                    )
                } else if left > 0 && next == 0 {
                    Err(Harm { page: n, why: "an overflow chain ends before its payload does"@ })
                } else {
                    overflow_from(c, t1, n, next, left)
                }
            },
        }
    }
}

proof fn overflow_stays_counted(c: Shape, t: Tour, prev: int, n: int, remaining: int)
    requires
        t.counted(c),
        0 <= n,
    ensures
        overflow_from(c, t, prev, n, remaining) matches Ok(after) ==> after.counted(c) && unclaimed(
            after.claimed,
        ) <= unclaimed(t.claimed) && after.btree_pages == t.btree_pages && after.roots == t.roots,
    decreases remaining,
{
    if remaining > 0 && c.usable > 4 {
        a_claim_takes_one(c, t.claimed, prev, n, "overflow page"@);
        if let Ok(claimed) = claim(c, t.claimed, prev, n, "overflow page"@) {
            let t1 = Tour { claimed, overflow_pages: t.overflow_pages + 1, ..t };
            overflow_stays_counted(
                c,
                t1,
                n,
                u32_or_zero(c.page(n), 0),
                less(remaining, c.usable - 4),
            );
        }
    }
}

// ---------------------------------------------------------------------------
// B-tree pages
// ---------------------------------------------------------------------------

/// What the header of a b-tree page says.
pub struct Layout {
    pub interior: bool,
    pub table: bool,
    /// Where the page's own header begins.
    pub h: int,
    /// Where its array of cell pointers begins.
    pub array: int,
    pub cells: int,
    /// Where its cell content begins.
    pub content: int,
    /// Where its array of cell pointers ends.
    pub array_end: int,
}

/// Whether a type byte is that of an interior page and of a table page.
pub open spec fn page_type(kind: u8) -> Option<(bool, bool)> {
    if kind == 0x02 {
        Some((true, false))
    } else if kind == 0x05 {
        Some((true, true))
    } else if kind == 0x0A {
        Some((false, false))
    } else if kind == 0x0D {
        Some((false, true))
    } else {
        None
    }
}

/// Follow a freeblock chain from `fb`, `hops` freeblocks having been passed:
/// `None` where it ends, else what is wrong with it.
pub open spec fn freeblocks_from(c: Shape, p: Seq<u8>, array_end: int, fb: int, hops: int) -> Option<
    Seq<char>,
>
    decreases c.page_size / 4 + 1 - hops,
{
    if fb == 0 {
        None
    } else if fb < array_end || fb + 4 > c.usable || hops + 1 > c.page_size / 4 {
        Some("'s freeblock chain leaves the page"@)
    } else {
        let next = bytes::u16_be(p, fb);
        if next != 0 && next <= fb {
            Some("'s freeblock chain does not ascend"@)
        } else {
            freeblocks_from(c, p, array_end, next, hops + 1)
        }
    }
}

/// What is wrong with page `n`, as a complaint.
pub open spec fn complaint(n: int, what: Seq<char>) -> Harm {
    Harm { page: n, why: "page "@ + text::dec(n) + what }
}

/// The header of page `n` as a b-tree page, or what is wrong with it.
pub open spec fn layout_of(c: Shape, n: int) -> Result<Layout, Harm> {
    let p = c.page(n);
    let h = if n == 1 {
        100int
    } else {
        0int
    };
    match page_type(p[h]) {
        None => Err(
            complaint(
                n,
                " should be a b-tree page but has type byte 0x"@ + text::hex(p[h] as int, 2),
            ),
        ),
        Some((interior, table)) => {
            let array = h + (if interior {
                12int
            } else {
                8int
            });
            let cells = bytes::u16_be(p, h + 3);
            let start = bytes::u16_be(p, h + 5);
            let content = if start == 0 {
                65536
            } else {
                start
            };
            let array_end = array + 2 * cells;
            if array_end > c.usable {
                Err(
                    complaint(
                        n,
                        " claims "@ + text::dec(cells) + " cells, more than the page can index"@,
                    ),
                )
            } else if content < array_end || content > c.usable {
                Err(
                    complaint(
                        n,
                        "'s cell content starts at "@ + text::dec(content) + ", outside the page"@,
                    ),
                )
            } else if p[h + 7] > 60 {
                Err(
                    complaint(
                        n,
                        " claims "@ + text::dec(p[h + 7] as int)
                            + " fragmented bytes; SQLite never leaves over 60"@,
                    ),
                )
            } else {
                match freeblocks_from(c, p, array_end, bytes::u16_be(p, h + 1), 0) {
                    Some(what) => Err(complaint(n, what)),
                    None => Ok(Layout { interior, table, h, array, cells, content, array_end }),
                }
            }
        },
    }
}

/// How much of a payload is stored on the page itself.
pub open spec fn local_part(usable: int, payload: int, table_leaf: bool) -> int {
    let most = if table_leaf {
        usable - 35
    } else {
        (usable - 12) * 64 / 255 - 23
    };
    if payload <= most {
        payload
    } else {
        let least = (usable - 12) * 32 / 255 - 23;
        let k = least + (payload - least) % (usable - 4);
        if k <= most {
            k
        } else {
            least
        }
    }
}

/// A complaint about a cell of page `n`.
pub open spec fn cell_complaint(n: int, i: int, what: Seq<char>) -> Harm {
    complaint(n, " cell "@ + text::dec(i) + what)
}

/// What one cell holds: a child page, and a payload.
pub enum Cell {
    /// A child page alone.
    Child(int),
    /// A payload at `at`, of which `local` bytes are on the page, and a child
    /// page where the cell is an interior one.
    Payload { child: Option<int>, at: int, local: int, payload: int },
    Wrong(Harm),
}

/// The `i`-th cell of page `n`.
pub open spec fn cell_at(c: Shape, n: int, lay: Layout, i: int) -> Cell {
    let p = c.page(n);
    let off = bytes::u16_be(p, lay.array + 2 * i);
    let runs_off = Cell::Wrong(cell_complaint(n, i, " runs off the page"@));
    if off < lay.array_end || off < lay.content || off >= c.usable {
        Cell::Wrong(
            cell_complaint(
                n,
                i,
                " points at offset "@ + text::dec(off) + ", outside its content area"@,
            ),
        )
    } else if lay.interior && lay.table {
        Cell::Child(u32_or_zero(p, off))
    } else {
        let child = if lay.interior {
            Some(u32_or_zero(p, off))
        } else {
            None
        };
        let at = if lay.interior {
            off + 4
        } else {
            off
        };
        match varint_at(p, at) {
            None => runs_off,
            Some((payload, len)) => {
                let body = if lay.table {
                    match varint_at(p, at + len) {
                        None => None,
                        Some((_, len2)) => Some(at + len + len2),
                    }
                } else {
                    Some(at + len)
                };
                match body {
                    None => runs_off,
                    Some(at2) => {
                        let local = local_part(c.usable, payload, lay.table && !lay.interior);
                        if at2 + local > c.usable {
                            Cell::Wrong(
                                cell_complaint(n, i, "'s payload runs past the end of the page"@),
                            )
                        } else {
                            Cell::Payload { child, at: at2, local, payload }
                        }
                    },
                }
            },
        }
    }
}

/// The root a schema row on the page names, where it names one.
pub open spec fn root_named(p: Seq<u8>, at: int, local: int) -> Option<int> {
    match rootpage_of(p.subrange(at, at + local)) {
        None => None,
        Some(r) => if r != 0 {
            Some(r)
        } else {
            None
        },
    }
}

/// The cells of page `n` from the `i`-th on: the walk after them, and the
/// pages still to be visited.
pub open spec fn cells_from(
    c: Shape,
    n: int,
    lay: Layout,
    schema: bool,
    i: int,
    t: Tour,
    stack: Seq<(int, int)>,
) -> Result<(Tour, Seq<(int, int)>), Harm>
    decreases lay.cells - i,
{
    if i >= lay.cells {
        Ok((t, stack))
    } else {
        match cell_at(c, n, lay, i) {
            Cell::Wrong(h) => Err(h),
            Cell::Child(child) => cells_from(
                c,
                n,
                lay,
                schema,
                i + 1,
                t,
                stack.push((child, n)),
            ),
            Cell::Payload { child, at, local, payload } => {
                let stack1 = match child {
                    Some(x) => stack.push((x, n)),
                    None => stack,
                };
                let t1 = if schema && lay.table && !lay.interior {
                    match root_named(c.page(n), at, local) {
                        Some(r) => Tour { roots: t.roots.push(r), ..t },
                        None => t,
                    }
                } else {
                    t
                };
                if local < payload {
                    if !bytes::fits(c.page(n), at + local, 4) {
                        Err(cell_complaint(n, i, " runs off the page"@))
                    } else {
                        match overflow_from(
                            c,
                            t1,
                            n,
                            bytes::u32_be(c.page(n), at + local),
                            payload - local,
                        ) {
                            Err(h) => Err(h),
                            Ok(t2) => cells_from(c, n, lay, schema, i + 1, t2, stack1),
                        }
                    }
                } else {
                    cells_from(c, n, lay, schema, i + 1, t1, stack1)
                }
            },
        }
    }
}

/// Pages waiting to be visited are named by numbers that are no negative.
pub open spec fn named(stack: Seq<(int, int)>) -> bool {
    forall|i: int| 0 <= i < stack.len() ==> (#[trigger] stack[i]).0 >= 0
}

proof fn cells_stay_counted(
    c: Shape,
    n: int,
    lay: Layout,
    schema: bool,
    i: int,
    t: Tour,
    stack: Seq<(int, int)>,
)
    requires
        t.counted(c),
        named(stack),
        0 <= i,
    ensures
        cells_from(c, n, lay, schema, i, t, stack) matches Ok((after, rest)) ==> after.counted(c)
            && unclaimed(after.claimed) <= unclaimed(t.claimed) && after.btree_pages
            == t.btree_pages && named(rest),
    decreases lay.cells - i,
{
    if i < lay.cells {
        match cell_at(c, n, lay, i) {
            Cell::Wrong(h) => {},
            Cell::Child(child) => {
                cells_stay_counted(c, n, lay, schema, i + 1, t, stack.push((child, n)));
            },
            Cell::Payload { child, at, local, payload } => {
                let stack1 = match child {
                    Some(x) => stack.push((x, n)),
                    None => stack,
                };
                let t1 = if schema && lay.table && !lay.interior {
                    match root_named(c.page(n), at, local) {
                        Some(r) => Tour { roots: t.roots.push(r), ..t },
                        None => t,
                    }
                } else {
                    t
                };
                if local < payload {
                    let first = bytes::u32_be(c.page(n), at + local);
                    overflow_stays_counted(c, t1, n, first, payload - local);
                    if let Ok(t2) = overflow_from(c, t1, n, first, payload - local) {
                        cells_stay_counted(c, n, lay, schema, i + 1, t2, stack1);
                    }
                } else {
                    cells_stay_counted(c, n, lay, schema, i + 1, t1, stack1);
                }
            },
        }
    }
}

/// One page of a b-tree: the walk after it, and the pages still to be visited.
pub open spec fn visit(
    c: Shape,
    t: Tour,
    n: int,
    schema: bool,
    stack: Seq<(int, int)>,
) -> Result<(Tour, Seq<(int, int)>), Harm> {
    match layout_of(c, n) {
        Err(h) => Err(h),
        Ok(lay) => match cells_from(
            c,
            n,
            lay,
            schema,
            0,
            Tour { btree_pages: t.btree_pages + 1, ..t },
            stack,
        ) {
            Err(h) => Err(h),
            Ok((t1, stack1)) => Ok(
                (
                    t1,
                    if lay.interior {
                        stack1.push((u32_or_zero(c.page(n), lay.h + 8), n))
                    } else {
                        stack1
                    },
                ),
            ),
        },
    }
}

/// Visiting a page claims no page twice: what is counted stays claimed.
pub proof fn a_visit_stays_counted(
    c: Shape,
    t: Tour,
    n: int,
    schema: bool,
    stack: Seq<(int, int)>,
)
    requires
        (Tour { btree_pages: t.btree_pages + 1, ..t }).counted(c),
        named(stack),
    ensures
        visit(c, t, n, schema, stack) matches Ok((after, rest)) ==> after.counted(c) && unclaimed(
            after.claimed,
        ) <= unclaimed(t.claimed) && after.btree_pages == t.btree_pages + 1 && named(rest),
{
    if let Ok(lay) = layout_of(c, n) {
        cells_stay_counted(
            c,
            n,
            lay,
            schema,
            0,
            Tour { btree_pages: t.btree_pages + 1, ..t },
            stack,
        );
    }
}

/// A b-tree can be walked on: every page counted is claimed, and the root,
/// where it has not been visited yet, is claimed too.
pub open spec fn tree_ready(c: Shape, t: Tour, stack: Seq<(int, int)>, first: bool) -> bool {
    &&& named(stack)
    &&& t.counted(c)
    &&& first ==> (Tour { btree_pages: t.btree_pages + 1, ..t }).counted(c)
}

/// Walk on in a b-tree, `stack` holding the pages still to be visited, each
/// with the page that points at it. The root, visited `first`, was claimed by
/// whoever named it; every other page is claimed here.
pub open spec fn tree_from(
    c: Shape,
    t: Tour,
    stack: Seq<(int, int)>,
    first: bool,
    schema: bool,
) -> Result<Tour, Harm>
    decreases unclaimed(t.claimed) + (if first { 1int } else { 0int }),
    when tree_ready(c, t, stack, first)
{
    if stack.len() == 0 {
        Ok(t)
    } else {
        let (n, parent) = stack.last();
        let claimed = if first {
            Ok(t.claimed)
        } else {
            claim(c, t.claimed, parent, n, "child page"@)
        };
        match claimed {
            Err(h) => Err(h),
            Ok(claimed) => {
                proof {
                    unclaimed_counts(t.claimed);
                    if !first {
                        a_claim_takes_one(c, t.claimed, parent, n, "child page"@);
                    }
                    a_visit_stays_counted(
                        c,
                        Tour { claimed, ..t },
                        n,
                        schema,
                        stack.drop_last(),
                    );
                    if let Ok((t2, _)) = visit(
                        c,
                        Tour { claimed, ..t },
                        n,
                        schema,
                        stack.drop_last(),
                    ) {
                        unclaimed_counts(t2.claimed);
                    }
                }
                match visit(c, Tour { claimed, ..t }, n, schema, stack.drop_last()) {
                    Err(h) => Err(h),
                    Ok((t2, rest)) => tree_from(c, t2, rest, false, schema),
                }
            },
        }
    }
}

proof fn a_tree_stays_counted(
    c: Shape,
    t: Tour,
    stack: Seq<(int, int)>,
    first: bool,
    schema: bool,
)
    requires
        tree_ready(c, t, stack, first),
    ensures
        tree_from(c, t, stack, first, schema) matches Ok(after) ==> after.counted(c) && unclaimed(
            after.claimed,
        ) <= unclaimed(t.claimed) && (stack.len() > 0 ==> after.btree_pages > t.btree_pages)
            && after.btree_pages >= t.btree_pages,
    decreases
            unclaimed(t.claimed) + (if first {
                1int
            } else {
                0int
            }),
{
    if stack.len() > 0 {
        let (n, parent) = stack.last();
        let claimed = if first {
            Ok(t.claimed)
        } else {
            claim(c, t.claimed, parent, n, "child page"@)
        };
        unclaimed_counts(t.claimed);
        if let Ok(claimed) = claimed {
            if !first {
                a_claim_takes_one(c, t.claimed, parent, n, "child page"@);
            }
            let t1 = Tour { claimed, ..t };
            a_visit_stays_counted(c, t1, n, schema, stack.drop_last());
            if let Ok((t2, rest)) = visit(c, t1, n, schema, stack.drop_last()) {
                unclaimed_counts(t2.claimed);
                a_tree_stays_counted(c, t2, rest, false, schema);
            }
        }
    }
}

// ---------------------------------------------------------------------------
// The freelist, and the whole walk
// ---------------------------------------------------------------------------

/// The leaves of a freelist trunk page from the `k`-th on: which pages are
/// claimed after them, and how many were counted.
pub open spec fn leaves_from(
    c: Shape,
    n: int,
    leaves: int,
    k: int,
    claimed: Seq<bool>,
    counted: int,
) -> Result<(Seq<bool>, int), Harm>
    decreases leaves - k,
{
    if k >= leaves {
        Ok((claimed, counted))
    } else {
        match claim(c, claimed, n, u32_or_zero(c.page(n), 8 + 4 * k), "freelist leaf"@) {
            Err(h) => Err(h),
            Ok(after) => leaves_from(c, n, leaves, k + 1, after, counted + 1),
        }
    }
}

/// Every freelist leaf counted is one page fewer to claim.
pub proof fn leaves_leave_fewer(
    c: Shape,
    n: int,
    leaves: int,
    k: int,
    claimed: Seq<bool>,
    counted: int,
)
    requires
        claimed.len() == c.page_count + 1,
    ensures
        leaves_from(c, n, leaves, k, claimed, counted) matches Ok((after, total)) ==> after.len()
            == claimed.len() && 0 <= unclaimed(after) && unclaimed(after) + total == unclaimed(
            claimed,
        ) + counted && unclaimed(after) <= unclaimed(claimed) && after[0] == claimed[0],
    decreases leaves - k,
{
    unclaimed_counts(claimed);
    if k < leaves {
        let leaf = u32_or_zero(c.page(n), 8 + 4 * k);
        a_claim_takes_one(c, claimed, n, leaf, "freelist leaf"@);
        if let Ok(after) = claim(c, claimed, n, leaf, "freelist leaf"@) {
            leaves_leave_fewer(c, n, leaves, k + 1, after, counted + 1);
        }
    }
}

/// Walk on in the freelist, `n` being the next trunk page, or zero at its end.
pub open spec fn freelist_from(c: Shape, claimed: Seq<bool>, prev: int, n: int, counted: int) -> Result<
    (Seq<bool>, int),
    Harm,
>
    decreases unclaimed(claimed),
    when claimed.len() == c.page_count + 1 && n >= 0
{
    if n == 0 {
        Ok((claimed, counted))
    } else {
        match claim(c, claimed, prev, n, "freelist trunk"@) {
            Err(h) => Err(h),
            Ok(after) => {
                let next = u32_or_zero(c.page(n), 0);
                let leaves = u32_or_zero(c.page(n), 4);
                let most = less(c.usable / 4, 2);
                if leaves > most {
                    Err(
                        Harm {
                            page: n,
                            why: "freelist trunk page "@ + text::dec(n) + " claims "@ + text::dec(
                                leaves,
                            ) + " leaves; a page holds "@ + text::dec(most),
                        },
                    )
                } else {
                    proof {
                        a_claim_takes_one(c, claimed, prev, n, "freelist trunk"@);
                        leaves_leave_fewer(c, n, leaves, 0, after, counted + 1);
                    }
                    match leaves_from(c, n, leaves, 0, after, counted + 1) {
                        Err(h) => Err(h),
                        Ok((after2, total)) => freelist_from(c, after2, n, next, total),
                    }
                }
            },
        }
    }
}

/// The trees whose roots the schema rows named, from the `i`-th on.
pub open spec fn trees_from(c: Shape, t: Tour, roots: Seq<int>, i: int) -> Result<Tour, Harm>
    decreases roots.len() - i,
{
    if i < 0 || i >= roots.len() {
        Ok(t)
    } else {
        match claim(c, t.claimed, 1, roots[i], "table or index root"@) {
            Err(h) => Err(h),
            Ok(claimed) => match tree_from(
                c,
                Tour { claimed, ..t },
                seq![(roots[i], 1int)],
                true,
                false,
            ) {
                Err(h) => Err(h),
                Ok(t1) => trees_from(c, t1, roots, i + 1),
            },
        }
    }
}

/// The pages that no walk may reach: page 1 is the schema's root, SQLite
/// never uses the page that holds the byte at 1 GiB, and in an auto-vacuum
/// database page 2 and one page in every `usable / 5 + 1` after it hold the
/// pointer map.
pub open spec fn claimed_at_first(c: Shape, ptrmap: bool) -> Seq<bool> {
    Seq::new(
        (c.page_count + 1) as nat,
        |i: int|
            i == 1 || i == 0x4000_0000int / c.page_size + 1 || (ptrmap && i >= 2 && (i - 2) % (
            c.usable / 5 + 1) == 0),
    )
}

/// What a clean walk counts.
pub struct Count {
    pub btree_pages: int,
    pub overflow_pages: int,
    pub freelist_pages: int,
    pub trees: int,
}

impl View for Walked {
    type V = Count;

    open spec fn view(&self) -> Count {
        Count {
            btree_pages: self.btree_pages as int,
            overflow_pages: self.overflow_pages as int,
            freelist_pages: self.freelist_pages as int,
            trees: self.trees as int,
        }
    }
}

/// The freelist must hold as many pages as the header declares.
pub open spec fn freelist_check(
    counted: int,
    trunk: int,
    declared: int,
    t: Tour,
    trees: int,
) -> Result<Count, Harm> {
    if counted != declared {
        Err(
            Harm {
                page: if trunk >= 1 {
                    trunk
                } else {
                    1
                },
                why: "the freelist holds "@ + text::dec(counted) + " pages but the header says "@
                    + text::dec(declared),
            },
        )
    } else {
        Ok(
            Count {
                btree_pages: t.btree_pages,
                overflow_pages: t.overflow_pages,
                freelist_pages: counted,
                trees,
            },
        )
    }
}

/// The walk over a whole database: the schema's tree, every tree its rows
/// name, then the freelist, whose header declares `declared` pages.
pub open spec fn walked(c: Shape, trunk: int, declared: int, ptrmap: bool) -> Result<Count, Harm> {
    let t0 = Tour {
        claimed: claimed_at_first(c, ptrmap),
        btree_pages: 0,
        overflow_pages: 0,
        roots: Seq::empty(),
    };
    match tree_from(c, t0, seq![(1int, 1int)], true, true) {
        Err(h) => Err(h),
        Ok(t1) => match trees_from(c, t1, t1.roots, 0) {
            Err(h) => Err(h),
            Ok(t2) => match freelist_from(c, t2.claimed, 1, trunk, 0) {
                Err(h) => Err(h),
                Ok((_, counted)) => freelist_check(
                    counted,
                    trunk,
                    declared,
                    t2,
                    1 + t1.roots.len() as int,
                ),
            },
        },
    }
}

// ---------------------------------------------------------------------------
// What every walk comes to
// ---------------------------------------------------------------------------

/// Whether the damage is on a page that the database has.
pub open spec fn on_a_page(c: Shape, h: Harm) -> bool {
    1 <= h.page <= c.page_count
}

/// Whether every page that waits to be visited was named by a page that the
/// database has.
spec fn pointed_at(c: Shape, stack: Seq<(int, int)>) -> bool {
    forall|i: int| 0 <= i < stack.len() ==> 1 <= (#[trigger] stack[i]).1 <= c.page_count
}

/// Whether the roots named so far are no negative numbers.
spec fn roots_named(t: Tour) -> bool {
    forall|i: int| 0 <= i < t.roots.len() ==> (#[trigger] t.roots[i]) >= 0
}

proof fn big_endian_is_not_negative(d: Seq<u8>, at: int, n: int)
    ensures
        big_endian(d, at, n) >= 0,
    decreases n,
{
    if n > 0 {
        big_endian_is_not_negative(d, at, n - 1);
    }
}

proof fn a_root_is_not_negative(p: Seq<u8>, at: int, local: int)
    ensures
        root_named(p, at, local) matches Some(r) ==> r > 0,
{
    let rec = p.subrange(at, at + local);
    if let Some((hdr, n)) = varint_at(rec, 0) {
        if let Some(types) = types_from(rec, n, hdr, Seq::empty()) {
            if let (Some(a), Some(b), Some(c), Some(size)) = (
                size_of(types[0]),
                size_of(types[1]),
                size_of(types[2]),
                size_of(types[3]),
            ) {
                big_endian_is_not_negative(rec, hdr + a + b + c, size);
            }
        }
    }
}

proof fn overflow_is_on_a_page(c: Shape, t: Tour, prev: int, n: int, remaining: int)
    requires
        1 <= prev <= c.page_count,
        0 <= n,
    ensures
        overflow_from(c, t, prev, n, remaining) matches Err(h) ==> on_a_page(c, h),
    decreases remaining,
{
    if remaining > 0 && c.usable > 4 {
        if let Ok(claimed) = claim(c, t.claimed, prev, n, "overflow page"@) {
            overflow_is_on_a_page(
                c,
                Tour { claimed, overflow_pages: t.overflow_pages + 1, ..t },
                n,
                u32_or_zero(c.page(n), 0),
                less(remaining, c.usable - 4),
            );
        }
    }
}

proof fn cells_are_on_a_page(
    c: Shape,
    n: int,
    lay: Layout,
    schema: bool,
    i: int,
    t: Tour,
    stack: Seq<(int, int)>,
)
    requires
        t.counted(c),
        1 <= n <= c.page_count,
        pointed_at(c, stack),
        roots_named(t),
        0 <= i,
    ensures
        match cells_from(c, n, lay, schema, i, t, stack) {
            Ok((after, rest)) => pointed_at(c, rest) && roots_named(after),
            Err(h) => on_a_page(c, h),
        },
    decreases lay.cells - i,
{
    if i < lay.cells {
        match cell_at(c, n, lay, i) {
            Cell::Wrong(h) => {},
            Cell::Child(child) => {
                cells_are_on_a_page(c, n, lay, schema, i + 1, t, stack.push((child, n)));
            },
            Cell::Payload { child, at, local, payload } => {
                let stack1 = match child {
                    Some(x) => stack.push((x, n)),
                    None => stack,
                };
                let t1 = if schema && lay.table && !lay.interior {
                    match root_named(c.page(n), at, local) {
                        Some(r) => Tour { roots: t.roots.push(r), ..t },
                        None => t,
                    }
                } else {
                    t
                };
                a_root_is_not_negative(c.page(n), at, local);
                assert(roots_named(t1));
                assert(pointed_at(c, stack1));
                if local < payload {
                    let first = bytes::u32_be(c.page(n), at + local);
                    overflow_is_on_a_page(c, t1, n, first, payload - local);
                    overflow_stays_counted(c, t1, n, first, payload - local);
                    if let Ok(t2) = overflow_from(c, t1, n, first, payload - local) {
                        cells_are_on_a_page(c, n, lay, schema, i + 1, t2, stack1);
                    }
                } else {
                    cells_are_on_a_page(c, n, lay, schema, i + 1, t1, stack1);
                }
            },
        }
    }
}

proof fn a_tree_is_on_a_page(
    c: Shape,
    t: Tour,
    stack: Seq<(int, int)>,
    first: bool,
    schema: bool,
)
    requires
        tree_ready(c, t, stack, first),
        pointed_at(c, stack),
        roots_named(t),
        first && stack.len() > 0 ==> 1 <= stack.last().0 <= c.page_count,
    ensures
        match tree_from(c, t, stack, first, schema) {
            Ok(after) => roots_named(after),
            Err(h) => on_a_page(c, h),
        },
    decreases
            unclaimed(t.claimed) + (if first {
                1int
            } else {
                0int
            }),
{
    if stack.len() > 0 {
        let (n, parent) = stack.last();
        assert(stack[stack.len() - 1] == (n, parent));
        let claimed = if first {
            Ok(t.claimed)
        } else {
            claim(c, t.claimed, parent, n, "child page"@)
        };
        unclaimed_counts(t.claimed);
        if let Ok(claimed) = claimed {
            if !first {
                a_claim_takes_one(c, t.claimed, parent, n, "child page"@);
            }
            let t1 = Tour { claimed, ..t };
            let below = stack.drop_last();
            assert(pointed_at(c, below)) by {
                assert forall|i: int| 0 <= i < below.len() implies 1 <= (#[trigger] below[i]).1
                    <= c.page_count by {
                    assert(below[i] == stack[i]);
                }
            }
            assert(named(below)) by {
                assert forall|i: int| 0 <= i < below.len() implies (#[trigger] below[i]).0 >= 0 by {
                    assert(below[i] == stack[i]);
                }
            }
            a_visit_stays_counted(c, t1, n, schema, below);
            if let Ok(lay) = layout_of(c, n) {
                let t0 = Tour { btree_pages: t1.btree_pages + 1, ..t1 };
                cells_are_on_a_page(c, n, lay, schema, 0, t0, below);
            }
            if let Ok((t2, rest)) = visit(c, t1, n, schema, below) {
                unclaimed_counts(t2.claimed);
                a_tree_is_on_a_page(c, t2, rest, false, schema);
            }
        }
    }
}

proof fn trees_add_up(c: Shape, t: Tour, roots: Seq<int>, i: int)
    requires
        t.counted(c),
        1 <= c.page_count,
        roots_named(t),
        0 <= i <= roots.len(),
        forall|k: int| 0 <= k < roots.len() ==> (#[trigger] roots[k]) >= 0,
    ensures
        match trees_from(c, t, roots, i) {
            Ok(after) => after.counted(c) && after.btree_pages >= t.btree_pages + roots.len() - i,
            Err(h) => on_a_page(c, h),
        },
    decreases roots.len() - i,
{
    if i < roots.len() {
        let root = roots[i];
        a_claim_takes_one(c, t.claimed, 1, root, "table or index root"@);
        if let Ok(claimed) = claim(c, t.claimed, 1, root, "table or index root"@) {
            let t1 = Tour { claimed, ..t };
            let stack = seq![(root, 1int)];
            a_tree_stays_counted(c, t1, stack, true, false);
            a_tree_is_on_a_page(c, t1, stack, true, false);
            if let Ok(t2) = tree_from(c, t1, stack, true, false) {
                trees_add_up(c, t2, roots, i + 1);
            }
        }
    }
}

proof fn leaves_are_on_a_page(
    c: Shape,
    n: int,
    leaves: int,
    k: int,
    claimed: Seq<bool>,
    counted: int,
)
    requires
        1 <= n <= c.page_count,
    ensures
        leaves_from(c, n, leaves, k, claimed, counted) matches Err(h) ==> on_a_page(c, h),
    decreases leaves - k,
{
    if k < leaves {
        let leaf = u32_or_zero(c.page(n), 8 + 4 * k);
        if let Ok(after) = claim(c, claimed, n, leaf, "freelist leaf"@) {
            leaves_are_on_a_page(c, n, leaves, k + 1, after, counted + 1);
        }
    }
}

proof fn a_freelist_adds_up(c: Shape, claimed: Seq<bool>, prev: int, n: int, counted: int)
    requires
        claimed.len() == c.page_count + 1,
        !claimed[0],
        0 <= n,
        1 <= prev <= c.page_count,
    ensures
        match freelist_from(c, claimed, prev, n, counted) {
            Ok((after, total)) => {
                &&& unclaimed(after) + total == unclaimed(claimed) + counted
                &&& 1 <= unclaimed(after) <= unclaimed(claimed)
                &&& n != 0 ==> n <= c.page_count
            },
            Err(h) => on_a_page(c, h),
        },
    decreases unclaimed(claimed),
{
    page_zero_is_never_claimed(claimed);
    if n != 0 {
        a_claim_takes_one(c, claimed, prev, n, "freelist trunk"@);
        if let Ok(after) = claim(c, claimed, prev, n, "freelist trunk"@) {
            let leaves = u32_or_zero(c.page(n), 4);
            if leaves <= less(c.usable / 4, 2) {
                leaves_leave_fewer(c, n, leaves, 0, after, counted + 1);
                leaves_are_on_a_page(c, n, leaves, 0, after, counted + 1);
                if let Ok((after2, total)) = leaves_from(c, n, leaves, 0, after, counted + 1) {
                    a_freelist_adds_up(c, after2, n, u32_or_zero(c.page(n), 0), total);
                }
            }
        }
    }
}

/// A clean walk finds a tree for the schema and one for each root that it
/// names, no more trees than b-tree pages, as many free pages as the header
/// declares, and all of them on pages of their own. Damage is always on a page
/// that the database has.
pub proof fn a_walk_adds_up(c: Shape, trunk: int, declared: int, ptrmap: bool)
    requires
        c.stands(),
        0 <= trunk,
    ensures
        match walked(c, trunk, declared, ptrmap) {
            Ok(n) => {
                &&& 1 <= n.trees <= n.btree_pages
                &&& 0 <= n.overflow_pages
                &&& 0 <= n.freelist_pages == declared
                &&& n.btree_pages + n.overflow_pages + n.freelist_pages <= c.page_count
            },
            Err(h) => on_a_page(c, h),
        },
{
    let v = claimed_at_first(c, ptrmap);
    let t0 = Tour { claimed: v, btree_pages: 0, overflow_pages: 0, roots: Seq::empty() };
    assert(!v[0]) by {
        assert(0x4000_0000int / c.page_size >= 0) by (nonlinear_arith)
            requires
                c.page_size > 0,
        ;
    }
    assert(v[1]);
    let without = v.update(1, false);
    assert(without.update(1, true) =~= v);
    claiming_leaves_fewer(without, 1);
    unclaimed_counts(without);
    let stack = seq![(1int, 1int)];
    a_tree_stays_counted(c, t0, stack, true, true);
    a_tree_is_on_a_page(c, t0, stack, true, true);
    if let Ok(t1) = tree_from(c, t0, stack, true, true) {
        trees_add_up(c, t1, t1.roots, 0);
        if let Ok(t2) = trees_from(c, t1, t1.roots, 0) {
            a_freelist_adds_up(c, t2.claimed, 1, trunk, 0);
        }
    }
}

// ---------------------------------------------------------------------------
// Walking
// ---------------------------------------------------------------------------

struct Walk<'a> {
    d: &'a [u8],
    page_size: usize,
    usable: usize,
    page_count: u32,
    visited: Vec<bool>,
    btree_pages: u32,
    overflow_pages: u32,
    roots: Vec<u32>,
}

spec fn numbers(v: Seq<u32>) -> Seq<int> {
    Seq::new(v.len(), |i: int| v[i] as int)
}

spec fn pending(v: Seq<(u32, u32)>) -> Seq<(int, int)> {
    Seq::new(v.len(), |i: int| (v[i].0 as int, v[i].1 as int))
}

impl<'a> Walk<'a> {
    spec fn shape(self) -> Shape {
        Shape {
            d: self.d@,
            page_size: self.page_size as int,
            usable: self.usable as int,
            page_count: self.page_count as int,
        }
    }

    spec fn tour(self) -> Tour {
        Tour {
            claimed: self.visited@,
            btree_pages: self.btree_pages as int,
            overflow_pages: self.overflow_pages as int,
            roots: numbers(self.roots@),
        }
    }

    spec fn wf(self) -> bool {
        &&& self.shape().stands()
        &&& self.visited@.len() == self.page_count + 1
        &&& !self.visited@[0]
    }

    fn page(&self, n: u32) -> (p: &'a [u8])
        requires
            self.shape().stands(),
            1 <= n <= self.page_count,
        ensures
            p@ == self.shape().page(n as int),
            p@.len() == self.page_size,
    {
        proof {
            lemma_mul_inequality(n as int, self.page_count as int, self.page_size as int);
            lemma_mul_is_distributive_sub_other_way(self.page_size as int, n as int, 1);
            lemma_mul_nonnegative((n - 1) as int, self.page_size as int);
        }
        let start: usize = (n as usize - 1) * self.page_size;
        slice_subrange(self.d, start, start + self.page_size)
    }

    /// Claim a page for one purpose.
    fn claim(&mut self, from: u32, n: u32, what: &str) -> (r: Result<(), Damage>)
        requires
            old(self).wf(),
        ensures
            final(self).shape() == old(self).shape(),
            final(self).btree_pages == old(self).btree_pages,
            final(self).overflow_pages == old(self).overflow_pages,
            final(self).roots@ == old(self).roots@,
            final(self).visited@.len() == old(self).visited@.len(),
            match claim(old(self).shape(), old(self).visited@, from as int, n as int, what@) {
                Err(h) => r matches Err(x) && x@ == h,
                Ok(claimed) => r is Ok && final(self).visited@ == claimed && final(self).wf() && n >= 1
                    && n <= final(self).page_count,
            },
    {
        if n == 0 || n > self.page_count {
            return Err(
                Damage {
                    page: from,
                    why: text::cat7(
                        "a ",
                        what,
                        " pointer names page ",
                        text::decimal(n as u64).as_str(),
                        " in a ",
                        text::decimal(self.page_count as u64).as_str(),
                        "-page database",
                    ),
                },
            );
        }
        if self.visited[n as usize] {
            return Err(
                Damage {
                    page: from,
                    why: text::cat4(
                        "page ",
                        text::decimal(n as u64).as_str(),
                        " is reached twice, the second time as a ",
                        what,
                    ),
                },
            );
        }
        self.visited[n as usize] = true;
        Ok(())
    }

    /// Follow one overflow chain from its first page.
    fn overflow(&mut self, from: u32, first: u32, payload: u64) -> (r: Result<(), Damage>)
        requires
            old(self).wf(),
            old(self).tour().counted(old(self).shape()),
        ensures
            final(self).shape() == old(self).shape(),
            match overflow_from(
                old(self).shape(),
                old(self).tour(),
                from as int,
                first as int,
                payload as int,
            ) {
                Err(h) => r matches Err(x) && x@ == h,
                Ok(t) => r is Ok && final(self).tour() == t && final(self).wf(),
            },
    {
        let ghost c = self.shape();
        let ghost whole = overflow_from(c, self.tour(), from as int, first as int, payload as int);
        let mut prev: u32 = from;
        let mut n: u32 = first;
        let mut remaining: u64 = payload;
        let per: u64 = (self.usable - 4) as u64;
        while remaining > 0
            invariant
                self.wf(),
                c == self.shape(),
                c == old(self).shape(),
                self.tour().counted(c),
                per == c.usable - 4,
                whole == overflow_from(c, self.tour(), prev as int, n as int, remaining as int),
                whole == overflow_from(
                    old(self).shape(),
                    old(self).tour(),
                    from as int,
                    first as int,
                    payload as int,
                ),
            decreases remaining,
        {
            proof {
                a_claim_takes_one(c, self.visited@, prev as int, n as int, "overflow page"@);
            }
            match self.claim(prev, n, "overflow page") {
                Err(e) => {
                    return Err(e);
                },
                Ok(_) => {},
            }
            proof {
                page_zero_is_never_claimed(self.visited@);
            }
            self.overflow_pages = self.overflow_pages + 1;
            let next: u32 = match bytes::be32(self.page(n), 0) {
                Some(x) => x,
                None => 0,
            };
            remaining = if remaining <= per {
                0
            } else {
                remaining - per
            };
            if remaining == 0 && next != 0 {
                return Err(
                    Damage {
                        page: n,
                        why: "an overflow chain continues past the end of its payload".to_owned(),
                    },
                );
            }
            if remaining > 0 && next == 0 {
                return Err(
                    Damage {
                        page: n,
                        why: "an overflow chain ends before its payload does".to_owned(),
                    },
                );
            }
            prev = n;
            n = next;
        }
        Ok(())
    }

    /// The freeblock chain of a page.
    fn freeblocks(&self, p: &[u8], array_end: usize, first: usize) -> (r: Option<&'static str>)
        requires
            self.shape().stands(),
            p@.len() == self.page_size,
        ensures
            match freeblocks_from(self.shape(), p@, array_end as int, first as int, 0) {
                Some(what) => r matches Some(s) && s@ == what,
                None => r is None,
            },
    {
        let ghost c = self.shape();
        let mut fb: usize = first;
        let mut hops: usize = 0;
        while fb != 0
            invariant
                c == self.shape(),
                c.stands(),
                p@.len() == self.page_size,
                hops <= c.page_size / 4,
                freeblocks_from(c, p@, array_end as int, first as int, 0) == freeblocks_from(
                    c,
                    p@,
                    array_end as int,
                    fb as int,
                    hops as int,
                ),
            decreases c.page_size / 4 + 1 - hops,
        {
            hops += 1;
            if fb < array_end || self.usable - 4 < fb || hops > self.page_size / 4 {
                return Some("'s freeblock chain leaves the page");
            }
            let next: usize = match bytes::be16(p, fb) {
                Some(x) => x as usize,
                None => 0,
            };
            if next != 0 && next <= fb {
                return Some("'s freeblock chain does not ascend");
            }
            fb = next;
        }
        None
    }

    /// The header of page `n` as a b-tree page.
    fn layout(&self, n: u32) -> (r: Result<Header, Damage>)
        requires
            self.wf(),
            1 <= n <= self.page_count,
        ensures
            match layout_of(self.shape(), n as int) {
                Err(h) => r matches Err(x) && x@ == h,
                Ok(lay) => r matches Ok(x) && x.layout() == lay,
            },
            r matches Ok(x) ==> x.array_end <= self.usable && x.content <= self.usable,
    {
        let p: &[u8] = self.page(n);
        let h: usize = if n == 1 {
            100
        } else {
            0
        };
        let (interior, table): (bool, bool) = match p[h] {
            0x02 => (true, false),
            0x05 => (true, true),
            0x0A => (false, false),
            0x0D => (false, true),
            other => {
                return Err(
                    self.wrong(
                        n,
                        text::cat2(
                            " should be a b-tree page but has type byte 0x",
                            text::hexadecimal(other as u64, 2).as_str(),
                        ).as_str(),
                    ),
                );
            },
        };
        let array: usize = h + (if interior {
            12usize
        } else {
            8usize
        });
        let cells: usize = half(p, h + 3);
        let start: usize = half(p, h + 5);
        let content: usize = if start == 0 {
            65536
        } else {
            start
        };
        let array_end: usize = array + 2 * cells;
        if array_end > self.usable {
            return Err(
                self.wrong(
                    n,
                    text::cat3(
                        " claims ",
                        text::decimal(cells as u64).as_str(),
                        " cells, more than the page can index",
                    ).as_str(),
                ),
            );
        }
        // Cells live between the end of the pointer array and the end of the
        // usable page; an empty page starts its content area at that end.
        if content < array_end || content > self.usable {
            return Err(
                self.wrong(
                    n,
                    text::cat3(
                        "'s cell content starts at ",
                        text::decimal(content as u64).as_str(),
                        ", outside the page",
                    ).as_str(),
                ),
            );
        }
        if p[h + 7] > 60 {
            return Err(
                self.wrong(
                    n,
                    text::cat3(
                        " claims ",
                        text::decimal(p[h + 7] as u64).as_str(),
                        " fragmented bytes; SQLite never leaves over 60",
                    ).as_str(),
                ),
            );
        }
        match self.freeblocks(p, array_end, half(p, h + 1)) {
            Some(what) => Err(self.wrong(n, what)),
            None => Ok(Header { interior, table, h, array, cells, content, array_end }),
        }
    }

    /// A complaint about page `n`.
    fn wrong(&self, n: u32, what: &str) -> (r: Damage)
        ensures
            r@ == complaint(n as int, what@),
    {
        Damage { page: n, why: text::cat3("page ", text::decimal(n as u64).as_str(), what) }
    }

    /// A complaint about a cell of page `n`.
    fn wrong_cell(&self, n: u32, i: usize, what: &str) -> (r: Damage)
        ensures
            r@ == cell_complaint(n as int, i as int, what@),
    {
        self.wrong(
            n,
            text::cat3(" cell ", text::decimal(i as u64).as_str(), what).as_str(),
        )
    }

    /// Bytes of a cell's payload stored on the page itself.
    fn local_payload(&self, payload: u64, table_leaf: bool) -> (r: u64)
        requires
            self.shape().stands(),
        ensures
            r == local_part(self.usable as int, payload as int, table_leaf),
            r <= self.usable,
            r <= payload,
    {
        let u: u128 = self.usable as u128;
        let x: u128 = if table_leaf {
            u - 35
        } else {
            (u - 12) * 64 / 255 - 23
        };
        if payload as u128 <= x {
            return payload;
        }
        let m: u128 = (u - 12) * 32 / 255 - 23;
        let k: u128 = m + (payload as u128 - m) % (u - 4);
        proof {
            vstd::arithmetic::div_mod::lemma_mod_bound(payload - m, u - 4);
        }
        if k <= x {
            k as u64
        } else {
            m as u64
        }
    }
}

/// Two bytes of a page as a number.
fn half(p: &[u8], at: usize) -> (r: usize)
    requires
        at + 2 <= p@.len(),
    ensures
        r == bytes::u16_be(p@, at as int),
        r <= 0xFFFF,
{
    match bytes::be16(p, at) {
        Some(x) => x as usize,
        None => 0,
    }
}

/// What the header of a b-tree page says.
struct Header {
    interior: bool,
    table: bool,
    h: usize,
    array: usize,
    cells: usize,
    content: usize,
    array_end: usize,
}

impl Header {
    spec fn layout(self) -> Layout {
        Layout {
            interior: self.interior,
            table: self.table,
            h: self.h as int,
            array: self.array as int,
            cells: self.cells as int,
            content: self.content as int,
            array_end: self.array_end as int,
        }
    }
}

/// What one cell holds.
enum Found {
    Child(u32),
    Payload { child: Option<u32>, at: usize, local: usize, payload: u64 },
}

spec fn found_as(f: Found, cell: Cell) -> bool {
    match (f, cell) {
        (Found::Child(x), Cell::Child(y)) => x == y,
        (
            Found::Payload { child: c1, at: a1, local: l1, payload: p1 },
            Cell::Payload { child: c2, at: a2, local: l2, payload: p2 },
        ) => {
            &&& match (c1, c2) {
                (Some(x), Some(y)) => x == y,
                (None, None) => true,
                _ => false,
            }
            &&& a1 == a2
            &&& l1 == l2
            &&& p1 == p2
        },
        _ => false,
    }
}

/// Four bytes of a page as a number, or zero where they run off it.
fn word(p: &[u8], at: usize) -> (r: u32)
    ensures
        r == u32_or_zero(p@, at as int),
{
    match bytes::be32(p, at) {
        Some(x) => x,
        None => 0,
    }
}

impl<'a> Walk<'a> {
    /// The `i`-th cell of page `n`.
    fn cell(&self, n: u32, lay: &Header, i: usize) -> (r: Result<Found, Damage>)
        requires
            self.wf(),
            1 <= n <= self.page_count,
            i < lay.cells,
            lay.array_end == lay.array + 2 * lay.cells,
            lay.array_end <= self.usable,
        ensures
            match cell_at(self.shape(), n as int, lay.layout(), i as int) {
                Cell::Wrong(h) => r matches Err(x) && x@ == h,
                other => r matches Ok(f) && found_as(f, other),
            },
            r matches Ok(Found::Payload { at, local, payload, .. }) ==> at + local <= self.usable
                && local <= payload,
    {
        let p: &[u8] = self.page(n);
        let off: usize = half(p, lay.array + 2 * i);
        if off < lay.array_end || off < lay.content || off >= self.usable {
            return Err(
                self.wrong_cell(
                    n,
                    i,
                    text::cat3(
                        " points at offset ",
                        text::decimal(off as u64).as_str(),
                        ", outside its content area",
                    ).as_str(),
                ),
            );
        }
        let mut at: usize = off;
        let mut child: Option<u32> = None;
        if lay.interior {
            let first: u32 = word(p, at);
            if lay.table {
                // An interior table cell is a child and a rowid.
                return Ok(Found::Child(first));
            }
            child = Some(first);
            at = at + 4;
        }
        let (payload, len): (u64, usize) = match varint(p, at) {
            Some(x) => x,
            None => {
                return Err(self.wrong_cell(n, i, " runs off the page"));
            },
        };
        at = at + len;
        if lay.table {
            // A leaf table cell: the rowid follows the payload size.
            match varint(p, at) {
                Some((_, len2)) => {
                    at = at + len2;
                },
                None => {
                    return Err(self.wrong_cell(n, i, " runs off the page"));
                },
            }
        }
        let local: usize = self.local_payload(payload, lay.table && !lay.interior) as usize;
        if at > self.usable || local > self.usable - at {
            return Err(self.wrong_cell(n, i, "'s payload runs past the end of the page"));
        }
        Ok(Found::Payload { child, at, local, payload })
    }

    /// The cells of page `n`.
    fn cells(&mut self, n: u32, lay: &Header, schema: bool, stack: &mut Vec<(u32, u32)>) -> (r: Result<
        (),
        Damage,
    >)
        requires
            old(self).wf(),
            old(self).tour().counted(old(self).shape()),
            1 <= n <= old(self).page_count,
            lay.array_end == lay.array + 2 * lay.cells,
            lay.array_end <= old(self).usable,
        ensures
            final(self).shape() == old(self).shape(),
            match cells_from(
                old(self).shape(),
                n as int,
                lay.layout(),
                schema,
                0,
                old(self).tour(),
                pending(old(stack)@),
            ) {
                Err(h) => r matches Err(x) && x@ == h,
                Ok((t, rest)) => r is Ok && final(self).tour() == t && pending(final(stack)@) == rest
                    && final(self).wf(),
            },
    {
        let ghost c = self.shape();
        let ghost whole = cells_from(
            c,
            n as int,
            lay.layout(),
            schema,
            0,
            self.tour(),
            pending(stack@),
        );
        let mut i: usize = 0;
        while i < lay.cells
            invariant
                self.wf(),
                c == self.shape(),
                c == old(self).shape(),
                self.tour().counted(c),
                1 <= n <= self.page_count,
                lay.array_end == lay.array + 2 * lay.cells,
                lay.array_end <= self.usable,
                i <= lay.cells,
                whole == cells_from(
                    c,
                    n as int,
                    lay.layout(),
                    schema,
                    i as int,
                    self.tour(),
                    pending(stack@),
                ),
                whole == cells_from(
                    old(self).shape(),
                    n as int,
                    lay.layout(),
                    schema,
                    0,
                    old(self).tour(),
                    pending(old(stack)@),
                ),
            decreases lay.cells - i,
        {
            match self.cell(n, lay, i) {
                Err(e) => {
                    return Err(e);
                },
                Ok(Found::Child(child)) => {
                    proof {
                        assert(pending(stack@.push((child, n))) =~= pending(stack@).push(
                            (child as int, n as int),
                        ));
                    }
                    stack.push((child, n));
                },
                Ok(Found::Payload { child, at, local, payload }) => {
                    if let Some(x) = child {
                        proof {
                            assert(pending(stack@.push((x, n))) =~= pending(stack@).push(
                                (x as int, n as int),
                            ));
                        }
                        stack.push((x, n));
                    }
                    let p: &[u8] = self.page(n);
                    if schema && lay.table && !lay.interior {
                        if let Some(root) = schema_rootpage(slice_subrange(p, at, at + local)) {
                            if root != 0 {
                                proof {
                                    assert(numbers(self.roots@.push(root)) =~= numbers(
                                        self.roots@,
                                    ).push(root as int));
                                }
                                self.roots.push(root);
                            }
                        }
                    }
                    if (local as u64) < payload {
                        match bytes::be32(p, at + local) {
                            None => {
                                return Err(self.wrong_cell(n, i, " runs off the page"));
                            },
                            Some(first) => {
                                proof {
                                    overflow_stays_counted(
                                        c,
                                        self.tour(),
                                        n as int,
                                        first as int,
                                        payload - local,
                                    );
                                }
                                match self.overflow(n, first, payload - local as u64) {
                                    Err(e) => {
                                        return Err(e);
                                    },
                                    Ok(_) => {},
                                }
                            },
                        }
                    }
                },
            }
            i += 1;
        }
        Ok(())
    }

    /// Walk one b-tree. When `schema` is set, collect the root page of every
    /// table and index its leaf rows name. The root was claimed by whoever
    /// named it.
    fn btree(&mut self, root: u32, from: u32, schema: bool) -> (r: Result<(), Damage>)
        requires
            old(self).wf(),
            1 <= root <= old(self).page_count,
            tree_ready(
                old(self).shape(),
                old(self).tour(),
                seq![(root as int, from as int)],
                true,
            ),
        ensures
            final(self).shape() == old(self).shape(),
            match tree_from(
                old(self).shape(),
                old(self).tour(),
                seq![(root as int, from as int)],
                true,
                schema,
            ) {
                Err(h) => r matches Err(x) && x@ == h,
                Ok(t) => r is Ok && final(self).tour() == t && final(self).wf() && t.counted(
                    final(self).shape(),
                ),
            },
    {
        let ghost c = self.shape();
        let ghost whole = tree_from(
            c,
            self.tour(),
            seq![(root as int, from as int)],
            true,
            schema,
        );
        let mut stack: Vec<(u32, u32)> = Vec::new();
        stack.push((root, from));
        assert(pending(stack@) =~= seq![(root as int, from as int)]);
        let mut first: bool = true;
        loop
            invariant
                self.wf(),
                c == self.shape(),
                c == old(self).shape(),
                tree_ready(c, self.tour(), pending(stack@), first),
                first ==> stack@.len() == 1 && 1 <= stack@[0].0 <= self.page_count,
                whole == tree_from(c, self.tour(), pending(stack@), first, schema),
                whole == tree_from(
                    old(self).shape(),
                    old(self).tour(),
                    seq![(root as int, from as int)],
                    true,
                    schema,
                ),
            decreases
                    unclaimed(self.visited@) + (if first {
                        1int
                    } else {
                        0int
                    }),
        {
            let ghost before = self.tour();
            let ghost stack0 = pending(stack@);
            match stack.pop() {
                None => {
                    return Ok(());
                },
                Some((n, parent)) => {
                    assert(pending(stack@) =~= stack0.drop_last());
                    assert(stack0.last() == (n as int, parent as int));
                    proof {
                        unclaimed_counts(before.claimed);
                    }
                    if !first {
                        proof {
                            a_claim_takes_one(
                                c,
                                self.visited@,
                                parent as int,
                                n as int,
                                "child page"@,
                            );
                        }
                        match self.claim(parent, n, "child page") {
                            Err(e) => {
                                return Err(e);
                            },
                            Ok(_) => {},
                        }
                    }
                    let ghost t1 = self.tour();
                    assert(t1 == (Tour { claimed: self.visited@, ..before }));
                    proof {
                        page_zero_is_never_claimed(self.visited@);
                        a_visit_stays_counted(c, t1, n as int, schema, stack0.drop_last());
                    }
                    let lay: Header = match self.layout(n) {
                        Err(e) => {
                            return Err(e);
                        },
                        Ok(lay) => lay,
                    };
                    first = false;
                    self.btree_pages = self.btree_pages + 1;
                    assert(self.tour() == (Tour { btree_pages: t1.btree_pages + 1, ..t1 }));
                    match self.cells(n, &lay, schema, &mut stack) {
                        Err(e) => {
                            return Err(e);
                        },
                        Ok(_) => {},
                    }
                    if lay.interior {
                        let right: u32 = word(self.page(n), lay.h + 8);
                        proof {
                            assert(pending(stack@.push((right, n))) =~= pending(stack@).push(
                                (right as int, n as int),
                            ));
                        }
                        stack.push((right, n));
                    }
                    proof {
                        unclaimed_counts(self.visited@);
                        assert(visit(c, t1, n as int, schema, stack0.drop_last()) == Ok::<
                            (Tour, Seq<(int, int)>),
                            Harm,
                        >((self.tour(), pending(stack@))));
                    }
                },
            }
        }
    }
}

impl<'a> Walk<'a> {
    /// The leaves of the freelist trunk page `n`.
    fn leaves(&mut self, n: u32, leaves: u32, counted: u32) -> (r: Result<u32, Damage>)
        requires
            old(self).wf(),
            1 <= n <= old(self).page_count,
            8 + 4 * leaves <= old(self).usable,
            counted + unclaimed(old(self).visited@) <= old(self).page_count + 1,
        ensures
            final(self).shape() == old(self).shape(),
            match leaves_from(
                old(self).shape(),
                n as int,
                leaves as int,
                0,
                old(self).visited@,
                counted as int,
            ) {
                Err(h) => r matches Err(x) && x@ == h,
                Ok((claimed, total)) => r matches Ok(x) && x == total && final(self).visited@
                    == claimed && final(self).wf(),
            },
    {
        let ghost c = self.shape();
        let ghost whole = leaves_from(
            c,
            n as int,
            leaves as int,
            0,
            self.visited@,
            counted as int,
        );
        let mut total: u32 = counted;
        let mut k: u32 = 0;
        while k < leaves
            invariant
                self.wf(),
                c == self.shape(),
                c == old(self).shape(),
                1 <= n <= self.page_count,
                8 + 4 * leaves <= self.usable,
                k <= leaves,
                total + unclaimed(self.visited@) <= self.page_count + 1,
                whole == leaves_from(
                    c,
                    n as int,
                    leaves as int,
                    k as int,
                    self.visited@,
                    total as int,
                ),
                whole == leaves_from(
                    old(self).shape(),
                    n as int,
                    leaves as int,
                    0,
                    old(self).visited@,
                    counted as int,
                ),
            decreases leaves - k,
        {
            let leaf: u32 = word(self.page(n), 8 + 4 * k as usize);
            proof {
                a_claim_takes_one(c, self.visited@, n as int, leaf as int, "freelist leaf"@);
            }
            match self.claim(n, leaf, "freelist leaf") {
                Err(e) => {
                    return Err(e);
                },
                Ok(_) => {},
            }
            proof {
                page_zero_is_never_claimed(self.visited@);
            }
            total = total + 1;
            k += 1;
        }
        Ok(total)
    }

    /// Follow the freelist from its first trunk page, and count its pages.
    fn freelist(&mut self, trunk: u32) -> (r: Result<u32, Damage>)
        requires
            old(self).wf(),
        ensures
            match freelist_from(old(self).shape(), old(self).visited@, 1, trunk as int, 0) {
                Err(h) => r matches Err(x) && x@ == h,
                Ok((_, counted)) => r matches Ok(x) && x == counted,
            },
    {
        let ghost c = self.shape();
        let ghost whole = freelist_from(c, self.visited@, 1, trunk as int, 0);
        let mut prev: u32 = 1;
        let mut n: u32 = trunk;
        let mut counted: u32 = 0;
        let quarter: usize = self.usable / 4;
        let most: usize = if quarter <= 2 {
            0
        } else {
            quarter - 2
        };
        proof {
            unclaimed_counts(self.visited@);
        }
        while n != 0
            invariant
                self.wf(),
                c == self.shape(),
                c == old(self).shape(),
                most == less(c.usable / 4, 2),
                counted + unclaimed(self.visited@) <= self.page_count + 1,
                whole == freelist_from(c, self.visited@, prev as int, n as int, counted as int),
                whole == freelist_from(
                    old(self).shape(),
                    old(self).visited@,
                    1,
                    trunk as int,
                    0,
                ),
            decreases unclaimed(self.visited@),
        {
            proof {
                a_claim_takes_one(c, self.visited@, prev as int, n as int, "freelist trunk"@);
            }
            match self.claim(prev, n, "freelist trunk") {
                Err(e) => {
                    return Err(e);
                },
                Ok(_) => {},
            }
            proof {
                page_zero_is_never_claimed(self.visited@);
            }
            counted = counted + 1;
            let next: u32 = word(self.page(n), 0);
            let leaves: u32 = word(self.page(n), 4);
            if leaves as usize > most {
                return Err(
                    Damage {
                        page: n,
                        why: text::cat6(
                            "freelist trunk page ",
                            text::decimal(n as u64).as_str(),
                            " claims ",
                            text::decimal(leaves as u64).as_str(),
                            " leaves; a page holds ",
                            text::decimal(most as u64).as_str(),
                        ),
                    },
                );
            }
            proof {
                leaves_leave_fewer(
                    c,
                    n as int,
                    leaves as int,
                    0,
                    self.visited@,
                    counted as int,
                );
            }
            match self.leaves(n, leaves, counted) {
                Err(e) => {
                    return Err(e);
                },
                Ok(total) => {
                    counted = total;
                },
            }
            prev = n;
            n = next;
        }
        Ok(counted)
    }
}

/// The pages claimed before the walk starts.
fn first_claims(page_size: usize, usable: usize, page_count: u32, ptrmap: bool, Ghost(c): Ghost<Shape>) -> (v:
    Vec<bool>)
    requires
        c.stands(),
        page_size == c.page_size,
        usable == c.usable,
        page_count == c.page_count,
    ensures
        v@ == claimed_at_first(c, ptrmap),
{
    let lock: u64 = 0x4000_0000u64 / page_size as u64 + 1;
    let span: u64 = usable as u64 / 5 + 1;
    let mut v: Vec<bool> = Vec::new();
    let mut i: u64 = 0;
    while i <= page_count as u64
        invariant
            c.stands(),
            page_size == c.page_size,
            usable == c.usable,
            page_count == c.page_count,
            lock == 0x4000_0000int / c.page_size + 1,
            span == c.usable / 5 + 1,
            i <= page_count + 1,
            v@.len() == i,
            forall|k: int| 0 <= k < i ==> #[trigger] v@[k] == claimed_at_first(c, ptrmap)[k],
        decreases page_count + 1 - i,
    {
        v.push(i == 1 || i == lock || (ptrmap && i >= 2 && (i - 2) % span == 0));
        i += 1;
    }
    assert(v@ =~= claimed_at_first(c, ptrmap));
    v
}

/// Walk `d`, a database of `page_count` pages of `page_size`, all present.
///
/// `ptrmap` is true for auto-vacuum databases, whose pointer-map pages are
/// reachable from no b-tree and are skipped rather than judged.
pub fn walk(
    d: &[u8],
    page_size: usize,
    reserved: usize,
    page_count: u32,
    freelist_trunk: u32,
    freelist_pages: u32,
    ptrmap: bool,
) -> (r: Result<Walked, Damage>)
    requires
        196 <= page_size - reserved,
        1 <= page_count,
        page_count * page_size <= d@.len(),
    ensures
        match walked(
            Shape {
                d: d@,
                page_size: page_size as int,
                usable: page_size - reserved,
                page_count: page_count as int,
            },
            freelist_trunk as int,
            freelist_pages as int,
            ptrmap,
        ) {
            Err(h) => r matches Err(x) && x@ == h,
            Ok(count) => r matches Ok(x) && x@ == count,
        },
{
    let usable: usize = page_size - reserved;
    let ghost c = Shape {
        d: d@,
        page_size: page_size as int,
        usable: usable as int,
        page_count: page_count as int,
    };
    let visited = first_claims(page_size, usable, page_count, ptrmap, Ghost(c));
    let mut w = Walk {
        d,
        page_size,
        usable,
        page_count,
        visited,
        btree_pages: 0,
        overflow_pages: 0,
        roots: Vec::new(),
    };
    proof {
        let v = visited@;
        assert(numbers(w.roots@) =~= Seq::<int>::empty());
        unclaimed_counts(v);
        assert(v[1]);
        let without = v.update(1, false);
        assert(without.update(1, true) =~= v);
        claiming_leaves_fewer(without, 1);
        unclaimed_counts(without);
    }
    let ghost t0 = w.tour();
    match w.btree(1, 1, true) {
        Err(e) => {
            return Err(e);
        },
        Ok(_) => {},
    }
    let ghost t1 = w.tour();
    proof {
        a_tree_stays_counted(c, t0, seq![(1int, 1int)], true, true);
        page_zero_is_never_claimed(w.visited@);
    }
    let n: usize = w.roots.len();
    let mut roots: Vec<u32> = Vec::new();
    let mut i: usize = 0;
    while i < n
        invariant
            i <= n,
            n == w.roots@.len(),
            roots@ == w.roots@.subrange(0, i as int),
        decreases n - i,
    {
        roots.push(w.roots[i]);
        i += 1;
    }
    assert(roots@ =~= w.roots@);
    let mut i: usize = 0;
    let mut trees: u32 = 1;
    while i < roots.len()
        invariant
            i <= roots@.len(),
            w.wf(),
            w.shape() == c,
            numbers(roots@) == t1.roots,
            trees == 1 + i,
            trees <= w.btree_pages,
            w.tour().counted(c),
            trees_from(c, t1, t1.roots, 0) == trees_from(c, w.tour(), t1.roots, i as int),
            walked(c, freelist_trunk as int, freelist_pages as int, ptrmap) == (match trees_from(
                c,
                t1,
                t1.roots,
                0,
            ) {
                Err(h) => Err(h),
                Ok(t2) => match freelist_from(c, t2.claimed, 1, freelist_trunk as int, 0) {
                    Err(h) => Err(h),
                    Ok((_, counted)) => freelist_check(
                        counted,
                        freelist_trunk as int,
                        freelist_pages as int,
                        t2,
                        1 + t1.roots.len() as int,
                    ),
                },
            }),
            c == (Shape {
                d: d@,
                page_size: page_size as int,
                usable: page_size - reserved,
                page_count: page_count as int,
            }),
        decreases roots@.len() - i,
    {
        let root: u32 = roots[i];
        assert(t1.roots[i as int] == root);
        let ghost before = w.tour();
        proof {
            a_claim_takes_one(c, w.visited@, 1, root as int, "table or index root"@);
        }
        match w.claim(1, root, "table or index root") {
            Err(e) => {
                return Err(e);
            },
            Ok(_) => {},
        }
        let ghost claimed = w.tour();
        assert(claimed == (Tour { claimed: w.visited@, ..before }));
        match w.btree(root, 1, false) {
            Err(e) => {
                return Err(e);
            },
            Ok(_) => {},
        }
        proof {
            a_tree_stays_counted(c, claimed, seq![(root as int, 1int)], true, false);
            page_zero_is_never_claimed(w.visited@);
        }
        trees += 1;
        i += 1;
    }
    assert(numbers(roots@).len() == roots@.len());
    let btree_pages: u32 = w.btree_pages;
    let overflow_pages: u32 = w.overflow_pages;
    match w.freelist(freelist_trunk) {
        Err(e) => Err(e),
        Ok(counted) => {
            if counted != freelist_pages {
                return Err(
                    Damage {
                        page: if freelist_trunk >= 1 {
                            freelist_trunk
                        } else {
                            1
                        },
                        why: text::cat4(
                            "the freelist holds ",
                            text::decimal(counted as u64).as_str(),
                            " pages but the header says ",
                            text::decimal(freelist_pages as u64).as_str(),
                        ),
                    },
                );
            }
            Ok(
                Walked {
                    btree_pages,
                    overflow_pages,
                    freelist_pages: counted,
                    trees,
                },
            )
        },
    }
}

} // verus!
