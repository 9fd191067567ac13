//! The entropy-coded scans of JPEG images: codes, coefficients and intervals.

use vstd::prelude::*;
use vstd::arithmetic::power2::*;
use super::super::jpeg_entropy as entropy;
use super::super::jpeg_entropy::{Book, Decoded, Lane, Limits, Progress, Run, Step, Symbol};

verus! {

// ---------------------------------------------------------------------------
// Codes
// ---------------------------------------------------------------------------

/// How many codes are shorter than `len` bits, by their counts.
pub open spec fn below(counts: Seq<u8>, len: int) -> int
    decreases len,
{
    if len <= 1 {
        0
    } else {
        below(counts, len - 1) + counts[len - 2]
    }
}

/// Whether `lens` and `codes` are the lengths and the codes of the values of a
/// book: the shorter come first, as many of each length as the counts say; the
/// first code is all zeros, and each is the one before it and one, with zeros
/// behind it where it is longer.
pub open spec fn codes_of(book: Book, lens: Seq<int>, codes: Seq<int>) -> bool {
    &&& book.counts.len() == 16
    &&& lens.len() == book.values.len()
    &&& codes.len() == book.values.len()
    &&& forall|m: int| 0 <= m < lens.len() ==> #[trigger] nth_len(book, lens, m)
    &&& forall|m: int| 0 <= m < codes.len() ==> #[trigger] nth_code(lens, codes, m)
}

/// Whether the `m`-th length is the one that the counts call for.
pub open spec fn nth_len(book: Book, lens: Seq<int>, m: int) -> bool {
    &&& 1 <= lens[m] <= 16
    &&& below(book.counts, lens[m]) <= m < below(book.counts, lens[m] + 1)
}

/// Whether the `m`-th code follows the one before it.
pub open spec fn nth_code(lens: Seq<int>, codes: Seq<int>, m: int) -> bool {
    codes[m] == (if m == 0 {
        0
    } else {
        (codes[m - 1] + 1) * pow2((lens[m] - lens[m - 1]) as nat)
    })
}

proof fn below_read(book: Book, len: int)
    ensures
        book.shorter(len) == below(book.counts, len),
    decreases len,
{
    if len > 1 {
        below_read(book, len - 1);
    }
}

proof fn below_grows(counts: Seq<u8>, a: int, b: int)
    requires
        1 <= a <= b,
    ensures
        0 <= below(counts, a) <= below(counts, b),
    decreases b,
{
    if a < b {
        below_grows(counts, a, b - 1);
    } else if a > 1 {
        below_grows(counts, a - 1, b - 1);
    }
}

/// The first code of a longer length, where there are none in between.
proof fn first_later(book: Book, a: int, b: int)
    requires
        1 <= a < b,
        below(book.counts, a + 1) == below(book.counts, b),
    ensures
        book.first(b) == (book.first(a) + book.counts[a - 1]) * pow2((b - a) as nat),
    decreases b - a,
{
    lemma2_to64();
    below_grows(book.counts, a + 1, b);
    if b == a + 1 {
        assert((b - a) as nat == 1);
        assert(book.first(b) == 2 * (book.first(a) + book.counts[a - 1]));
    } else {
        below_grows(book.counts, a + 1, b - 1);
        below_grows(book.counts, b - 1, b);
        first_later(book, a, b - 1);
        lemma_pow2_unfold((b - a) as nat);
        let x = book.first(a) + book.counts[a - 1];
        let k = pow2((b - 1 - a) as nat) as int;
        assert(book.counts[b - 2] == 0);
        assert((b - a - 1) as nat == (b - 1 - a) as nat);
        assert(book.first(b) == 2 * (x * k));
        assert(2 * (x * k) == x * (2 * k)) by (nonlinear_arith);
    }
}

proof fn code_found(book: Book, lens: Seq<int>, codes: Seq<int>, m: int)
    requires
        codes_of(book, lens, codes),
        0 <= m < codes.len(),
    ensures
        codes[m] == book.first(lens[m]) + m - below(book.counts, lens[m]),
        codes[m] >= 0,
    decreases m,
{
    assert(nth_len(book, lens, m));
    assert(nth_code(lens, codes, m));
    lemma2_to64();
    if m == 0 {
        below_grows(book.counts, 1, lens[0]);
        none_yet(book, lens[0]);
    } else {
        code_found(book, lens, codes, m - 1);
        assert(nth_len(book, lens, m - 1));
        let a = lens[m - 1];
        let b = lens[m];
        if b < a {
            below_grows(book.counts, b + 1, a);
        }
        if a == b {
            assert((lens[m] - lens[m - 1]) as nat == 0);
            let x = codes[m - 1] + 1;
            let k = pow2((lens[m] - lens[m - 1]) as nat) as int;
            assert(x * k == x) by (nonlinear_arith)
                requires
                    k == 1,
            ;
        } else {
            below_grows(book.counts, a + 1, b);
            assert(below(book.counts, b) == m);
            first_later(book, a, b);
            lemma_pow2_pos((b - a) as nat);
            assert((codes[m - 1] + 1) * pow2((b - a) as nat) >= 0) by (nonlinear_arith)
                requires
                    codes[m - 1] >= 0,
                    pow2((b - a) as nat) > 0,
            ;
        }
    }
}

proof fn none_yet(book: Book, len: int)
    requires
        1 <= len,
        below(book.counts, len) == 0,
    ensures
        book.first(len) == 0,
    decreases len,
{
    if len > 1 {
        below_grows(book.counts, 1, len - 1);
        below_grows(book.counts, len - 1, len);
        none_yet(book, len - 1);
    }
}

/// The codes of length `a` lie before those of length `b`, extended.
proof fn first_apart(book: Book, a: int, b: int)
    requires
        1 <= a < b,
    ensures
        book.first(b) >= (book.first(a) + book.counts[a - 1]) * pow2((b - a) as nat),
        book.first(a) >= 0,
    decreases b - a,
{
    lemma2_to64();
    first_not_negative(book, a);
    if b == a + 1 {
        assert(book.first(b) == 2 * (book.first(a) + book.counts[a - 1]));
    } else {
        first_apart(book, a, b - 1);
        lemma_pow2_unfold((b - a) as nat);
        let x = book.first(a) + book.counts[a - 1];
        let k = pow2((b - 1 - a) as nat) as int;
        assert(2 * (x * k) == x * (2 * k)) by (nonlinear_arith);
    }
}

proof fn first_not_negative(book: Book, a: int)
    ensures
        book.first(a) >= 0,
    decreases a,
{
    if a > 1 {
        first_not_negative(book, a - 1);
    }
}

proof fn along_the_lengths(
    book: Book,
    lens: Seq<int>,
    codes: Seq<int>,
    m: int,
    run: Run,
    p: int,
    len: int,
)
    requires
        codes_of(book, lens, codes),
        0 <= m < codes.len(),
        0 <= p,
        p + lens[m] <= run.bits(),
        entropy::number(run.bytes, p, p + lens[m]) == codes[m],
        1 <= len <= lens[m],
    ensures
        entropy::symbol_from(book, run, p, len) == (Symbol::Value {
            value: book.values[m],
            len: lens[m],
        }),
    decreases lens[m] - len,
{
    let l = lens[m];
    assert(nth_len(book, lens, m));
    code_found(book, lens, codes, m);
    below_read(book, l);
    let got = entropy::number(run.bytes, p, p + len);
    if len < l {
        first_apart(book, len, l);
        split(run.bytes, p, p + len, p + l);
        let k = pow2((l - len) as nat) as int;
        let rest = entropy::number(run.bytes, p + len, p + l);
        let bound = book.first(len) + book.counts[len - 1];
        assert(codes[m] >= bound * k);
        assert(got >= bound) by (nonlinear_arith)
            requires
                got * k + rest >= bound * k,
                0 <= rest < k,
        ;
        along_the_lengths(book, lens, codes, m, run, p, len + 1);
    }
}

proof fn split(s: Seq<u8>, p: int, q: int, r: int)
    requires
        0 <= p <= q <= r,
    ensures
        entropy::number(s, p, r) == entropy::number(s, p, q) * pow2((r - q) as nat)
            + entropy::number(s, q, r),
        0 <= entropy::number(s, q, r) < pow2((r - q) as nat),
    decreases r - q,
{
    if r == q {
        lemma2_to64();
    } else {
        split(s, p, q, r - 1);
        lemma_pow2_unfold((r - q) as nat);
        let k = pow2((r - 1 - q) as nat) as int;
        let x = entropy::number(s, p, q);
        assert(2 * (x * k) == x * (2 * k)) by (nonlinear_arith);
        assert(0 <= entropy::bit_at(s, r - 1) < 2);
    }
}

/// Wherever the bits of a value's code stand, that value is read, and its bits
/// are taken: the codes of a book are told apart whatever follows them.
pub proof fn a_code_reads_back(
    book: Book,
    lens: Seq<int>,
    codes: Seq<int>,
    m: int,
    run: Run,
    p: int,
)
    requires
        codes_of(book, lens, codes),
        0 <= m < codes.len(),
        0 <= p,
        p + lens[m] <= run.bits(),
        entropy::number(run.bytes, p, p + lens[m]) == codes[m],
    ensures
        entropy::symbol(book, run, p) == (Symbol::Value { value: book.values[m], len: lens[m] }),
{
    assert(nth_len(book, lens, m));
    along_the_lengths(book, lens, codes, m, run, p, 1);
}

// ---------------------------------------------------------------------------
// Coefficients
// ---------------------------------------------------------------------------

/// The coefficients of `size` magnitude bits are those that need as many: the
/// positive ones as they are, and the negative ones less one, so that every
/// pattern of bits is one coefficient.
pub proof fn magnitudes_are_signed(x: int, size: int)
    requires
        1 <= size <= 16,
        pow2((size - 1) as nat) <= x < pow2(size as nat),
    ensures
        entropy::extended(x, size) == x,
        entropy::extended(pow2(size as nat) - 1 - x, size) == -x,
        entropy::extended(0, 0) == 0,
{
    lemma_pow2_unfold(size as nat);
}

/// What coefficients may be, by the bits of a sample: at eight bits a DC
/// coefficient up to 1024 in 11 bits, and AC coefficients in 10; and for every
/// bit more, up to sixteen, twice that, in 15 and 14 bits.
pub proof fn limits_follow_the_precision(precision: int)
    ensures
        precision <= 8 ==> {
            let l = entropy::limits(precision);
            l.dc == 1024 && l.dc_category == 11 && l.ac_category == 10
        },
        8 < precision <= 16 ==> {
            let l = entropy::limits(precision);
            let k = entropy::limits(precision - 1);
            l.dc == 2 * k.dc && l.dc_category == 15 && l.ac_category == 14
        },
{
    lemma2_to64();
    if 8 < precision <= 16 {
        lemma_pow2_unfold((precision - 8) as nat);
    }
}

/// The AC part of a block as it was written: for each code how many zeros it
/// skips, how many magnitude bits follow it, and where it stands.
pub struct Written {
    pub zeros: int,
    pub size: int,
    pub at: int,
    pub len: int,
}

/// Whether the `j`-th code stands where it should and brings the next
/// coefficient from `k[j]` to `k[j + 1]`: a coefficient behind its zeros, or
/// sixteen zeros.
pub open spec fn nth_written(
    book: Book,
    run: Run,
    lim: Limits,
    w: Seq<Written>,
    k: Seq<int>,
    j: int,
) -> bool {
    let x = w[j];
    &&& 0 <= x.zeros <= 15
    &&& 0 <= x.size <= lim.ac_category
    &&& lim.ac_category <= 15
    &&& entropy::symbol(book, run, x.at) == (Symbol::Value {
        value: (16 * x.zeros + x.size) as u8,
        len: x.len,
    })
    &&& x.at + x.len + x.size <= run.bits()
    &&& w[j + 1].at == x.at + x.len + x.size
    &&& k[j] <= 63
    &&& if x.size == 0 {
        x.zeros == 15 && k[j + 1] == k[j] + 16 && k[j + 1] <= 64
    } else {
        k[j] + x.zeros <= 63 && k[j + 1] == k[j] + x.zeros + 1
    }
}

proof fn along_the_coefficients(
    book: Book,
    run: Run,
    lim: Limits,
    w: Seq<Written>,
    k: Seq<int>,
    j: int,
    fetched: int,
    preds: Seq<int>,
)
    requires
        w.len() > 0,
        k.len() == w.len(),
        forall|i: int| 0 <= i < w.len() - 1 ==> #[trigger] nth_written(book, run, lim, w, k, i),
        0 <= j < w.len(),
        // The block is full, or its end is coded.
        k.last() == 64 || (k.last() <= 63 && entropy::symbol(book, run, w.last().at) == (
        Symbol::Value { value: 0, len: w.last().len })),
    ensures
        entropy::ac_from(book, run, lim, w[j].at, fetched, preds, k[j]) matches Step::On {
            p,
            fetched: f,
            preds: q,
        } && p == (if k.last() == 64 {
            w.last().at
        } else {
            w.last().at + w.last().len
        }) && q == preds,
    decreases w.len() - j,
{
    if j < w.len() - 1 {
        assert(nth_written(book, run, lim, w, k, j));
        let x = w[j];
        let v = (16 * x.zeros + x.size) as u8;
        assert(v == 16 * x.zeros + x.size);
        assert(v as int / 16 == x.zeros && v as int % 16 == x.size);
        let f1 = entropy::fetch_code(run, x.at, fetched, x.len);
        if x.size == 0 {
            along_the_coefficients(book, run, lim, w, k, j + 1, f1, preds);
        } else {
            let f2 = run.fetch(x.at + x.len, f1, x.size);
            along_the_coefficients(book, run, lim, w, k, j + 1, f2, preds);
        }
    }
}

/// A block as it is written decodes: the size of its DC difference and the
/// difference, which is added to the prediction of its component and to no
/// other, then codes for zeros and coefficients up to the 64th or to the code
/// that ends the block. What follows it is next.
pub proof fn a_block_reads_back(
    lane: Lane,
    ci: int,
    run: Run,
    lim: Limits,
    p: int,
    fetched: int,
    preds: Seq<int>,
    size: int,
    len: int,
    w: Seq<Written>,
    k: Seq<int>,
)
    requires
        0 <= ci < preds.len(),
        entropy::symbol(lane.dc, run, p) == (Symbol::Value { value: size as u8, len }),
        0 <= size <= lim.dc_category,
        lim.dc_category <= 15,
        p + len + size <= run.bits(),
        ({
            let x = preds[ci] + entropy::extended(
                entropy::number(run.bytes, p + len, p + len + size),
                size,
            );
            -lim.dc <= x <= lim.dc
        }),
        w.len() > 0,
        k.len() == w.len(),
        w[0].at == p + len + size,
        k[0] == 1,
        forall|i: int| 0 <= i < w.len() - 1 ==> #[trigger] nth_written(lane.ac, run, lim, w, k, i),
        k.last() == 64 || (k.last() <= 63 && entropy::symbol(lane.ac, run, w.last().at) == (
        Symbol::Value { value: 0, len: w.last().len })),
    ensures
        entropy::block_at(lane, ci, run, lim, p, fetched, preds) matches Step::On {
            p: q,
            fetched: f,
            preds: now,
        } && {
            &&& q == (if k.last() == 64 {
                w.last().at
            } else {
                w.last().at + w.last().len
            })
            &&& now.len() == preds.len()
            &&& now[ci] == preds[ci] + entropy::extended(
                entropy::number(run.bytes, p + len, p + len + size),
                size,
            )
            &&& forall|i: int| 0 <= i < preds.len() && i != ci ==> now[i] == preds[i]
        },
{
    let s = size as u8;
    assert(s == size);
    let f1 = entropy::fetch_code(run, p, fetched, len);
    let pred = preds[ci] + entropy::extended(
        entropy::number(run.bytes, p + len, p + len + size),
        size,
    );
    along_the_coefficients(
        lane.ac,
        run,
        lim,
        w,
        k,
        0,
        run.fetch(p + len, f1, size),
        preds.update(ci, pred),
    );
}

// ---------------------------------------------------------------------------
// MCUs and intervals
// ---------------------------------------------------------------------------

proof fn most_sampled(c: Seq<entropy::Component>, n: int)
    requires
        0 <= n <= c.len(),
    ensures
        entropy::hmax(c, n) >= 1,
        entropy::vmax(c, n) >= 1,
        forall|i: int|
            0 <= i < n ==> entropy::hmax(c, n) >= (#[trigger] c[i]).h && entropy::vmax(c, n) >= c[i].v,
        entropy::hmax(c, n) == 1 || exists|i: int|
            0 <= i < n && entropy::hmax(c, n) == (#[trigger] c[i]).h,
        entropy::vmax(c, n) == 1 || exists|i: int|
            0 <= i < n && entropy::vmax(c, n) == (#[trigger] c[i]).v,
    decreases n,
{
    if n > 0 {
        most_sampled(c, n - 1);
        assert(c[n - 1] == c[n - 1]);
    }
}

proof fn rounded_up(a: int, b: int)
    requires
        0 <= a,
        b > 0,
    ensures
        b * (entropy::ceil_div(a, b) - 1) < a <= b * entropy::ceil_div(a, b),
{
    let q = entropy::ceil_div(a, b);
    vstd::arithmetic::div_mod::lemma_fundamental_div_mod(a + b - 1, b);
    vstd::arithmetic::div_mod::lemma_mod_bound(a + b - 1, b);
    assert(b * (q - 1) == b * q - b) by (nonlinear_arith);
}

/// A scan of several components has as many MCUs as it takes to cover the
/// frame, an MCU being eight samples, as often as the component that is sampled
/// most, wide and high.
pub proof fn mcus_cover_the_frame(frame: entropy::Frame, lanes: Seq<Lane>, h: int, v: int)
    requires
        lanes.len() != 1,
        frame.components@.len() > 0,
        forall|i: int|
            0 <= i < frame.components@.len() ==> 1 <= (#[trigger] frame.components@[i]).h <= h && 1
                <= frame.components@[i].v <= v,
        exists|i: int|
            0 <= i < frame.components@.len() && (#[trigger] frame.components@[i]).h == h,
        exists|i: int|
            0 <= i < frame.components@.len() && (#[trigger] frame.components@[i]).v == v,
    ensures
        exists|across: int, down: int|
            {
                &&& entropy::mcus_of(frame, lanes) == #[trigger] (across * down)
                &&& 8 * h * (across - 1) < frame.width <= 8 * h * across
                &&& 8 * v * (down - 1) < frame.height <= 8 * v * down
            },
{
    let c = frame.components@;
    let n = c.len() as int;
    most_sampled(c, n);
    let i = choose|i: int| 0 <= i < n && (#[trigger] c[i]).h == h;
    let j = choose|j: int| 0 <= j < n && (#[trigger] c[j]).v == v;
    assert(entropy::hmax(c, n) >= c[i].h && entropy::vmax(c, n) >= c[j].v);
    assert(entropy::hmax(c, n) == h);
    assert(entropy::vmax(c, n) == v);
    let across = entropy::ceil_div(frame.width as int, 8 * h);
    let down = entropy::ceil_div(frame.height as int, 8 * v);
    rounded_up(frame.width as int, 8 * h);
    rounded_up(frame.height as int, 8 * v);
    assert(entropy::mcus_of(frame, lanes) == across * down);
}

/// A scan whose MCUs are all decoded is complete exactly where its data ends
/// there, at a marker, with fewer than eight bits left over and all of them
/// ones; anything more in it is told as broken.
pub proof fn a_scan_ends_with_its_padding(d: Seq<u8>, total: int, st: Progress)
    requires
        0 <= st.p,
        0 <= st.fetched <= entropy::run_from(d, st.start).bytes.len(),
    ensures
        ({
            let run = entropy::run_from(d, st.start);
            let all = 8 * run.bytes.len();
            let ends = st.fetched == run.bytes.len() && all - st.p < 8 && entropy::number(
                run.bytes,
                st.p,
                all as int,
            ) == pow2((all - st.p) as nat) - 1;
            let r = entropy::scan_end(d, total, st);
            &&& ends && run.stop is Some ==> r == (Decoded::Complete {
                end: run.stop->0,
                mcus: st.mcus,
                restarts: st.restarts,
            })
            &&& ends && run.stop is None ==> r is Truncated
            &&& !ends ==> r is Broken
        }),
{
}

/// Where a restart marker is due, the one that comes next in turn is passed:
/// the data goes on behind it, every prediction begins again at zero, and the
/// interval anew. Any other marker is told as broken.
pub proof fn a_restart_begins_anew(d: Seq<u8>, interval: int, st: Progress, m: int)
    requires
        0 <= st.p,
        0 <= st.restarts,
        ({
            let run = entropy::run_from(d, st.start);
            let all = 8 * run.bytes.len();
            &&& st.fetched == run.bytes.len()
            &&& all - st.p < 8
            &&& entropy::number(run.bytes, st.p, all as int) == pow2((all - st.p) as nat) - 1
            &&& run.stop == Some(m)
        }),
    ensures
        ({
            let r = entropy::restarted(d, interval, st);
            if d[m + 1] == 208 + st.restarts % 8 {
                r matches Ok(next) && {
                    &&& next.start == m + 2
                    &&& next.p == 0
                    &&& next.fetched == 0
                    &&& next.since == 0
                    &&& next.restarts == st.restarts + 1
                    &&& next.mcus == st.mcus
                    &&& next.verified == m + 2
                    &&& next.preds.len() == st.preds.len()
                    &&& forall|i: int| 0 <= i < next.preds.len() ==> next.preds[i] == 0
                }
            } else {
                r matches Err(e) && e is Broken
            }
        }),
{
}

} // verus!
