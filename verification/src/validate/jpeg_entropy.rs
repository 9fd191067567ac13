//! Huffman decoding of a sequential JPEG scan, until it fails.
//!
//! A marker walk catches data that was reordered or lost. It cannot catch data
//! that was inserted, which is what a fragmented file looks like: the next
//! restart marker carries exactly the phase the sequence expects. Decoding
//! can: a code that is not in the table is not this file's data, a zero run
//! past the 64th coefficient is not a block, and a restart marker or an end of
//! scan after the wrong number of MCUs means bytes were added or removed.
//!
//! Coefficients are decoded and range-checked, then dropped. Sequential
//! Huffman frames only; every other mode is [`ScanResult::NotApplicable`].

use vstd::prelude::*;
use vstd::arithmetic::div_mod::*;
use vstd::arithmetic::mul::*;
use vstd::arithmetic::power2::*;
use vstd::bits::*;
use vstd::slice::*;
use crate::bytes;
use crate::text;

verus! {

// ---------------------------------------------------------------------------
// Entropy-coded bytes
// ---------------------------------------------------------------------------

/// A run of entropy-coded data with its stuffing removed.
#[verifier::ext_equal]
pub struct Run {
    /// The bytes the run codes.
    pub bytes: Seq<u8>,
    /// For each of them, the offset just past where it stands in the stream.
    pub ends: Seq<int>,
    /// The offset of the marker that ends the run, or `None` where the data
    /// ends first.
    pub stop: Option<int>,
}

/// The run that begins at `at`: `FF 00` stands for a literal `FF`, an `FF`
/// before another `FF` is fill, and `FF` before anything else is a marker.
pub open spec fn run_from(d: Seq<u8>, at: int) -> Run
    decreases d.len() - at,
{
    if at < 0 || at >= d.len() {
        Run { bytes: Seq::empty(), ends: Seq::empty(), stop: None }
    } else if d[at] != 0xFF {
        let rest = run_from(d, at + 1);
        Run { bytes: seq![d[at]] + rest.bytes, ends: seq![at + 1] + rest.ends, stop: rest.stop }
    } else if at + 1 >= d.len() {
        Run { bytes: Seq::empty(), ends: Seq::empty(), stop: None }
    } else if d[at + 1] == 0 {
        let rest = run_from(d, at + 2);
        Run { bytes: seq![0xFFu8] + rest.bytes, ends: seq![at + 2] + rest.ends, stop: rest.stop }
    } else if d[at + 1] == 0xFF {
        run_from(d, at + 1)
    } else {
        Run { bytes: Seq::empty(), ends: Seq::empty(), stop: Some(at) }
    }
}

impl Run {
    /// The run without its first `n` bytes.
    pub open spec fn skip(self, n: int) -> Run {
        Run { bytes: self.bytes.skip(n), ends: self.ends.skip(n), stop: self.stop }
    }

    /// Bits in the run.
    pub open spec fn bits(self) -> int {
        8 * (self.bytes.len() as int)
    }

    /// How many bytes have been fetched once `want` bits past position `p`
    /// were asked for, `fetched` being held already.
    pub open spec fn fetch(self, p: int, fetched: int, want: int) -> int {
        let need = (p + want + 7) / 8;
        if need <= fetched {
            fetched
        } else if need <= self.bytes.len() {
            need
        } else {
            self.bytes.len() as int
        }
    }

    /// The offset just past the first `n` bytes, for a run that starts at
    /// `start`.
    pub open spec fn end_of(self, start: int, n: int) -> int {
        if n <= 0 {
            start
        } else {
            self.ends[n - 1]
        }
    }
}

/// Where the bytes of a run end, and where it stops, lie inside the data.
pub proof fn run_stays_inside(d: Seq<u8>, at: int)
    requires
        0 <= at,
    ensures
        run_from(d, at).bytes.len() == run_from(d, at).ends.len(),
        forall|i: int|
            0 <= i < run_from(d, at).ends.len() ==> at < #[trigger] run_from(d, at).ends[i]
                <= d.len(),
        run_from(d, at).stop matches Some(m) ==> at <= m && m + 1 < d.len() && d[m] == 0xFF
            && d[m + 1] != 0 && d[m + 1] != 0xFF,
    decreases d.len() - at,
{
    if at < d.len() {
        if d[at] != 0xFF {
            run_stays_inside(d, at + 1);
        } else if at + 1 < d.len() && d[at + 1] == 0 {
            run_stays_inside(d, at + 2);
        } else if at + 1 < d.len() && d[at + 1] == 0xFF {
            run_stays_inside(d, at + 1);
        }
    }
}

/// The bit at position `p` of `s`, the top bit of each byte first.
pub open spec fn bit_at(s: Seq<u8>, p: int) -> int {
    (s[p / 8] as int / pow2((7 - p % 8) as nat) as int) % 2
}

/// The bits from `p` up to `q`, as a number.
pub open spec fn number(s: Seq<u8>, p: int, q: int) -> int
    decreases q - p,
{
    if q <= p {
        0
    } else {
        2 * number(s, p, q - 1) + bit_at(s, q - 1)
    }
}

proof fn number_splits(s: Seq<u8>, p: int, q: int, r: int)
    requires
        0 <= p <= q <= r,
    ensures
        number(s, p, r) == number(s, p, q) * pow2((r - q) as nat) + number(s, q, r),
        0 <= number(s, q, r) < pow2((r - q) as nat),
    decreases r - q,
{
    if r == q {
        lemma2_to64();
    } else {
        number_splits(s, p, q, r - 1);
        lemma_pow2_unfold((r - q) as nat);
        let k = pow2((r - 1 - q) as nat) as int;
        assert(2 * (number(s, p, q) * k) == number(s, p, q) * (2 * k)) by (nonlinear_arith);
        assert(0 <= bit_at(s, r - 1) < 2);
    }
}

proof fn top_bits_of_a_byte(s: Seq<u8>, n: int, k: int)
    requires
        0 <= n < s.len(),
        0 <= k <= 8,
    ensures
        number(s, 8 * n, 8 * n + k) == s[n] as int / pow2((8 - k) as nat) as int,
    decreases k,
{
    lemma2_to64();
    if k > 0 {
        top_bits_of_a_byte(s, n, k - 1);
        let b = s[n] as int;
        let m = pow2((8 - k) as nat) as int;
        lemma_pow2_pos((8 - k) as nat);
        lemma_pow2_unfold((9 - k) as nat);
        lemma_div_denominator(b, m, 2);
        assert((8 * n + k - 1) / 8 == n);
        assert((8 * n + k - 1) % 8 == k - 1);
        assert(bit_at(s, 8 * n + k - 1) == (b / m) % 2);
        assert(pow2((9 - k) as nat) == m * 2);
        assert((8 - (k - 1)) as nat == (9 - k) as nat);
        assert(number(s, 8 * n, 8 * n + k - 1) == (b / m) / 2);
        assert(number(s, 8 * n, 8 * n + k) == 2 * number(s, 8 * n, 8 * n + k - 1) + bit_at(
            s,
            8 * n + k - 1,
        ));
    } else {
        assert(s[n] as int / 256 == 0);
    }
}

proof fn eight_bits_are_a_byte(s: Seq<u8>, n: int)
    requires
        0 <= n < s.len(),
    ensures
        number(s, 8 * n, 8 * n + 8) == s[n],
{
    top_bits_of_a_byte(s, n, 8);
    lemma2_to64();
}

// ---------------------------------------------------------------------------
// Huffman tables
// ---------------------------------------------------------------------------

/// A canonical Huffman code book: how many codes there are of each length,
/// and what each code stands for, in code order.
#[verifier::ext_equal]
pub struct Book {
    pub counts: Seq<u8>,
    pub values: Seq<u8>,
}

impl Book {
    /// The smallest code of length `len`.
    pub open spec fn first(self, len: int) -> int
        decreases len,
    {
        if len <= 1 {
            0
        } else {
            2 * (self.first(len - 1) + self.counts[len - 2])
        }
    }

    /// How many codes are shorter than `len`.
    pub open spec fn shorter(self, len: int) -> int
        decreases len,
    {
        if len <= 1 {
            0
        } else {
            self.shorter(len - 1) + self.counts[len - 2]
        }
    }

    /// Whether `code` is a code of length `len`.
    pub open spec fn has(self, len: int, code: int) -> bool {
        self.first(len) <= code < self.first(len) + self.counts[len - 1]
    }

    /// What `code` of length `len` stands for.
    pub open spec fn value(self, len: int, code: int) -> u8 {
        self.values[self.shorter(len) + code - self.first(len)]
    }

    /// Whether the codes fit their lengths.
    pub open spec fn fits(self) -> bool {
        forall|len: int|
            1 <= len <= 16 ==> #[trigger] self.first(len) + self.counts[len - 1] <= pow2(len as nat)
    }

    /// Whether the book decodes: sixteen counts, between one and 256 values,
    /// one for each code, and codes that fit their lengths.
    pub open spec fn decodes(self) -> bool {
        &&& self.counts.len() == 16
        &&& 0 < self.values.len() <= 256
        &&& self.shorter(17) == self.values.len()
        &&& self.fits()
    }
}

/// What reading one code gave.
pub enum Symbol {
    /// `value`, from a code of `len` bits.
    Value { value: u8, len: int },
    /// Sixteen bits that no code begins.
    Unknown,
    /// The run ended first.
    Short,
}

/// The code at bit position `p`, no shorter than `len` bits.
pub open spec fn symbol_from(book: Book, run: Run, p: int, len: int) -> Symbol
    decreases 17 - len,
{
    if p + len > run.bits() {
        Symbol::Short
    } else if book.has(len, number(run.bytes, p, p + len)) {
        Symbol::Value { value: book.value(len, number(run.bytes, p, p + len)), len }
    } else if len >= 16 {
        Symbol::Unknown
    } else {
        symbol_from(book, run, p, len + 1)
    }
}

/// The code at bit position `p`.
pub open spec fn symbol(book: Book, run: Run, p: int) -> Symbol {
    symbol_from(book, run, p, 1)
}

proof fn shorter_grows(book: Book, a: int, b: int)
    requires
        book.counts.len() == 16,
        1 <= a <= b <= 17,
    ensures
        0 <= book.shorter(a) <= book.shorter(b),
    decreases b,
{
    if a < b {
        shorter_grows(book, a, b - 1);
    } else if a > 1 {
        shorter_grows(book, a - 1, b - 1);
    }
}

/// A canonical Huffman table.
pub struct Huffman {
    first: [u32; 17],
    past: [u32; 17],
    valptr: [usize; 17],
    values: Vec<u8>,
    /// The next eight bits, straight to the length of the code they begin
    /// with, or zero where that code is longer than eight bits.
    short_len: [u8; 256],
    /// And what it stands for.
    short_value: [u8; 256],
    counts: [u8; 16],
}

impl View for Huffman {
    type V = Book;

    closed spec fn view(&self) -> Book {
        Book { counts: self.counts@, values: self.values@ }
    }
}

impl Huffman {
    /// The tables agree with the code book.
    #[verifier::type_invariant]
    closed spec fn wf(self) -> bool {
        &&& self@.decodes()
        &&& tabled(self@, self.first@, self.past@, self.valptr@, 17)
        &&& forall|v: int|
            0 <= v < 256 ==> 0 <= #[trigger] self.short_len@[v] <= 8 && short_entry(
                self@,
                v,
                self.short_len@[v],
                self.short_value@[v],
            )
    }
}

/// Whether eight bits of value `v` begin no code shorter than `len` bits.
pub open spec fn none_below(book: Book, v: int, len: int) -> bool {
    forall|k: int| 1 <= k < len ==> !book.has(k, #[trigger] (v / (pow2((8 - k) as nat) as int)))
}

/// What the lookup holds for the eight bits `v`.
pub open spec fn short_entry(book: Book, v: int, len: u8, value: u8) -> bool {
    if len == 0 {
        none_below(book, v, 9)
    } else {
        let code = v / (pow2((8 - len) as nat) as int);
        none_below(book, v, len as int) && book.has(len as int, code) && book.value(
            len as int,
            code,
        ) == value
    }
}

/// Whether the three tables hold what `book` gives for every length below
/// `upto`.
spec fn tabled(book: Book, first: Seq<u32>, past: Seq<u32>, valptr: Seq<usize>, upto: int) -> bool {
    &&& forall|l: int| 1 <= l < upto ==> (#[trigger] first[l]) == book.first(l)
    &&& forall|l: int| 1 <= l < upto ==> (#[trigger] past[l]) == book.first(l) + book.counts[l - 1]
    &&& forall|l: int| 1 <= l < upto ==> (#[trigger] valptr[l]) == book.shorter(l)
}

impl Clone for Huffman {
    fn clone(&self) -> (r: Huffman)
        ensures
            r@ == self@,
    {
        proof {
            use_type_invariant(self);
        }
        let values = slice_to_vec(self.values.as_slice());
        Huffman {
            first: self.first,
            past: self.past,
            valptr: self.valptr,
            values,
            short_len: self.short_len,
            short_value: self.short_value,
            counts: self.counts,
        }
    }
}

impl Huffman {
    /// Build from the sixteen code-length counts and the values of a table
    /// definition.
    ///
    /// Refuses a table whose codes cannot fit their lengths: such a table is
    /// undecodable, so a file carrying one is not being read correctly.
    pub fn new(counts: &[u8; 16], values: &[u8]) -> (r: Option<Huffman>)
        ensures
            r is Some <==> (Book { counts: counts@, values: values@ }).decodes(),
            r matches Some(h) ==> h@ == (Book { counts: counts@, values: values@ }),
    {
        let ghost book = Book { counts: counts@, values: values@ };
        if values.len() == 0 || values.len() > 256 {
            return None;
        }
        let mut first: [u32; 17] = [0u32; 17];
        let mut past: [u32; 17] = [0u32; 17];
        let mut valptr: [usize; 17] = [0usize; 17];
        let mut code: u32 = 0;
        let mut k: usize = 0;
        let mut len: usize = 1;
        proof {
            lemma2_to64();
        }
        while len <= 16
            invariant
                1 <= len <= 17,
                book == (Book { counts: counts@, values: values@ }),
                code == book.first(len as int),
                code <= pow2(len as nat),
                k == book.shorter(len as int),
                k <= 255 * (len - 1),
                tabled(book, first@, past@, valptr@, len as int),
                forall|l: int|
                    1 <= l < len ==> #[trigger] book.first(l) + book.counts[l - 1] <= pow2(l as nat),
            decreases 17 - len,
        {
            let n: u32 = counts[len - 1] as u32;
            valptr[len] = k;
            first[len] = code;
            proof {
                lemma_u32_pow2_no_overflow(17);
                lemma_pow2_unfold((len + 1) as nat);
                if len < 17 {
                    lemma_pow2_strictly_increases(len as nat, 17);
                }
                lemma2_to64();
            }
            if code + n > bytes::two_to(len as u32) {
                assert(book.first(len as int) + book.counts[len - 1] > pow2(len as nat));
                return None;
            }
            past[len] = code + n;
            code = 2 * (code + n);
            k = k + n as usize;
            len += 1;
        }
        if k != values.len() {
            return None;
        }
        assert(book.decodes());
        let mut short_len: [u8; 256] = [0u8; 256];
        let mut short_value: [u8; 256] = [0u8; 256];
        let mut v: usize = 0;
        while v < 256
            invariant
                v <= 256,
                book == (Book { counts: counts@, values: values@ }),
                book.decodes(),
                tabled(book, first@, past@, valptr@, 17),
                forall|i: int|
                    0 <= i < v ==> 0 <= #[trigger] short_len@[i] <= 8 && short_entry(
                        book,
                        i,
                        short_len@[i],
                        short_value@[i],
                    ),
                forall|i: int| v <= i < 256 ==> #[trigger] short_len@[i] == 0,
            decreases 256 - v,
        {
            let mut len: usize = 1;
            while len <= 8
                invariant_except_break
                    none_below(book, v as int, len as int),
                    short_len@[v as int] == 0,
                invariant
                    1 <= len <= 9,
                    v < 256,
                    book == (Book { counts: counts@, values: values@ }),
                    book.decodes(),
                    tabled(book, first@, past@, valptr@, 17),
                    forall|i: int|
                        0 <= i < v ==> 0 <= #[trigger] short_len@[i] <= 8 && short_entry(
                            book,
                            i,
                            short_len@[i],
                            short_value@[i],
                        ),
                    forall|i: int| v < i < 256 ==> #[trigger] short_len@[i] == 0,
                ensures
                    0 <= short_len@[v as int] <= 8,
                    short_entry(book, v as int, short_len@[v as int], short_value@[v as int]),
                decreases 9 - len,
            {
                let code: u32 = v as u32 / bytes::two_to((8 - len) as u32);
                assert(first@[len as int] == book.first(len as int));
                if first[len] <= code && code < past[len] {
                    proof {
                        shorter_grows(book, len + 1, 17);
                        shorter_grows(book, 1, len as int);
                    }
                    short_len[v] = len as u8;
                    short_value[v] = values[valptr[len] + (code - first[len]) as usize];
                    break;
                }
                len += 1;
            }
            v += 1;
        }
        Some(
            Huffman {
                first,
                past,
                valptr,
                values: slice_to_vec(values),
                short_len,
                short_value,
                counts: *counts,
            },
        )
    }
}

// ---------------------------------------------------------------------------
// The bit reader
// ---------------------------------------------------------------------------

/// What lies at the reader's position once it is byte-aligned.
#[derive(Debug, PartialEq, Eq)]
enum Next {
    /// A marker: entropy data has ended.
    Marker(u8),
    /// More entropy data.
    Data,
    /// The buffer ended.
    End,
}

/// What reading one code gave.
enum Code {
    Value(u8),
    /// Sixteen bits that no code begins.
    Unknown,
    /// A marker or the end of the buffer came first.
    Short,
}

/// Bits out of entropy-coded data, with `FF 00` unstuffed.
///
/// `bits` holds the `count` bits that have been fetched and not yet taken.
/// Fetching stops at a marker without consuming it.
struct BitReader<'d> {
    d: &'d [u8],
    /// Next byte to read.
    at: usize,
    bits: u32,
    count: u32,
    /// Where the marker that ended the data begins, once one is reached.
    marker_at: Option<usize>,
    /// One past the last byte consumed as entropy data.
    consumed_to: usize,
    /// Where the run being read began.
    start: Ghost<int>,
    /// How many of its bytes have been fetched.
    fetched: Ghost<int>,
}

impl<'d> BitReader<'d> {
    spec fn run(self) -> Run {
        run_from(self.d@, self.start@)
    }

    /// The bit position in the run.
    spec fn p(self) -> int {
        8 * self.fetched@ - self.count
    }

    spec fn wf(self) -> bool {
        &&& 0 <= self.start@
        &&& 0 <= self.fetched@ <= self.run().bytes.len()
        &&& self.run().ends.len() == self.run().bytes.len()
        &&& run_from(self.d@, self.at as int) == self.run().skip(self.fetched@)
        &&& self.count <= 31
        &&& 0 <= self.p()
        &&& self.bits == number(self.run().bytes, self.p(), 8 * self.fetched@)
        &&& self.consumed_to == self.run().end_of(self.start@, self.fetched@)
        &&& self.marker_at matches Some(m) ==> self.fetched@ == self.run().bytes.len()
            && self.run().stop == Some(m as int)
    }

    /// Reading further in the same run as `o`.
    spec fn same_run(self, o: Self) -> bool {
        self.d@ == o.d@ && self.start@ == o.start@
    }

    /// The reader has found out what ends the run.
    spec fn knows_stop(self) -> bool {
        match self.run().stop {
            Some(m) => self.marker_at == Some(m as usize) && m == m as usize,
            None => self.marker_at is None,
        }
    }

    fn new(d: &'d [u8], at: usize) -> (r: BitReader<'d>)
        ensures
            r.wf(),
            r.d@ == d@,
            r.start@ == at,
            r.fetched@ == 0,
            r.p() == 0,
    {
        proof {
            run_stays_inside(d@, at as int);
            assert(run_from(d@, at as int).skip(0) =~= run_from(d@, at as int));
        }
        BitReader {
            d,
            at,
            bits: 0,
            count: 0,
            marker_at: None,
            consumed_to: at,
            start: Ghost(at as int),
            fetched: Ghost(0),
        }
    }

    /// Fetch bytes of entropy data until at least `want` bits are held, or a
    /// marker or the end of the buffer stops it.
    fn fill(&mut self, want: u32) -> (r: bool)
        requires
            old(self).wf(),
            want <= 24,
        ensures
            final(self).wf(),
            final(self).same_run(*old(self)),
            final(self).p() == old(self).p(),
            final(self).fetched@ == old(self).run().fetch(
                old(self).p(),
                old(self).fetched@,
                want as int,
            ),
            r == (old(self).p() + want <= old(self).run().bits()),
            r ==> final(self).count >= want,
            !r ==> final(self).knows_stop(),
    {
        let ghost p0 = self.p();
        let ghost f0 = self.fetched@;
        let ghost run = self.run();
        while self.count < want
            invariant
                self.wf(),
                self.same_run(*old(self)),
                run == self.run(),
                p0 == self.p(),
                p0 == old(self).p(),
                f0 == old(self).fetched@,
                run == old(self).run(),
                f0 <= self.fetched@,
                f0 < self.fetched@ ==> 8 * (self.fetched@ - 1) < p0 + want,
                want <= 24,
            decreases self.d@.len() - self.at,
        {
            if self.marker_at.is_some() {
                return false;
            }
            if self.at >= self.d.len() {
                assert(run.skip(self.fetched@).bytes.len() == 0);
                return false;
            }
            let ghost here = run_from(self.d@, self.at as int);
            let b: u8 = self.d[self.at];
            let byte: u8 = if b != 0xFF {
                self.at = self.at + 1;
                b
            } else if self.at + 1 >= self.d.len() {
                assert(run.skip(self.fetched@).bytes.len() == 0);
                return false;
            } else if self.d[self.at + 1] == 0x00 {
                self.at = self.at + 2;
                0xFFu8
            } else if self.d[self.at + 1] == 0xFF {
                self.at = self.at + 1;
                continue;
            } else {
                assert(run.skip(self.fetched@).bytes.len() == 0);
                self.marker_at = Some(self.at);
                return false;
            };
            proof {
                let f = self.fetched@;
                let rest = run_from(self.d@, self.at as int);
                assert(here.bytes == seq![byte] + rest.bytes);
                assert(here.bytes[0] == byte && here.ends[0] == self.at as int);
                assert(run.bytes[f] == run.skip(f).bytes[0]);
                assert(run.ends[f] == run.skip(f).ends[0]);
                assert(run.skip(f + 1).bytes =~= here.bytes.skip(1));
                assert(run.skip(f + 1).ends =~= here.ends.skip(1));
                assert(here.bytes.skip(1) =~= rest.bytes);
                assert(here.ends.skip(1) =~= rest.ends);
                eight_bits_are_a_byte(run.bytes, f);
                number_splits(run.bytes, p0, 8 * f, 8 * f + 8);
                number_splits(run.bytes, p0, p0, 8 * f);
                lemma_pow2_strictly_increases(self.count as nat, 24);
                lemma2_to64();
                self.fetched@ = f + 1;
            }
            self.consumed_to = self.at;
            self.bits = self.bits * 256 + byte as u32;
            self.count = self.count + 8;
        }
        true
    }

    /// Take the next `n` bits out of those held.
    fn take(&mut self, n: u32) -> (r: u32)
        requires
            old(self).wf(),
            n <= old(self).count,
        ensures
            final(self).wf(),
            final(self).same_run(*old(self)),
            final(self).fetched@ == old(self).fetched@,
            final(self).marker_at == old(self).marker_at,
            final(self).p() == old(self).p() + n,
            r == number(old(self).run().bytes, old(self).p(), old(self).p() + n),
    {
        let left: u32 = self.count - n;
        let unit: u32 = bytes::two_to(left);
        let r: u32 = self.bits / unit;
        proof {
            let p = self.p();
            let end = 8 * self.fetched@;
            number_splits(self.run().bytes, p, p + n, end);
            lemma_fundamental_div_mod_converse(
                self.bits as int,
                unit as int,
                number(self.run().bytes, p, p + n),
                number(self.run().bytes, p + n, end),
            );
        }
        self.bits = self.bits % unit;
        self.count = left;
        r
    }

    /// The next `n` bits as a number, or `None` at a marker or the end of the
    /// buffer.
    fn receive(&mut self, n: u8) -> (r: Option<u32>)
        requires
            old(self).wf(),
            n <= 16,
        ensures
            final(self).wf(),
            final(self).same_run(*old(self)),
            match r {
                Some(v) => {
                    &&& old(self).p() + n <= old(self).run().bits()
                    &&& v == number(old(self).run().bytes, old(self).p(), old(self).p() + n)
                    &&& v < pow2(n as nat)
                    &&& final(self).p() == old(self).p() + n
                    &&& final(self).fetched@ == old(self).run().fetch(
                        old(self).p(),
                        old(self).fetched@,
                        n as int,
                    )
                },
                None => old(self).p() + n > old(self).run().bits() && final(self).knows_stop(),
            },
    {
        if self.fill(n as u32) {
            proof {
                number_splits(self.run().bytes, self.p(), self.p(), self.p() + n);
            }
            Some(self.take(n as u32))
        } else {
            None
        }
    }
}

/// What is left of the run after the code at `p`: where its reader stands and
/// how much it has fetched. A reader looks eight bits ahead for every code.
pub open spec fn fetch_code(run: Run, p: int, fetched: int, len: int) -> int {
    run.fetch(p, run.fetch(p, fetched, 8), len)
}

proof fn short_codes_skipped(book: Book, run: Run, p: int, len: int)
    requires
        0 <= p,
        p + 8 <= run.bits(),
        1 <= len <= 9,
        none_below(book, number(run.bytes, p, p + 8), len),
    ensures
        symbol(book, run, p) == symbol_from(book, run, p, len),
    decreases len,
{
    if len > 1 {
        short_codes_skipped(book, run, p, len - 1);
        let k = len - 1;
        first_bits_of_eight(run.bytes, p, k);
        assert(!book.has(k, number(run.bytes, p, p + 8) / (pow2((8 - k) as nat) as int)));
    }
}

proof fn first_bits_of_eight(s: Seq<u8>, p: int, k: int)
    requires
        0 <= p,
        0 <= k <= 8,
    ensures
        number(s, p, p + k) == number(s, p, p + 8) / (pow2((8 - k) as nat) as int),
        0 <= number(s, p, p + 8) < 256,
{
    number_splits(s, p, p + k, p + 8);
    number_splits(s, p, p, p + 8);
    lemma2_to64();
    lemma_fundamental_div_mod_converse(
        number(s, p, p + 8),
        pow2((8 - k) as nat) as int,
        number(s, p, p + k),
        number(s, p + k, p + 8),
    );
}

impl<'d> BitReader<'d> {
    /// Read one code.
    fn decode(&mut self, t: &Huffman) -> (r: Code)
        requires
            old(self).wf(),
        ensures
            final(self).wf(),
            final(self).same_run(*old(self)),
            match symbol(t@, old(self).run(), old(self).p()) {
                Symbol::Value { value, len } => {
                    &&& r == Code::Value(value)
                    &&& final(self).p() == old(self).p() + len
                    &&& final(self).fetched@ == fetch_code(
                        old(self).run(),
                        old(self).p(),
                        old(self).fetched@,
                        len,
                    )
                },
                Symbol::Unknown => r == Code::Unknown,
                Symbol::Short => r == Code::Short && final(self).knows_stop(),
            },
    {
        proof {
            use_type_invariant(t);
        }
        let ghost run = self.run();
        let ghost p0 = self.p();
        let ghost f0 = self.fetched@;
        let ghost book = t@;
        // The common case: the code is eight bits or shorter and the run
        // holds them.
        if self.fill(8) {
            let unit: u32 = bytes::two_to(self.count - 8);
            let peek: usize = (self.bits / unit) as usize;
            proof {
                number_splits(run.bytes, p0, p0 + 8, 8 * self.fetched@);
                lemma_fundamental_div_mod_converse(
                    self.bits as int,
                    unit as int,
                    number(run.bytes, p0, p0 + 8),
                    number(run.bytes, p0 + 8, 8 * self.fetched@),
                );
                first_bits_of_eight(run.bytes, p0, 8);
                assert(peek == number(run.bytes, p0, p0 + 8));
            }
            let len: u8 = t.short_len[peek];
            if len > 0 {
                let value: u8 = t.short_value[peek];
                proof {
                    short_codes_skipped(book, run, p0, len as int);
                    first_bits_of_eight(run.bytes, p0, len as int);
                }
                let _ = self.take(len as u32);
                return Code::Value(value);
            }
        }
        let ghost f8 = self.fetched@;
        let mut code: u32 = 0;
        let mut len: usize = 1;
        proof {
            lemma2_to64();
        }
        while len <= 16
            invariant
                self.wf(),
                self.same_run(*old(self)),
                run == self.run(),
                run == old(self).run(),
                p0 == old(self).p(),
                f0 == old(self).fetched@,
                f8 == run.fetch(p0, f0, 8),
                book == t@,
                t.wf(),
                1 <= len <= 17,
                0 <= p0 <= 8 * f0,
                0 <= f0 <= run.bytes.len(),
                self.p() == p0 + len - 1,
                self.fetched@ == run.fetch(p0, f8, len - 1),
                code == number(run.bytes, p0, p0 + len - 1),
                code < pow2((len - 1) as nat),
                len <= 16 ==> symbol(book, run, p0) == symbol_from(book, run, p0, len as int),
                len == 17 ==> symbol(book, run, p0) == Symbol::Unknown,
            decreases 17 - len,
        {
            if !self.fill(1) {
                return Code::Short;
            }
            let bit: u32 = self.take(1);
            proof {
                number_splits(run.bytes, p0, p0 + len - 1, p0 + len);
                number_splits(run.bytes, p0, p0, p0 + len);
                lemma_pow2_unfold(len as nat);
                if len < 17 {
                    lemma_pow2_strictly_increases(len as nat, 17);
                }
                lemma2_to64();
            }
            code = 2 * code + bit;
            assert(t.first@[len as int] == book.first(len as int));
            assert(t.past@[len as int] == book.first(len as int) + book.counts[len - 1]);
            assert(t.valptr@[len as int] == book.shorter(len as int));
            if t.first[len] <= code && code < t.past[len] {
                proof {
                    shorter_grows(book, len + 1, 17);
                    shorter_grows(book, 1, len as int);
                }
                let idx: usize = t.valptr[len] + (code - t.first[len]) as usize;
                return Code::Value(t.values[idx]);
            }
            len += 1;
        }
        Code::Unknown
    }

    /// Whether the bits left unread are the 1s that pad a scan to the byte.
    fn padding_is_ones(&self) -> (r: bool)
        requires
            self.wf(),
        ensures
            r == padded(self.run(), self.p(), self.fetched@),
    {
        if self.count >= 8 {
            return false;
        }
        self.bits == bytes::two_to(self.count) - 1
    }

    /// A whole byte still unread where a scan or interval should have ended.
    fn holds_a_whole_byte(&self) -> (r: bool)
        requires
            self.wf(),
        ensures
            r == (8 * self.fetched@ - self.p() >= 8),
    {
        self.count >= 8
    }

    /// What follows the bytes fetched so far.
    fn align(&mut self) -> (r: Next)
        requires
            old(self).wf(),
        ensures
            final(self).d@ == old(self).d@,
            final(self).start@ == old(self).start@,
            final(self).fetched@ == old(self).fetched@,
            final(self).consumed_to == old(self).consumed_to,
            if old(self).fetched@ < old(self).run().bytes.len() {
                r == Next::Data
            } else {
                match old(self).run().stop {
                    Some(m) => {
                        &&& m + 1 < old(self).d@.len()
                        &&& r == Next::Marker(old(self).d@[m + 1])
                        &&& final(self).marker_at == Some(m as usize)
                        &&& m as usize == m
                    },
                    None => r == Next::End,
                }
            },
    {
        let n: usize = self.d.len();
        proof {
            run_stays_inside(self.d@, self.start@);
        }
        if let Some(m) = self.marker_at {
            return Next::Marker(self.d[m + 1]);
        }
        let ghost run = self.run();
        let ghost f = self.fetched@;
        let mut i: usize = self.at;
        while i < n
            invariant
                n == self.d@.len(),
                run == self.run(),
                f == self.fetched@,
                *self == *old(self),
                run_from(self.d@, i as int) == run.skip(f),
                0 <= f <= run.bytes.len(),
            decreases n - i,
        {
            if self.d[i] != 0xFF {
                assert(run.skip(f).bytes.len() > 0);
                return Next::Data;
            }
            if i + 1 >= n {
                assert(run.skip(f).bytes.len() == 0);
                return Next::End;
            }
            let ty: u8 = self.d[i + 1];
            if ty == 0x00 {
                assert(run.skip(f).bytes.len() > 0);
                return Next::Data;
            }
            if ty != 0xFF {
                assert(run.skip(f).bytes.len() == 0);
                self.marker_at = Some(i);
                return Next::Marker(ty);
            }
            i += 1;
        }
        assert(run.skip(f).bytes.len() == 0);
        Next::End
    }

    /// Step past the marker at `m`.
    fn take_marker(&mut self, m: usize)
        requires
            m + 2 <= old(self).d@.len(),
        ensures
            final(self).wf(),
            final(self).d@ == old(self).d@,
            final(self).start@ == m + 2,
            final(self).fetched@ == 0,
            final(self).p() == 0,
            final(self).at == m + 2,
    {
        proof {
            run_stays_inside(self.d@, m + 2);
            assert(run_from(self.d@, m + 2).skip(0) =~= run_from(self.d@, m + 2));
            self.start@ = m + 2;
            self.fetched@ = 0;
        }
        let n: usize = self.d.len();
        self.at = m + 2;
        self.marker_at = None;
        self.bits = 0;
        self.count = 0;
        self.consumed_to = self.at;
    }
}

/// Whether fewer than eight bits are left and all of them are 1s.
pub open spec fn padded(run: Run, p: int, fetched: int) -> bool {
    &&& 8 * fetched - p < 8
    &&& number(run.bytes, p, 8 * fetched) == pow2((8 * fetched - p) as nat) - 1
}

// ---------------------------------------------------------------------------
// Scans
// ---------------------------------------------------------------------------

/// One component of the frame header.
#[derive(Clone, Copy, Debug)]
pub struct Component {
    pub id: u8,
    pub h: u8,
    pub v: u8,
}

/// What the frame header declared.
#[derive(Clone, Debug)]
pub struct Frame {
    pub precision: u8,
    pub width: u16,
    pub height: u16,
    pub components: Vec<Component>,
    /// False for progressive, lossless and arithmetic frames.
    pub sequential_huffman: bool,
}

/// One component of a scan header, with the tables it selects.
#[derive(Clone, Copy, Debug)]
pub struct ScanComponent {
    pub id: u8,
    pub dc_table: u8,
    pub ac_table: u8,
}

/// The Huffman tables in force, by class and id.
pub struct Tables {
    pub dc: [Option<Huffman>; 4],
    pub ac: [Option<Huffman>; 4],
}

impl Default for Tables {
    fn default() -> (r: Tables)
        ensures
            forall|i: int| 0 <= i < 4 ==> (#[trigger] r.dc@[i]) is None,
            forall|i: int| 0 <= i < 4 ==> (#[trigger] r.ac@[i]) is None,
    {
        Tables { dc: [None, None, None, None], ac: [None, None, None, None] }
    }
}

/// How a scan decoded.
#[derive(Debug, PartialEq, Eq)]
pub enum ScanResult {
    /// The scan decoded to exactly the MCUs the frame calls for and stopped at
    /// a marker. `end` is that marker's first byte.
    Complete { end: usize, mcus: u64, restarts: u64 },
    /// The data ended mid-scan. `verified_to` is the end of the last MCU that
    /// decoded cleanly - a real floor, not the buffer size.
    Truncated { verified_to: usize, mcus: u64 },
    /// Something in the entropy data cannot belong to this file.
    Broken { verified_to: usize, mcus: u64, why: String },
    /// Not a mode this decodes.
    NotApplicable,
}

/// The mathematical content of a [`ScanResult`].
pub enum Decoded {
    Complete { end: int, mcus: int, restarts: int },
    Truncated { verified_to: int, mcus: int },
    Broken { verified_to: int, mcus: int, why: Seq<char> },
    NotApplicable,
}

impl View for ScanResult {
    type V = Decoded;

    open spec fn view(&self) -> Decoded {
        match self {
            ScanResult::Complete { end, mcus, restarts } => Decoded::Complete {
                end: *end as int,
                mcus: *mcus as int,
                restarts: *restarts as int,
            },
            ScanResult::Truncated { verified_to, mcus } => Decoded::Truncated {
                verified_to: *verified_to as int,
                mcus: *mcus as int,
            },
            ScanResult::Broken { verified_to, mcus, why } => Decoded::Broken {
                verified_to: *verified_to as int,
                mcus: *mcus as int,
                why: why@,
            },
            ScanResult::NotApplicable => Decoded::NotApplicable,
        }
    }
}

/// What one component contributes to every MCU of a scan.
#[verifier::ext_equal]
pub struct Lane {
    pub h: int,
    pub v: int,
    pub dc: Book,
    pub ac: Book,
}

/// What a sample precision allows of coefficients.
pub struct Limits {
    /// The largest magnitude of a DC coefficient.
    pub dc: int,
    /// The largest DC magnitude category.
    pub dc_category: int,
    /// The largest AC magnitude category.
    pub ac_category: int,
}

/// The DC coefficient of an 8-bit block is at most 8 * 127 before
/// quantisation, and quantisation only shrinks it; each bit of precision past
/// eight, up to eight of them, doubles that.
pub open spec fn limits(precision: int) -> Limits {
    Limits {
        dc: 1024 * pow2(
            (if precision <= 8 {
                0
            } else if precision >= 16 {
                8
            } else {
                precision - 8
            }) as nat,
        ) as int,
        dc_category: if precision > 8 {
            15
        } else {
            11
        },
        ac_category: if precision > 8 {
            14
        } else {
            10
        },
    }
}

/// The signed coefficient that `s` magnitude bits of value `v` stand for.
pub open spec fn extended(v: int, s: int) -> int {
    if s <= 0 {
        0
    } else if v < pow2((s - 1) as nat) {
        v - pow2(s as nat) + 1
    } else {
        v
    }
}

/// Decoding one block, or one MCU.
pub enum Step {
    /// On to bit position `p`, with `fetched` bytes fetched and the DC
    /// predictors as they are then.
    On { p: int, fetched: int, preds: Seq<int> },
    /// The run ended in the middle.
    Short { why: Seq<char> },
    /// These are not this file's coefficients.
    Bad { why: Seq<char> },
}

/// The AC coefficients of a block, from the `k`-th on.
pub open spec fn ac_from(
    book: Book,
    run: Run,
    lim: Limits,
    p: int,
    fetched: int,
    preds: Seq<int>,
    k: int,
) -> Step
    decreases 80 - k,
{
    if k > 64 {
        Step::Bad { why: "a zero run reaches past the 64th coefficient of a block"@ }
    } else if k == 64 {
        Step::On { p, fetched, preds }
    } else {
        match symbol(book, run, p) {
            Symbol::Short => Step::Short { why: "an AC code is not in the table"@ },
            Symbol::Unknown => Step::Bad { why: "an AC code is not in the table"@ },
            Symbol::Value { value, len } => {
                let zeros = value as int / 16;
                let size = value as int % 16;
                let p1 = p + len;
                let f1 = fetch_code(run, p, fetched, len);
                if size == 0 {
                    if zeros == 15 {
                        ac_from(book, run, lim, p1, f1, preds, k + 16)
                    } else {
                        Step::On { p: p1, fetched: f1, preds }
                    }
                } else if size > lim.ac_category {
                    Step::Bad {
                        why: "an AC magnitude category of "@ + text::dec(size)
                            + " cannot occur at this precision"@,
                    }
                } else if k + zeros > 63 {
                    Step::Bad { why: "a zero run reaches past the 64th coefficient of a block"@ }
                } else if p1 + size > run.bits() {
                    Step::Short { why: "the AC magnitude bits ran out"@ }
                } else {
                    ac_from(
                        book,
                        run,
                        lim,
                        p1 + size,
                        run.fetch(p1, f1, size),
                        preds,
                        k + zeros + 1,
                    )
                }
            },
        }
    }
}

/// One block of the component `ci`.
pub open spec fn block_at(
    lane: Lane,
    ci: int,
    run: Run,
    lim: Limits,
    p: int,
    fetched: int,
    preds: Seq<int>,
) -> Step {
    match symbol(lane.dc, run, p) {
        Symbol::Short => Step::Short { why: "a DC code is not in the table"@ },
        Symbol::Unknown => Step::Bad { why: "a DC code is not in the table"@ },
        Symbol::Value { value, len } => {
            let p1 = p + len;
            let f1 = fetch_code(run, p, fetched, len);
            let size = value as int;
            if size > lim.dc_category {
                Step::Bad {
                    why: "a DC magnitude category of "@ + text::dec(size)
                        + " cannot occur at this precision"@,
                }
            } else if p1 + size > run.bits() {
                Step::Short { why: "the DC magnitude bits ran out"@ }
            } else {
                let pred = preds[ci] + extended(number(run.bytes, p1, p1 + size), size);
                if pred > lim.dc || pred < -lim.dc {
                    Step::Bad {
                        why: "the DC predictor reached "@ + text::signed_dec(pred)
                            + ", outside the +/-"@ + text::dec(lim.dc)
                            + " an image of this precision can hold; these are not this file's coefficients"@,
                    }
                } else {
                    ac_from(
                        lane.ac,
                        run,
                        lim,
                        p1 + size,
                        run.fetch(p1, f1, size),
                        preds.update(ci, pred),
                        1,
                    )
                }
            }
        },
    }
}

/// How many blocks a component has in an MCU: one where it is the only
/// component of the scan, else one for each of its samples.
pub open spec fn blocks_of(lanes: Seq<Lane>, ci: int) -> int {
    if lanes.len() == 1 {
        1
    } else {
        lanes[ci].h * lanes[ci].v
    }
}

/// One MCU, from the `bi`-th block of the component `ci` on.
pub open spec fn mcu_from(
    lanes: Seq<Lane>,
    run: Run,
    lim: Limits,
    ci: int,
    bi: int,
    p: int,
    fetched: int,
    preds: Seq<int>,
) -> Step
    decreases lanes.len() - ci, blocks_of(lanes, ci) - bi,
{
    if ci < 0 || ci >= lanes.len() {
        Step::On { p, fetched, preds }
    } else if bi >= blocks_of(lanes, ci) {
        mcu_from(lanes, run, lim, ci + 1, 0, p, fetched, preds)
    } else {
        match block_at(lanes[ci], ci, run, lim, p, fetched, preds) {
            Step::On { p: p1, fetched: f1, preds: preds1 } => mcu_from(
                lanes,
                run,
                lim,
                ci,
                bi + 1,
                p1,
                f1,
                preds1,
            ),
            other => other,
        }
    }
}

/// How far a scan has been decoded.
#[verifier::ext_equal]
pub struct Progress {
    /// Where the run being read began.
    pub start: int,
    /// The bit position in it.
    pub p: int,
    /// How many of its bytes have been fetched.
    pub fetched: int,
    /// The DC predictor of each component.
    pub preds: Seq<int>,
    /// MCUs decoded.
    pub mcus: int,
    /// Restart markers passed.
    pub restarts: int,
    /// MCUs decoded since the last one.
    pub since: int,
    /// The end of the last MCU that decoded cleanly.
    pub verified: int,
}

impl Progress {
    pub open spec fn broken(self, why: Seq<char>) -> Decoded {
        Decoded::Broken { verified_to: self.verified, mcus: self.mcus, why }
    }

    pub open spec fn truncated(self) -> Decoded {
        Decoded::Truncated { verified_to: self.verified, mcus: self.mcus }
    }
}

/// The message for entropy data that runs on where the interval is full.
pub open spec fn overfull(interval: int, tail: Seq<char>) -> Seq<char> {
    text::dec(interval) + " MCUs decoded and the entropy data runs on where a restart marker is due; "@
        + tail
}

/// What follows where a restart marker is due: `Ok` with the progress past
/// the marker, or how the scan ends.
pub open spec fn restarted(d: Seq<u8>, interval: int, st: Progress) -> Result<Progress, Decoded> {
    let run = run_from(d, st.start);
    let due = st.restarts % 8;
    if 8 * st.fetched - st.p >= 8 {
        Err(st.broken(overfull(interval, "bytes have been inserted since the last marker"@)))
    } else if !padded(run, st.p, st.fetched) {
        Err(st.broken("the bits before a restart marker are not the 1s that pad a scan"@))
    } else if st.fetched < run.bytes.len() {
        Err(
            st.broken(
                overfull(
                    interval,
                    "there is more in it than this file's - bytes have been inserted since the last marker"@,
                ),
            ),
        )
    } else {
        match run.stop {
            None => Err(st.truncated()),
            Some(m) => {
                let ty = d[m + 1] as int;
                if ty < 0xD0 || ty > 0xD7 {
                    Err(
                        st.broken(
                            "marker FF"@ + text::hex(ty, 2) + " where restart marker RST"@
                                + text::dec(due) + " was due"@,
                        ),
                    )
                } else if ty - 0xD0 != due {
                    Err(
                        st.broken(
                            "restart marker RST"@ + text::dec(ty - 0xD0) + " where RST"@
                                + text::dec(due) + " was due"@,
                        ),
                    )
                } else {
                    Ok(
                        Progress {
                            start: m + 2,
                            p: 0,
                            fetched: 0,
                            preds: Seq::new(st.preds.len(), |i: int| 0int),
                            restarts: st.restarts + 1,
                            since: 0,
                            verified: m + 2,
                            ..st
                        },
                    )
                }
            },
        }
    }
}

/// How a scan stands after the progress `st` is found to stop short: a
/// marker where data was due is a splice, the end of the data a truncation.
pub open spec fn stopped_short(d: Seq<u8>, st: Progress, why: Seq<char>) -> Decoded {
    if run_from(d, st.start).stop is Some {
        st.broken(why + ": a marker arrives mid-MCU, so the entropy data stops short"@)
    } else {
        st.truncated()
    }
}

/// The message for entropy data that runs on after the last MCU.
pub open spec fn overlong(total: int) -> Seq<char> {
    "all "@ + text::dec(total)
        + " MCUs of the frame decoded and the entropy data runs on; there is more in it than this file's"@
}

/// Every MCU is accounted for: the scan must end here, at a marker.
pub open spec fn scan_end(d: Seq<u8>, total: int, st: Progress) -> Decoded {
    let run = run_from(d, st.start);
    if 8 * st.fetched - st.p >= 8 {
        st.broken(overlong(total))
    } else if !padded(run, st.p, st.fetched) {
        st.broken("the bits after the last MCU are not the 1s that pad a scan"@)
    } else if st.fetched < run.bytes.len() {
        st.broken(overlong(total))
    } else {
        match run.stop {
            Some(m) => Decoded::Complete { end: m, mcus: st.mcus, restarts: st.restarts },
            None => st.truncated(),
        }
    }
}

/// One MCU more, the restart marker before it included where one is due.
pub open spec fn mcu_more(
    d: Seq<u8>,
    lanes: Seq<Lane>,
    lim: Limits,
    interval: int,
    st: Progress,
) -> Result<Progress, Decoded> {
    let due = if interval > 0 && st.since == interval {
        restarted(d, interval, st)
    } else {
        Ok(st)
    };
    match due {
        Err(e) => Err(e),
        Ok(at) => {
            let run = run_from(d, at.start);
            match mcu_from(lanes, run, lim, 0, 0, at.p, at.fetched, at.preds) {
                Step::Short { why } => Err(stopped_short(d, at, why)),
                Step::Bad { why } => Err(at.broken(why)),
                Step::On { p, fetched, preds } => Ok(
                    Progress {
                        p,
                        fetched,
                        preds,
                        mcus: at.mcus + 1,
                        since: at.since + 1,
                        verified: run.end_of(at.start, fetched),
                        ..at
                    },
                ),
            }
        },
    }
}

/// The scan from the progress `st` on, `left` MCUs being still to come.
pub open spec fn scan_from(
    d: Seq<u8>,
    lanes: Seq<Lane>,
    lim: Limits,
    interval: int,
    total: int,
    st: Progress,
    left: nat,
) -> Decoded
    decreases left,
{
    if left == 0 {
        scan_end(d, total, st)
    } else {
        match mcu_more(d, lanes, lim, interval, st) {
            Err(e) => e,
            Ok(next) => scan_from(d, lanes, lim, interval, total, next, (left - 1) as nat),
        }
    }
}

/// The first component of the frame with the given id.
pub open spec fn component_for(components: Seq<Component>, id: u8, from: int) -> Option<Component>
    decreases components.len() - from,
{
    if from < 0 || from >= components.len() {
        None
    } else if components[from].id == id {
        Some(components[from])
    } else {
        component_for(components, id, from + 1)
    }
}

/// The table selected, where there is one.
pub open spec fn table_at(tables: Seq<Option<Huffman>>, i: int) -> Option<Book> {
    if 0 <= i < tables.len() {
        match tables[i] {
            Some(h) => Some(h@),
            None => None,
        }
    } else {
        None
    }
}

/// The lanes of the first `n` components of a scan, or `None` where a
/// component or a table was never defined.
pub open spec fn lanes_of(
    components: Seq<Component>,
    scan: Seq<ScanComponent>,
    dc: Seq<Option<Huffman>>,
    ac: Seq<Option<Huffman>>,
    n: int,
) -> Option<Seq<Lane>>
    decreases n,
{
    if n <= 0 {
        Some(Seq::empty())
    } else {
        let sc = scan[n - 1];
        match (
            lanes_of(components, scan, dc, ac, n - 1),
            component_for(components, sc.id, 0),
            table_at(dc, sc.dc_table as int),
            table_at(ac, sc.ac_table as int),
        ) {
            (Some(before), Some(c), Some(dct), Some(act)) => Some(
                before.push(Lane { h: c.h as int, v: c.v as int, dc: dct, ac: act }),
            ),
            _ => None,
        }
    }
}

/// The largest horizontal sampling of the first `n` components, at least 1.
pub open spec fn hmax(components: Seq<Component>, n: int) -> int
    decreases n,
{
    if n <= 0 {
        1
    } else if components[n - 1].h > hmax(components, n - 1) {
        components[n - 1].h as int
    } else {
        hmax(components, n - 1)
    }
}

/// The largest vertical sampling of the first `n` components, at least 1.
pub open spec fn vmax(components: Seq<Component>, n: int) -> int
    decreases n,
{
    if n <= 0 {
        1
    } else if components[n - 1].v > vmax(components, n - 1) {
        components[n - 1].v as int
    } else {
        vmax(components, n - 1)
    }
}

/// `a / b` rounded up.
pub open spec fn ceil_div(a: int, b: int) -> int {
    (a + b - 1) / b
}

/// How many MCUs a scan has. A single-component scan codes one block per MCU
/// over that component's own block grid; an interleaved one codes every
/// component over the frame's MCU grid.
pub open spec fn mcus_of(frame: Frame, lanes: Seq<Lane>) -> int {
    let n = frame.components@.len() as int;
    let hm = hmax(frame.components@, n);
    let vm = vmax(frame.components@, n);
    if lanes.len() == 1 {
        ceil_div(ceil_div(frame.width * lanes[0].h, hm), 8) * ceil_div(
            ceil_div(frame.height * lanes[0].v, vm),
            8,
        )
    } else {
        ceil_div(frame.width as int, 8 * hm) * ceil_div(frame.height as int, 8 * vm)
    }
}

/// How the scan that begins at `start` decodes.
pub open spec fn decoded(
    d: Seq<u8>,
    start: int,
    frame: Frame,
    scan: Seq<ScanComponent>,
    tables: Tables,
    interval: int,
) -> Decoded {
    if !frame.sequential_huffman || scan.len() == 0 || frame.components@.len() == 0 {
        Decoded::NotApplicable
    } else {
        match lanes_of(frame.components@, scan, tables.dc@, tables.ac@, scan.len() as int) {
            None => Decoded::NotApplicable,
            Some(lanes) => {
                let total = mcus_of(frame, lanes);
                if total == 0 {
                    Decoded::NotApplicable
                } else {
                    scan_from(
                        d,
                        lanes,
                        limits(frame.precision as int),
                        interval,
                        total,
                        Progress {
                            start,
                            p: 0,
                            fetched: 0,
                            preds: Seq::new(lanes.len(), |i: int| 0int),
                            mcus: 0,
                            restarts: 0,
                            since: 0,
                            verified: start,
                        },
                        total as nat,
                    )
                }
            },
        }
    }
}

/// How decoding one block or MCU went.
enum Went {
    On,
    Short(&'static str),
    Bad(String),
}

/// What the precision allows of coefficients.
#[derive(Clone, Copy)]
struct Bounds {
    dc: i32,
    dc_category: u8,
    ac_category: u8,
}

impl Bounds {
    spec fn of(self, lim: Limits) -> bool {
        &&& self.dc == lim.dc
        &&& 0 <= self.dc <= 262144
        &&& self.dc_category == lim.dc_category
        &&& self.dc_category <= 15
        &&& self.ac_category == lim.ac_category
        &&& self.ac_category <= 14
    }

    fn for_precision(precision: u8) -> (r: Bounds)
        ensures
            r.of(limits(precision as int)),
    {
        let extra: u32 = if precision <= 8 {
            0
        } else if precision >= 16 {
            8
        } else {
            (precision - 8) as u32
        };
        proof {
            lemma2_to64();
            if extra < 8 {
                lemma_pow2_strictly_increases(extra as nat, 8);
            }
        }
        Bounds {
            dc: 1024 * bytes::two_to(extra) as i32,
            dc_category: if precision > 8 {
                15
            } else {
                11
            },
            ac_category: if precision > 8 {
                14
            } else {
                10
            },
        }
    }
}

/// The predictors as integers.
spec fn ints(v: Seq<i32>) -> Seq<int> {
    Seq::new(v.len(), |i: int| v[i] as int)
}

/// Extend a magnitude-category value to its signed coefficient.
fn extend(v: u32, s: u8) -> (r: i32)
    requires
        s <= 15,
        v < pow2(s as nat),
    ensures
        r == extended(v as int, s as int),
        -32768 < r < 32768,
{
    if s == 0 {
        return 0;
    }
    proof {
        lemma_pow2_strictly_increases(s as nat, 16);
        lemma2_to64();
        lemma_pow2_unfold(s as nat);
    }
    let half: u32 = bytes::two_to(s as u32 - 1);
    if v < half {
        v as i32 - bytes::two_to(s as u32) as i32 + 1
    } else {
        v as i32
    }
}

/// The AC coefficients of a block.
fn decode_ac(
    r: &mut BitReader,
    t: &Huffman,
    bounds: Bounds,
    Ghost(lim): Ghost<Limits>,
    Ghost(preds): Ghost<Seq<int>>,
) -> (w: Went)
    requires
        old(r).wf(),
        bounds.of(lim),
    ensures
        final(r).wf(),
        final(r).same_run(*old(r)),
        match ac_from(t@, old(r).run(), lim, old(r).p(), old(r).fetched@, preds, 1) {
            Step::On { p, fetched, preds: after } => {
                &&& w is On
                &&& after == preds
                &&& final(r).p() == p
                &&& final(r).fetched@ == fetched
            },
            Step::Short { why } => w matches Went::Short(s) && s@ == why && final(r).knows_stop(),
            Step::Bad { why } => w matches Went::Bad(s) && s@ == why,
        },
{
    let ghost run = r.run();
    let ghost whole = ac_from(t@, run, lim, r.p(), r.fetched@, preds, 1);
    let mut k: u32 = 1;
    while k < 64
        invariant
            r.wf(),
            r.same_run(*old(r)),
            run == r.run(),
            bounds.of(lim),
            1 <= k <= 80,
            whole == ac_from(t@, run, lim, r.p(), r.fetched@, preds, k as int),
            whole == ac_from(t@, old(r).run(), lim, old(r).p(), old(r).fetched@, preds, 1),
        decreases 80 - k,
    {
        match r.decode(t) {
            Code::Short => {
                return Went::Short("an AC code is not in the table");
            },
            Code::Unknown => {
                return Went::Bad("an AC code is not in the table".to_owned());
            },
            Code::Value(rs) => {
                let zeros: u32 = (rs / 16) as u32;
                let size: u8 = rs % 16;
                if size == 0 {
                    if zeros == 15 {
                        k = k + 16;
                        continue;
                    }
                    return Went::On;
                }
                if size > bounds.ac_category {
                    return Went::Bad(
                        text::cat3(
                            "an AC magnitude category of ",
                            text::decimal(size as u64).as_str(),
                            " cannot occur at this precision",
                        ),
                    );
                }
                k = k + zeros;
                if k > 63 {
                    return Went::Bad(
                        "a zero run reaches past the 64th coefficient of a block".to_owned(),
                    );
                }
                if r.receive(size).is_none() {
                    return Went::Short("the AC magnitude bits ran out");
                }
                k = k + 1;
            },
        }
    }
    if k > 64 {
        return Went::Bad("a zero run reaches past the 64th coefficient of a block".to_owned());
    }
    Went::On
}

/// One component of a scan, with how many blocks it has in an MCU.
struct Track<'t> {
    blocks: u64,
    dc: &'t Huffman,
    ac: &'t Huffman,
}

/// One block of the component `ci`.
fn decode_block(
    r: &mut BitReader,
    dc: &Huffman,
    ac: &Huffman,
    ci: usize,
    preds: &mut Vec<i32>,
    bounds: Bounds,
    Ghost(lane): Ghost<Lane>,
    Ghost(lim): Ghost<Limits>,
) -> (w: Went)
    requires
        old(r).wf(),
        bounds.of(lim),
        lane.dc == dc@,
        lane.ac == ac@,
        ci < old(preds)@.len(),
        forall|i: int|
            0 <= i < old(preds)@.len() ==> -bounds.dc <= #[trigger] old(preds)@[i] <= bounds.dc,
    ensures
        final(r).wf(),
        final(r).same_run(*old(r)),
        final(preds)@.len() == old(preds)@.len(),
        forall|i: int|
            w is On && 0 <= i < final(preds)@.len() ==> -bounds.dc <= #[trigger] final(preds)@[i]
                <= bounds.dc,
        match block_at(
            lane,
            ci as int,
            old(r).run(),
            lim,
            old(r).p(),
            old(r).fetched@,
            ints(old(preds)@),
        ) {
            Step::On { p, fetched, preds: after } => {
                &&& w is On
                &&& after == ints(final(preds)@)
                &&& final(r).p() == p
                &&& final(r).fetched@ == fetched
            },
            Step::Short { why } => w matches Went::Short(s) && s@ == why && final(r).knows_stop(),
            Step::Bad { why } => w matches Went::Bad(s) && s@ == why,
        },
{
    match r.decode(dc) {
        Code::Short => Went::Short("a DC code is not in the table"),
        Code::Unknown => Went::Bad("a DC code is not in the table".to_owned()),
        Code::Value(s) => {
            if s > bounds.dc_category {
                return Went::Bad(
                    text::cat3(
                        "a DC magnitude category of ",
                        text::decimal(s as u64).as_str(),
                        " cannot occur at this precision",
                    ),
                );
            }
            match r.receive(s) {
                None => Went::Short("the DC magnitude bits ran out"),
                Some(bits) => {
                    let pred: i32 = preds[ci] + extend(bits, s);
                    if pred > bounds.dc || pred < -bounds.dc {
                        return Went::Bad(
                            text::cat5(
                                "the DC predictor reached ",
                                text::signed_decimal(pred as i64).as_str(),
                                ", outside the +/-",
                                text::decimal(bounds.dc as u64).as_str(),
                                " an image of this precision can hold; these are not this file's coefficients",
                            ),
                        );
                    }
                    preds[ci] = pred;
                    assert(ints(preds@) =~= ints(old(preds)@).update(ci as int, pred as int));
                    decode_ac(r, ac, bounds, Ghost(lim), Ghost(ints(preds@)))
                },
            }
        },
    }
}

/// The tracks agree with the lanes.
spec fn tracked_as(plan: Seq<Track<'_>>, lanes: Seq<Lane>) -> bool {
    &&& plan.len() == lanes.len()
    &&& forall|i: int|
        0 <= i < plan.len() ==> (#[trigger] plan[i]).blocks == blocks_of(lanes, i) && plan[i].dc@
            == lanes[i].dc && plan[i].ac@ == lanes[i].ac
}

/// One MCU: every block of every component in the scan.
fn decode_mcu(
    r: &mut BitReader,
    plan: &Vec<Track>,
    preds: &mut Vec<i32>,
    bounds: Bounds,
    Ghost(lanes): Ghost<Seq<Lane>>,
    Ghost(lim): Ghost<Limits>,
) -> (w: Went)
    requires
        old(r).wf(),
        bounds.of(lim),
        tracked_as(plan@, lanes),
        old(preds)@.len() == plan@.len(),
        forall|i: int|
            0 <= i < old(preds)@.len() ==> -bounds.dc <= #[trigger] old(preds)@[i] <= bounds.dc,
    ensures
        final(r).wf(),
        final(r).same_run(*old(r)),
        final(preds)@.len() == old(preds)@.len(),
        forall|i: int|
            w is On && 0 <= i < final(preds)@.len() ==> -bounds.dc <= #[trigger] final(preds)@[i]
                <= bounds.dc,
        match mcu_from(
            lanes,
            old(r).run(),
            lim,
            0,
            0,
            old(r).p(),
            old(r).fetched@,
            ints(old(preds)@),
        ) {
            Step::On { p, fetched, preds: after } => {
                &&& w is On
                &&& after == ints(final(preds)@)
                &&& final(r).p() == p
                &&& final(r).fetched@ == fetched
            },
            Step::Short { why } => w matches Went::Short(s) && s@ == why && final(r).knows_stop(),
            Step::Bad { why } => w matches Went::Bad(s) && s@ == why,
        },
{
    let ghost run = r.run();
    let ghost whole = mcu_from(lanes, run, lim, 0, 0, r.p(), r.fetched@, ints(preds@));
    let mut ci: usize = 0;
    while ci < plan.len()
        invariant
            r.wf(),
            r.same_run(*old(r)),
            run == r.run(),
            run == old(r).run(),
            bounds.of(lim),
            tracked_as(plan@, lanes),
            preds@.len() == plan@.len(),
            preds@.len() == old(preds)@.len(),
            ci <= plan@.len(),
            forall|i: int|
                0 <= i < preds@.len() ==> -bounds.dc <= #[trigger] preds@[i] <= bounds.dc,
            whole == mcu_from(lanes, run, lim, ci as int, 0, r.p(), r.fetched@, ints(preds@)),
            whole == mcu_from(
                lanes,
                old(r).run(),
                lim,
                0,
                0,
                old(r).p(),
                old(r).fetched@,
                ints(old(preds)@),
            ),
        decreases plan@.len() - ci,
    {
        let n: u64 = plan[ci].blocks;
        let mut bi: u64 = 0;
        while bi < n
            invariant
                r.wf(),
                r.same_run(*old(r)),
                run == r.run(),
                run == old(r).run(),
                bounds.of(lim),
                tracked_as(plan@, lanes),
                preds@.len() == plan@.len(),
                preds@.len() == old(preds)@.len(),
                ci < plan@.len(),
                n == blocks_of(lanes, ci as int),
                bi <= n,
                forall|i: int|
                    0 <= i < preds@.len() ==> -bounds.dc <= #[trigger] preds@[i] <= bounds.dc,
                whole == mcu_from(
                    lanes,
                    run,
                    lim,
                    ci as int,
                    bi as int,
                    r.p(),
                    r.fetched@,
                    ints(preds@),
                ),
                whole == mcu_from(
                    lanes,
                    old(r).run(),
                    lim,
                    0,
                    0,
                    old(r).p(),
                    old(r).fetched@,
                    ints(old(preds)@),
                ),
            decreases n - bi,
        {
            let w = decode_block(
                r,
                plan[ci].dc,
                plan[ci].ac,
                ci,
                preds,
                bounds,
                Ghost(lanes[ci as int]),
                Ghost(lim),
            );
            match w {
                Went::On => {},
                other => {
                    return other;
                },
            }
            bi += 1;
        }
        ci += 1;
    }
    Went::On
}

proof fn sampling_bounds(components: Seq<Component>, n: int)
    requires
        n <= components.len(),
    ensures
        1 <= hmax(components, n) <= 255,
        1 <= vmax(components, n) <= 255,
    decreases n,
{
    if n > 0 {
        sampling_bounds(components, n - 1);
    }
}

fn find_component(components: &Vec<Component>, id: u8) -> (r: Option<Component>)
    ensures
        r == component_for(components@, id, 0),
{
    let mut i: usize = 0;
    while i < components.len()
        invariant
            i <= components@.len(),
            component_for(components@, id, 0) == component_for(components@, id, i as int),
        decreases components@.len() - i,
    {
        if components[i].id == id {
            return Some(components[i]);
        }
        i += 1;
    }
    None
}

fn find_table(tables: &[Option<Huffman>; 4], i: u8) -> (r: Option<&Huffman>)
    ensures
        match r {
            Some(h) => table_at(tables@, i as int) == Some(h@),
            None => table_at(tables@, i as int) is None,
        },
{
    if i < 4 {
        match &tables[i as usize] {
            Some(h) => Some(h),
            None => None,
        }
    } else {
        None
    }
}

/// `a / b` rounded up.
fn div_up(a: u64, b: u64) -> (r: u64)
    requires
        0 < b <= 0x1_0000_0000,
        a <= 0x1_0000_0000,
    ensures
        r == ceil_div(a as int, b as int),
        r <= a,
{
    proof {
        let n = a + b - 1;
        lemma_fundamental_div_mod(n, b as int);
        let q = n / (b as int);
        assert(q <= a) by (nonlinear_arith)
            requires
                b > 0,
                a >= 0,
                a + b - 1 >= b * q,
        ;
    }
    (a + b - 1) / b
}

/// How many MCUs a scan has, and the tracks of its components.
fn count_mcus(frame: &Frame, plan: &Vec<(Component, &Huffman, &Huffman)>, Ghost(lanes): Ghost<Seq<Lane>>) -> (r:
    u64)
    requires
        plan@.len() == lanes.len(),
        plan@.len() > 0,
        forall|i: int|
            0 <= i < plan@.len() ==> (#[trigger] plan@[i]).0.h == lanes[i].h && plan@[i].0.v
                == lanes[i].v,
    ensures
        r == mcus_of(*frame, lanes),
        r <= 0x1_0000_0000_0000,
{
    let mut hm: u64 = 1;
    let mut vm: u64 = 1;
    let mut i: usize = 0;
    while i < frame.components.len()
        invariant
            i <= frame.components@.len(),
            hm == hmax(frame.components@, i as int),
            vm == vmax(frame.components@, i as int),
        decreases frame.components@.len() - i,
    {
        let c = frame.components[i];
        if c.h as u64 > hm {
            hm = c.h as u64;
        }
        if c.v as u64 > vm {
            vm = c.v as u64;
        }
        i += 1;
    }
    proof {
        sampling_bounds(frame.components@, frame.components@.len() as int);
    }
    let w: u64 = frame.width as u64;
    let h: u64 = frame.height as u64;
    if plan.len() == 1 {
        let c = plan[0].0;
        assert(c.h == lanes[0].h && c.v == lanes[0].v);
        proof {
            assert(0 <= w * c.h <= 0xFFFF * 0xFF) by (nonlinear_arith)
                requires
                    w <= 0xFFFF,
                    c.h <= 0xFF,
            ;
            assert(0 <= h * c.v <= 0xFFFF * 0xFF) by (nonlinear_arith)
                requires
                    h <= 0xFFFF,
                    c.v <= 0xFF,
            ;
        }
        let bw: u64 = div_up(div_up(w * c.h as u64, hm), 8);
        let bh: u64 = div_up(div_up(h * c.v as u64, vm), 8);
        assert(0 <= bw * bh <= 0xFF_0000 * 0xFF_0000) by (nonlinear_arith)
            requires
                bw <= 0xFF_0000,
                bh <= 0xFF_0000,
        ;
        bw * bh
    } else {
        let mw: u64 = div_up(w, 8 * hm);
        let mh: u64 = div_up(h, 8 * vm);
        assert(0 <= mw * mh <= 0xFFFF * 0xFFFF) by (nonlinear_arith)
            requires
                mw <= 0xFFFF,
                mh <= 0xFFFF,
        ;
        mw * mh
    }
}

/// Decode one scan's entropy-coded data, which begins at `start`.
pub fn decode_scan(
    d: &[u8],
    start: usize,
    frame: &Frame,
    scan: &[ScanComponent],
    tables: &Tables,
    restart_interval: u64,
) -> (r: ScanResult)
    ensures
        r@ == decoded(d@, start as int, *frame, scan@, *tables, restart_interval as int),
{
    if !frame.sequential_huffman || scan.len() == 0 || frame.components.len() == 0 {
        return ScanResult::NotApplicable;
    }
    // Each scan component, with its sampling and its two tables.
    let mut parts: Vec<(Component, &Huffman, &Huffman)> = Vec::new();
    let ghost mut lanes: Seq<Lane> = Seq::empty();
    let mut i: usize = 0;
    while i < scan.len()
        invariant
            i <= scan@.len(),
            parts@.len() == i,
            lanes.len() == i,
            lanes_of(frame.components@, scan@, tables.dc@, tables.ac@, i as int) == Some(lanes),
            forall|k: int|
                0 <= k < i ==> (#[trigger] parts@[k]).0.h == lanes[k].h && parts@[k].0.v
                    == lanes[k].v && parts@[k].1@ == lanes[k].dc && parts@[k].2@ == lanes[k].ac,
            frame.sequential_huffman,
            scan@.len() != 0,
            frame.components@.len() != 0,
        decreases scan@.len() - i,
    {
        let sc = scan[i];
        match (
            find_component(&frame.components, sc.id),
            find_table(&tables.dc, sc.dc_table),
            find_table(&tables.ac, sc.ac_table),
        ) {
            (Some(c), Some(dc), Some(ac)) => {
                proof {
                    lanes = lanes.push(
                        Lane { h: c.h as int, v: c.v as int, dc: dc@, ac: ac@ },
                    );
                }
                parts.push((c, dc, ac));
            },
            _ => {
                proof {
                    undefined_stays_undefined(
                        frame.components@,
                        scan@,
                        tables.dc@,
                        tables.ac@,
                        i + 1,
                        scan@.len() as int,
                    );
                }
                return ScanResult::NotApplicable;
            },
        }
        i += 1;
    }
    let total: u64 = count_mcus(frame, &parts, Ghost(lanes));
    if total == 0 {
        return ScanResult::NotApplicable;
    }
    let mut plan: Vec<Track> = Vec::new();
    let mut preds: Vec<i32> = Vec::new();
    let mut i: usize = 0;
    while i < parts.len()
        invariant
            i <= parts@.len(),
            parts@.len() == lanes.len(),
            plan@.len() == i,
            preds@.len() == i,
            forall|k: int| 0 <= k < i ==> #[trigger] preds@[k] == 0,
            forall|k: int|
                0 <= k < parts@.len() ==> (#[trigger] parts@[k]).0.h == lanes[k].h && parts@[k].0.v
                    == lanes[k].v && parts@[k].1@ == lanes[k].dc && parts@[k].2@ == lanes[k].ac,
            forall|k: int|
                0 <= k < i ==> (#[trigger] plan@[k]).blocks == blocks_of(lanes, k) && plan@[k].dc@
                    == lanes[k].dc && plan@[k].ac@ == lanes[k].ac,
        decreases parts@.len() - i,
    {
        let c = parts[i].0;
        let dc = parts[i].1;
        let ac = parts[i].2;
        assert(0 <= c.h * c.v <= 0xFF * 0xFF) by (nonlinear_arith)
            requires
                c.h <= 0xFF,
                c.v <= 0xFF,
        ;
        let blocks: u64 = if parts.len() == 1 {
            1
        } else {
            c.h as u64 * c.v as u64
        };
        assert(parts@[i as int].1@ == lanes[i as int].dc);
        plan.push(Track { blocks, dc, ac });
        preds.push(0i32);
        i += 1;
    }

    let bounds = Bounds::for_precision(frame.precision);
    let ghost lim = limits(frame.precision as int);
    let ghost interval = restart_interval as int;
    let ghost whole = decoded(d@, start as int, *frame, scan@, *tables, restart_interval as int);
    let mut r = BitReader::new(d, start);
    let mut tally = Tally {
        mcus: 0,
        restarts: 0,
        expect_rst: 0,
        since_restart: 0,
        verified_to: start,
    };
    assert(ints(preds@) =~= Seq::new(lanes.len(), |i: int| 0int));
    while tally.mcus < total
        invariant
            r.wf(),
            r.d@ == d@,
            bounds.of(lim),
            tracked_as(plan@, lanes),
            plan@.len() == preds@.len(),
            preds_within(preds@, bounds.dc as int),
            interval == restart_interval,
            tally.wf(),
            tally.mcus <= total,
            whole == decoded(d@, start as int, *frame, scan@, *tables, restart_interval as int),
            whole == scan_from(
                d@,
                lanes,
                lim,
                interval,
                total as int,
                progress(r, preds@, tally),
                (total - tally.mcus) as nat,
            ),
            total > 0,
        decreases total - tally.mcus,
    {
        let ghost st = progress(r, preds@, tally);
        let ghost left = (total - tally.mcus) as nat;
        assert(whole == match mcu_more(d@, lanes, lim, interval, st) {
            Err(e) => e,
            Ok(next) => scan_from(d@, lanes, lim, interval, total as int, next, (left - 1) as nat),
        });
        if let Some(end) = next_mcu(
            &mut r,
            &plan,
            &mut preds,
            &mut tally,
            bounds,
            restart_interval,
            Ghost(lanes),
            Ghost(lim),
        ) {
            return end;
        }
    }
    let ghost st = progress(r, preds@, tally);
    finish_scan(&mut r, total, &tally, Ghost(st))
}

/// What has been counted so far in a scan.
struct Tally {
    mcus: u64,
    restarts: u64,
    expect_rst: u8,
    since_restart: u64,
    /// End of the last MCU that decoded cleanly.
    verified_to: usize,
}

impl Tally {
    spec fn wf(self) -> bool {
        &&& self.restarts + self.since_restart <= self.mcus
        &&& self.expect_rst == self.restarts % 8
    }
}

spec fn progress(r: BitReader<'_>, preds: Seq<i32>, tally: Tally) -> Progress {
    Progress {
        start: r.start@,
        p: r.p(),
        fetched: r.fetched@,
        preds: ints(preds),
        mcus: tally.mcus as int,
        restarts: tally.restarts as int,
        since: tally.since_restart as int,
        verified: tally.verified_to as int,
    }
}

spec fn preds_within(preds: Seq<i32>, bound: int) -> bool {
    forall|k: int| 0 <= k < preds.len() ==> -bound <= #[trigger] preds[k] <= bound
}

/// Pass the restart marker that is due, or say how the scan ends.
fn pass_restart(
    r: &mut BitReader,
    preds: &mut Vec<i32>,
    tally: &mut Tally,
    restart_interval: u64,
) -> (end: Option<ScanResult>)
    requires
        old(r).wf(),
        old(tally).wf(),
        old(tally).since_restart == restart_interval,
        restart_interval > 0,
    ensures
        final(r).d@ == old(r).d@,
        final(preds)@.len() == old(preds)@.len(),
        match restarted(
            old(r).d@,
            restart_interval as int,
            progress(*old(r), old(preds)@, *old(tally)),
        ) {
            Err(e) => end matches Some(x) && x@ == e,
            Ok(next) => {
                &&& end is None
                &&& final(r).wf()
                &&& final(tally).wf()
                &&& final(tally).mcus == old(tally).mcus
                &&& next == progress(*final(r), final(preds)@, *final(tally))
                &&& preds_within(final(preds)@, 0)
            },
        },
{
    let ghost st = progress(*r, preds@, *tally);
    let ghost d = r.d@;
    let verified_to: usize = tally.verified_to;
    let mcus: u64 = tally.mcus;
    if r.holds_a_whole_byte() {
        return Some(
            broken(
                verified_to,
                mcus,
                text::cat3(
                    text::decimal(restart_interval).as_str(),
                    " MCUs decoded and the entropy data runs on where a restart marker is due; ",
                    "bytes have been inserted since the last marker",
                ),
            ),
        );
    }
    if !r.padding_is_ones() {
        return Some(
            broken(
                verified_to,
                mcus,
                "the bits before a restart marker are not the 1s that pad a scan".to_owned(),
            ),
        );
    }
    match r.align() {
        Next::Marker(m) => {
            let due = text::decimal(tally.expect_rst as u64);
            if m < 0xD0 || m > 0xD7 {
                return Some(
                    broken(
                        verified_to,
                        mcus,
                        text::cat5(
                            "marker FF",
                            text::hexadecimal(m as u64, 2).as_str(),
                            " where restart marker RST",
                            due.as_str(),
                            " was due",
                        ),
                    ),
                );
            }
            if m - 0xD0 != tally.expect_rst {
                return Some(
                    broken(
                        verified_to,
                        mcus,
                        text::cat5(
                            "restart marker RST",
                            text::decimal((m - 0xD0) as u64).as_str(),
                            " where RST",
                            due.as_str(),
                            " was due",
                        ),
                    ),
                );
            }
            let marker: usize = match r.marker_at {
                Some(x) => x,
                None => 0,
            };
            r.take_marker(marker);
            tally.restarts = tally.restarts + 1;
            tally.expect_rst = (tally.expect_rst + 1) % 8;
            tally.since_restart = 0;
            tally.verified_to = r.at;
            clear(preds);
            proof {
                assert(ints(preds@) =~= Seq::new(st.preds.len(), |i: int| 0int));
                assert(progress(*r, preds@, *tally) =~= restarted(
                    d,
                    restart_interval as int,
                    st,
                )->Ok_0);
            }
            None
        },
        Next::Data => Some(
            broken(
                verified_to,
                mcus,
                text::cat3(
                    text::decimal(restart_interval).as_str(),
                    " MCUs decoded and the entropy data runs on where a restart marker is due; ",
                    "there is more in it than this file's - bytes have been inserted since the last marker",
                ),
            ),
        ),
        Next::End => Some(ScanResult::Truncated { verified_to, mcus }),
    }
}

/// Set every predictor back to zero.
fn clear(preds: &mut Vec<i32>)
    ensures
        final(preds)@.len() == old(preds)@.len(),
        forall|j: int| 0 <= j < final(preds)@.len() ==> #[trigger] final(preds)@[j] == 0,
{
    let n: usize = preds.len();
    let mut k: usize = 0;
    while k < n
        invariant
            k <= n,
            n == preds@.len(),
            preds@.len() == old(preds)@.len(),
            forall|j: int| 0 <= j < k ==> #[trigger] preds@[j] == 0,
        decreases n - k,
    {
        preds[k] = 0;
        k += 1;
    }
}

/// Decode one MCU more, the restart marker before it included where one is
/// due, or say how the scan ends.
fn next_mcu(
    r: &mut BitReader,
    plan: &Vec<Track>,
    preds: &mut Vec<i32>,
    tally: &mut Tally,
    bounds: Bounds,
    restart_interval: u64,
    Ghost(lanes): Ghost<Seq<Lane>>,
    Ghost(lim): Ghost<Limits>,
) -> (end: Option<ScanResult>)
    requires
        old(r).wf(),
        old(tally).wf(),
        old(tally).mcus < u64::MAX,
        bounds.of(lim),
        tracked_as(plan@, lanes),
        plan@.len() == old(preds)@.len(),
        preds_within(old(preds)@, bounds.dc as int),
    ensures
        final(r).d@ == old(r).d@,
        match mcu_more(
            old(r).d@,
            lanes,
            lim,
            restart_interval as int,
            progress(*old(r), old(preds)@, *old(tally)),
        ) {
            Err(e) => end matches Some(x) && x@ == e,
            Ok(next) => {
                &&& end is None
                &&& final(r).wf()
                &&& final(tally).wf()
                &&& final(tally).mcus == old(tally).mcus + 1
                &&& next == progress(*final(r), final(preds)@, *final(tally))
                &&& preds_within(final(preds)@, bounds.dc as int)
                &&& final(preds)@.len() == old(preds)@.len()
            },
        },
{
    if restart_interval > 0 && tally.since_restart == restart_interval {
        if let Some(end) = pass_restart(r, preds, tally, restart_interval) {
            return Some(end);
        }
    }
    let ghost at = progress(*r, preds@, *tally);
    match decode_mcu(r, plan, preds, bounds, Ghost(lanes), Ghost(lim)) {
        Went::On => {
            tally.mcus = tally.mcus + 1;
            tally.since_restart = tally.since_restart + 1;
            // The MCU is whole, so every byte it consumed is justified.
            tally.verified_to = r.consumed_to;
            None
        },
        Went::Short(why) => if r.marker_at.is_some() {
            Some(
                broken(
                    tally.verified_to,
                    tally.mcus,
                    text::cat2(why, ": a marker arrives mid-MCU, so the entropy data stops short"),
                ),
            )
        } else {
            Some(ScanResult::Truncated { verified_to: tally.verified_to, mcus: tally.mcus })
        },
        Went::Bad(why) => Some(broken(tally.verified_to, tally.mcus, why)),
    }
}

/// Every MCU accounted for: the scan must end here, at a marker.
fn finish_scan(r: &mut BitReader, total: u64, tally: &Tally, Ghost(st): Ghost<Progress>) -> (end:
    ScanResult)
    requires
        old(r).wf(),
        st.start == old(r).start@,
        st.p == old(r).p(),
        st.fetched == old(r).fetched@,
        st.mcus == tally.mcus,
        st.restarts == tally.restarts,
        st.verified == tally.verified_to,
    ensures
        end@ == scan_end(old(r).d@, total as int, st),
{
    let verified_to: usize = tally.verified_to;
    let mcus: u64 = tally.mcus;
    if r.holds_a_whole_byte() {
        return broken(verified_to, mcus, overlong_text(total));
    }
    if !r.padding_is_ones() {
        return broken(
            verified_to,
            mcus,
            "the bits after the last MCU are not the 1s that pad a scan".to_owned(),
        );
    }
    match r.align() {
        Next::Marker(_) => {
            let end: usize = match r.marker_at {
                Some(m) => m,
                None => r.consumed_to,
            };
            ScanResult::Complete { end, mcus, restarts: tally.restarts }
        },
        Next::Data => broken(verified_to, mcus, overlong_text(total)),
        Next::End => ScanResult::Truncated { verified_to, mcus },
    }
}

proof fn undefined_stays_undefined(
    components: Seq<Component>,
    scan: Seq<ScanComponent>,
    dc: Seq<Option<Huffman>>,
    ac: Seq<Option<Huffman>>,
    m: int,
    n: int,
)
    requires
        0 <= m <= n,
        lanes_of(components, scan, dc, ac, m) is None,
    ensures
        lanes_of(components, scan, dc, ac, n) is None,
    decreases n,
{
    if m < n {
        undefined_stays_undefined(components, scan, dc, ac, m, n - 1);
    }
}

fn overlong_text(total: u64) -> (r: String)
    ensures
        r@ == overlong(total as int),
{
    text::cat3(
        "all ",
        text::decimal(total).as_str(),
        " MCUs of the frame decoded and the entropy data runs on; there is more in it than this file's",
    )
}

fn broken(verified_to: usize, mcus: u64, why: String) -> (r: ScanResult)
    ensures
        r@ == (Decoded::Broken { verified_to: verified_to as int, mcus: mcus as int, why: why@ }),
{
    ScanResult::Broken { verified_to, mcus, why }
}

// ---------------------------------------------------------------------------
// What holds of every scan
// ---------------------------------------------------------------------------

proof fn ac_fetches_inside(
    book: Book,
    run: Run,
    lim: Limits,
    p: int,
    fetched: int,
    preds: Seq<int>,
    k: int,
)
    requires
        0 <= fetched <= run.bytes.len(),
    ensures
        ac_from(book, run, lim, p, fetched, preds, k) matches Step::On { fetched: f, .. } ==> fetched
            <= f <= run.bytes.len(),
    decreases 80 - k,
{
    if k < 64 {
        if let Symbol::Value { value, len } = symbol(book, run, p) {
            let zeros = value as int / 16;
            let size = value as int % 16;
            let p1 = p + len;
            let f1 = fetch_code(run, p, fetched, len);
            if size == 0 {
                if zeros == 15 {
                    ac_fetches_inside(book, run, lim, p1, f1, preds, k + 16);
                }
            } else if size <= lim.ac_category && k + zeros <= 63 && p1 + size <= run.bits() {
                ac_fetches_inside(
                    book,
                    run,
                    lim,
                    p1 + size,
                    run.fetch(p1, f1, size),
                    preds,
                    k + zeros + 1,
                );
            }
        }
    }
}

proof fn mcu_fetches_inside(
    lanes: Seq<Lane>,
    run: Run,
    lim: Limits,
    ci: int,
    bi: int,
    p: int,
    fetched: int,
    preds: Seq<int>,
)
    requires
        0 <= fetched <= run.bytes.len(),
    ensures
        mcu_from(lanes, run, lim, ci, bi, p, fetched, preds) matches Step::On { fetched: f, .. }
            ==> fetched <= f <= run.bytes.len(),
    decreases lanes.len() - ci, blocks_of(lanes, ci) - bi,
{
    if ci < 0 || ci >= lanes.len() {
    } else if bi >= blocks_of(lanes, ci) {
        mcu_fetches_inside(lanes, run, lim, ci + 1, 0, p, fetched, preds);
    } else {
        let lane = lanes[ci];
        if let Symbol::Value { value, len } = symbol(lane.dc, run, p) {
            let p1 = p + len;
            let f1 = fetch_code(run, p, fetched, len);
            let size = value as int;
            let pred = preds[ci] + extended(number(run.bytes, p1, p1 + size), size);
            ac_fetches_inside(
                lane.ac,
                run,
                lim,
                p1 + size,
                run.fetch(p1, f1, size),
                preds.update(ci, pred),
                1,
            );
        }
        if let Step::On { p: p1, fetched: f1, preds: preds1 } = block_at(
            lane,
            ci,
            run,
            lim,
            p,
            fetched,
            preds,
        ) {
            mcu_fetches_inside(lanes, run, lim, ci, bi + 1, p1, f1, preds1);
        }
    }
}

/// What a scan's progress keeps: it counts MCUs by restart intervals, and
/// what it has verified lies inside the data.
pub open spec fn on_course(d: Seq<u8>, start: int, interval: int, st: Progress) -> bool {
    &&& start <= st.start
    &&& st.start <= d.len() || st.start == start
    &&& 0 <= st.fetched <= run_from(d, st.start).bytes.len()
    &&& start <= st.verified
    &&& st.verified <= d.len() || st.verified == start
    &&& 0 <= st.mcus
    &&& 0 <= st.restarts
    &&& interval > 0 ==> st.mcus == st.restarts * interval + st.since && 0 <= st.since <= interval
        && (st.mcus > 0 ==> st.since > 0)
    &&& interval <= 0 ==> st.restarts == 0
}

proof fn one_more_stays_on_course(
    d: Seq<u8>,
    start: int,
    lanes: Seq<Lane>,
    lim: Limits,
    interval: int,
    st: Progress,
)
    requires
        0 <= start,
        on_course(d, start, interval, st),
    ensures
        match mcu_more(d, lanes, lim, interval, st) {
            Ok(next) => on_course(d, start, interval, next) && next.mcus == st.mcus + 1,
            Err(Decoded::Broken { verified_to, mcus, .. }) => start <= verified_to && (verified_to
                <= d.len() || verified_to == start) && mcus == st.mcus,
            Err(Decoded::Truncated { verified_to, mcus }) => start <= verified_to && (verified_to
                <= d.len() || verified_to == start) && mcus == st.mcus,
            Err(_) => false,
        },
{
    let due = if interval > 0 && st.since == interval {
        restarted(d, interval, st)
    } else {
        Ok(st)
    };
    run_stays_inside(d, st.start);
    if let Ok(at) = due {
        let run = run_from(d, at.start);
        run_stays_inside(d, at.start);
        mcu_fetches_inside(lanes, run, lim, 0, 0, at.p, at.fetched, at.preds);
        if interval > 0 && st.since == interval {
            assert((st.restarts + 1) * interval == st.restarts * interval + interval)
                by (nonlinear_arith);
        }
    }
}

proof fn scan_stays_on_course(
    d: Seq<u8>,
    start: int,
    lanes: Seq<Lane>,
    lim: Limits,
    interval: int,
    total: int,
    st: Progress,
    left: nat,
)
    requires
        0 <= start,
        on_course(d, start, interval, st),
        st.mcus + left == total,
    ensures
        match scan_from(d, lanes, lim, interval, total, st, left) {
            Decoded::Complete { end, mcus, restarts } => {
                &&& mcus == total
                &&& start <= end && end + 1 < d.len() && d[end] == 0xFF
                &&& d[end + 1] != 0 && d[end + 1] != 0xFF
                &&& interval > 0 && total > 0 ==> restarts * interval < total <= restarts * interval
                    + interval
                &&& interval <= 0 ==> restarts == 0
            },
            Decoded::Truncated { verified_to, mcus } => start <= verified_to && (verified_to
                <= d.len() || verified_to == start) && 0 <= mcus <= total,
            Decoded::Broken { verified_to, mcus, .. } => start <= verified_to && (verified_to
                <= d.len() || verified_to == start) && 0 <= mcus <= total,
            Decoded::NotApplicable => false,
        },
    decreases left,
{
    if left == 0 {
        run_stays_inside(d, st.start);
    } else {
        one_more_stays_on_course(d, start, lanes, lim, interval, st);
        if let Ok(next) = mcu_more(d, lanes, lim, interval, st) {
            scan_stays_on_course(d, start, lanes, lim, interval, total, next, (left - 1) as nat);
        }
    }
}

/// A scan that decodes whole holds exactly the MCUs its frame calls for,
/// passed one restart marker after every full interval but the last, and ends
/// at a marker: `FF` before neither a stuffed zero nor fill. One that does not claims no more than the data holds and no
/// MCU more than the frame has.
pub proof fn scans_add_up(
    d: Seq<u8>,
    start: int,
    frame: Frame,
    scan: Seq<ScanComponent>,
    tables: Tables,
    interval: int,
)
    requires
        0 <= start,
    ensures
        match decoded(d, start, frame, scan, tables, interval) {
            Decoded::Complete { end, mcus, restarts } => {
                let lanes = lanes_of(
                    frame.components@,
                    scan,
                    tables.dc@,
                    tables.ac@,
                    scan.len() as int,
                )->Some_0;
                &&& mcus == mcus_of(frame, lanes)
                &&& start <= end && end + 1 < d.len() && d[end] == 0xFF
                &&& d[end + 1] != 0 && d[end + 1] != 0xFF
                &&& interval > 0 ==> restarts == (mcus - 1) / interval
                &&& interval <= 0 ==> restarts == 0
            },
            Decoded::Truncated { verified_to, mcus } => start <= verified_to && (verified_to
                <= d.len() || verified_to == start),
            Decoded::Broken { verified_to, mcus, .. } => start <= verified_to && (verified_to
                <= d.len() || verified_to == start),
            Decoded::NotApplicable => true,
        },
{
    if frame.sequential_huffman && scan.len() > 0 && frame.components@.len() > 0 {
        if let Some(lanes) = lanes_of(
            frame.components@,
            scan,
            tables.dc@,
            tables.ac@,
            scan.len() as int,
        ) {
            let total = mcus_of(frame, lanes);
            mcus_are_counted(frame, scan, tables, scan.len() as int);
            if total != 0 {
                let st = Progress {
                    start,
                    p: 0,
                    fetched: 0,
                    preds: Seq::new(lanes.len(), |i: int| 0int),
                    mcus: 0,
                    restarts: 0,
                    since: 0,
                    verified: start,
                };
                assert(interval > 0 ==> 0 * interval == 0);
                scan_stays_on_course(
                    d,
                    start,
                    lanes,
                    limits(frame.precision as int),
                    interval,
                    total,
                    st,
                    total as nat,
                );
                if let Decoded::Complete { end, mcus, restarts } = decoded(
                    d,
                    start,
                    frame,
                    scan,
                    tables,
                    interval,
                ) {
                    if interval > 0 {
                        vstd::arithmetic::div_mod::lemma_fundamental_div_mod_converse(
                            mcus - 1,
                            interval,
                            restarts,
                            mcus - 1 - restarts * interval,
                        );
                    }
                }
            }
        }
    }
}

proof fn lanes_have_samples(frame: Frame, scan: Seq<ScanComponent>, tables: Tables, n: int)
    requires
        0 <= n <= scan.len(),
    ensures
        lanes_of(frame.components@, scan, tables.dc@, tables.ac@, n) matches Some(lanes) ==> {
            &&& lanes.len() == n
            &&& forall|i: int| 0 <= i < n ==> (#[trigger] lanes[i]).h >= 0 && lanes[i].v >= 0
        },
    decreases n,
{
    if n > 0 {
        lanes_have_samples(frame, scan, tables, n - 1);
    }
}

proof fn ceil_div_counts(a: int, b: int)
    requires
        0 <= a,
        0 < b,
    ensures
        ceil_div(a, b) >= 0,
{
    lemma_div_pos_is_pos(a + b - 1, b);
}

proof fn mcus_are_counted(frame: Frame, scan: Seq<ScanComponent>, tables: Tables, n: int)
    requires
        0 < n <= scan.len(),
    ensures
        lanes_of(frame.components@, scan, tables.dc@, tables.ac@, n) matches Some(lanes)
            ==> mcus_of(frame, lanes) >= 0,
{
    lanes_have_samples(frame, scan, tables, n);
    if let Some(lanes) = lanes_of(frame.components@, scan, tables.dc@, tables.ac@, n) {
        let hm = hmax(frame.components@, frame.components@.len() as int);
        let vm = vmax(frame.components@, frame.components@.len() as int);
        sampling_bounds(frame.components@, frame.components@.len() as int);
        if lanes.len() == 1 {
            let w = frame.width * lanes[0].h;
            let h = frame.height * lanes[0].v;
            assert(w >= 0) by (nonlinear_arith)
                requires
                    lanes[0].h >= 0,
                    w == frame.width * lanes[0].h,
            ;
            assert(h >= 0) by (nonlinear_arith)
                requires
                    lanes[0].v >= 0,
                    h == frame.height * lanes[0].v,
            ;
            ceil_div_counts(w, hm);
            ceil_div_counts(h, vm);
            ceil_div_counts(ceil_div(w, hm), 8);
            ceil_div_counts(ceil_div(h, vm), 8);
            lemma_mul_nonnegative(ceil_div(ceil_div(w, hm), 8), ceil_div(ceil_div(h, vm), 8));
        } else {
            ceil_div_counts(frame.width as int, 8 * hm);
            ceil_div_counts(frame.height as int, 8 * vm);
            lemma_mul_nonnegative(
                ceil_div(frame.width as int, 8 * hm),
                ceil_div(frame.height as int, 8 * vm),
            );
        }
    }
}

} // verus!
