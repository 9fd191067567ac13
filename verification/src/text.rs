//! Building text whose exact characters a contract can state.

use vstd::prelude::*;
use vstd::string::*;

verus! {

/// The decimal digit for `d`, for `d` below ten.
pub open spec fn digit(d: int) -> char {
    if d == 0 {
        '0'
    } else if d == 1 {
        '1'
    } else if d == 2 {
        '2'
    } else if d == 3 {
        '3'
    } else if d == 4 {
        '4'
    } else if d == 5 {
        '5'
    } else if d == 6 {
        '6'
    } else if d == 7 {
        '7'
    } else if d == 8 {
        '8'
    } else {
        '9'
    }
}

/// The upper-case hexadecimal digit for `d`, for `d` below sixteen.
pub open spec fn hex_digit(d: int) -> char {
    if d < 10 {
        digit(d)
    } else if d == 10 {
        'A'
    } else if d == 11 {
        'B'
    } else if d == 12 {
        'C'
    } else if d == 13 {
        'D'
    } else if d == 14 {
        'E'
    } else {
        'F'
    }
}

/// `n` in decimal, without leading zeros.
pub open spec fn dec(n: int) -> Seq<char>
    decreases n,
{
    if n < 10 {
        seq![digit(n)]
    } else {
        dec(n / 10).push(digit(n % 10))
    }
}

/// `n` in decimal, with its sign where it is negative.
pub open spec fn signed_dec(n: int) -> Seq<char> {
    if n < 0 {
        "-"@ + dec(-n)
    } else {
        dec(n)
    }
}

/// `n` in upper-case hexadecimal on exactly `width` digits.
pub open spec fn hex(n: int, width: nat) -> Seq<char>
    decreases width,
{
    if width == 0 {
        Seq::empty()
    } else {
        hex(n / 16, (width - 1) as nat).push(hex_digit(n % 16))
    }
}

/// `c` repeated `n` times.
pub open spec fn repeated(c: char, n: nat) -> Seq<char> {
    Seq::new(n, |i: int| c)
}

/// A value that evidence and messages can carry.
pub trait Shown {
    /// Its text.
    spec fn shown(&self) -> Seq<char>;

    fn show(&self) -> (r: String)
        ensures
            r@ == self.shown(),
    ;
}

fn digit_text(d: u64) -> (r: &'static str)
    requires
        d < 10,
    ensures
        r@ == seq![digit(d as int)],
{
    proof {
        reveal_strlit("0");
        reveal_strlit("1");
        reveal_strlit("2");
        reveal_strlit("3");
        reveal_strlit("4");
        reveal_strlit("5");
        reveal_strlit("6");
        reveal_strlit("7");
        reveal_strlit("8");
        reveal_strlit("9");
    }
    if d == 0 {
        "0"
    } else if d == 1 {
        "1"
    } else if d == 2 {
        "2"
    } else if d == 3 {
        "3"
    } else if d == 4 {
        "4"
    } else if d == 5 {
        "5"
    } else if d == 6 {
        "6"
    } else if d == 7 {
        "7"
    } else if d == 8 {
        "8"
    } else {
        "9"
    }
}

fn hex_digit_text(d: u64) -> (r: &'static str)
    requires
        d < 16,
    ensures
        r@ == seq![hex_digit(d as int)],
{
    proof {
        reveal_strlit("A");
        reveal_strlit("B");
        reveal_strlit("C");
        reveal_strlit("D");
        reveal_strlit("E");
        reveal_strlit("F");
    }
    if d < 10 {
        digit_text(d)
    } else if d == 10 {
        "A"
    } else if d == 11 {
        "B"
    } else if d == 12 {
        "C"
    } else if d == 13 {
        "D"
    } else if d == 14 {
        "E"
    } else {
        "F"
    }
}

/// `n` in decimal.
pub fn decimal(n: u64) -> (r: String)
    ensures
        r@ == dec(n as int),
    decreases n,
{
    if n < 10 {
        digit_text(n).to_owned()
    } else {
        let mut s = decimal(n / 10);
        s.append(digit_text(n % 10));
        assert(s@ =~= dec(n as int));
        s
    }
}

/// `n` in decimal, with its sign where it is negative.
pub fn signed_decimal(n: i64) -> (r: String)
    ensures
        r@ == signed_dec(n as int),
{
    if n < 0 {
        cat2("-", decimal((0 - n as i128) as u64).as_str())
    } else {
        decimal(n as u64)
    }
}

/// `n` in upper-case hexadecimal, zero-padded to `width` digits.
pub fn hexadecimal(n: u64, width: usize) -> (r: String)
    ensures
        r@ == hex(n as int, width as nat),
    decreases width,
{
    if width == 0 {
        String::new()
    } else {
        let mut s = hexadecimal(n / 16, width - 1);
        s.append(hex_digit_text(n % 16));
        assert(s@ =~= hex(n as int, width as nat));
        s
    }
}

impl Shown for u8 {
    open spec fn shown(&self) -> Seq<char> {
        dec(*self as int)
    }

    fn show(&self) -> (r: String) {
        decimal(*self as u64)
    }
}

impl Shown for u16 {
    open spec fn shown(&self) -> Seq<char> {
        dec(*self as int)
    }

    fn show(&self) -> (r: String) {
        decimal(*self as u64)
    }
}

impl Shown for u32 {
    open spec fn shown(&self) -> Seq<char> {
        dec(*self as int)
    }

    fn show(&self) -> (r: String) {
        decimal(*self as u64)
    }
}

impl Shown for u64 {
    open spec fn shown(&self) -> Seq<char> {
        dec(*self as int)
    }

    fn show(&self) -> (r: String) {
        decimal(*self)
    }
}

impl Shown for usize {
    open spec fn shown(&self) -> Seq<char> {
        dec(*self as int)
    }

    fn show(&self) -> (r: String) {
        decimal(*self as u64)
    }
}

/// `true` or `false`, spelled out.
pub open spec fn yes_no(b: bool) -> Seq<char> {
    if b {
        "true"@
    } else {
        "false"@
    }
}

impl Shown for bool {
    open spec fn shown(&self) -> Seq<char> {
        yes_no(*self)
    }

    fn show(&self) -> (r: String) {
        if *self {
            "true".to_owned()
        } else {
            "false".to_owned()
        }
    }
}

impl Shown for &str {
    open spec fn shown(&self) -> Seq<char> {
        self@
    }

    fn show(&self) -> (r: String) {
        (*self).to_owned()
    }
}

impl Shown for String {
    open spec fn shown(&self) -> Seq<char> {
        self@
    }

    fn show(&self) -> (r: String) {
        self.clone()
    }
}

/// The parts with `sep` between each two.
pub open spec fn joined(parts: Seq<Seq<char>>, sep: Seq<char>) -> Seq<char>
    decreases parts.len(),
{
    if parts.len() == 0 {
        Seq::empty()
    } else if parts.len() == 1 {
        parts[0]
    } else {
        joined(parts.drop_last(), sep) + sep + parts.last()
    }
}

/// The texts of a list.
pub open spec fn texts(v: Seq<String>) -> Seq<Seq<char>> {
    Seq::new(v.len(), |i: int| v[i]@)
}

/// Append a line.
pub fn say(lines: &mut Vec<String>, line: String)
    ensures
        texts(final(lines)@) == texts(old(lines)@).push(line@),
        final(lines)@ == old(lines)@.push(line),
{
    let ghost was = lines@;
    let ghost new = line@;
    lines.push(line);
    assert(texts(lines@) =~= texts(was).push(new));
}

/// Append a number of lines.
pub fn say_all(lines: &mut Vec<String>, more: &Vec<String>)
    ensures
        texts(final(lines)@) == texts(old(lines)@) + texts(more@),
{
    let ghost was = texts(lines@);
    let mut i: usize = 0;
    while i < more.len()
        invariant
            i <= more@.len(),
            texts(lines@) =~= was + texts(more@).subrange(0, i as int),
        decreases more@.len() - i,
    {
        say(lines, more[i].clone());
        i += 1;
    }
    assert(texts(more@).subrange(0, i as int) =~= texts(more@));
}

/// Each of the lines with `prefix` before it.
pub open spec fn prefixed(prefix: Seq<char>, lines: Seq<Seq<char>>) -> Seq<Seq<char>> {
    Seq::new(lines.len(), |i: int| prefix + lines[i])
}

/// Append a number of lines, each with `prefix` before it.
pub fn say_prefixed(lines: &mut Vec<String>, prefix: &str, more: &Vec<String>)
    ensures
        texts(final(lines)@) == texts(old(lines)@) + prefixed(prefix@, texts(more@)),
{
    let ghost was = texts(lines@);
    let mut i: usize = 0;
    while i < more.len()
        invariant
            i <= more@.len(),
            texts(lines@) =~= was + prefixed(prefix@, texts(more@)).subrange(0, i as int),
        decreases more@.len() - i,
    {
        say(lines, cat2(prefix, more[i].as_str()));
        i += 1;
    }
    let ghost all = prefixed(prefix@, texts(more@));
    assert(all.subrange(0, i as int) =~= all);
}

/// The parts with `sep` between each two.
pub fn join(parts: &Vec<String>, sep: &str) -> (r: String)
    ensures
        r@ == joined(texts(parts@), sep@),
{
    if parts.len() == 0 {
        return String::new();
    }
    let mut s = parts[0].clone();
    let mut i: usize = 1;
    assert(texts(parts@).subrange(0, 1) =~= seq![parts@[0]@]);
    while i < parts.len()
        invariant
            1 <= i <= parts@.len(),
            s@ == joined(texts(parts@).subrange(0, i as int), sep@),
        decreases parts@.len() - i,
    {
        proof {
            let upto = texts(parts@).subrange(0, i + 1);
            assert(upto.drop_last() =~= texts(parts@).subrange(0, i as int));
            assert(upto.last() == parts@[i as int]@);
        }
        s.append(sep);
        s.append(parts[i].as_str());
        i += 1;
    }
    assert(texts(parts@).subrange(0, i as int) =~= texts(parts@));
    s
}

/// ASCII bytes as text, one character each.
pub open spec fn ascii(bytes: Seq<u8>) -> Seq<char> {
    Seq::new(bytes.len(), |i: int| bytes[i] as char)
}

/// `String::push`: appends the given character to the end of the string.
pub assume_specification[ String::push ](s: &mut String, c: char)
    ensures
        final(s)@ == old(s)@.push(c),
;

/// ASCII bytes as text, one character each.
pub fn from_ascii(bytes: &[u8]) -> (r: String)
    ensures
        r@ == ascii(bytes@),
{
    let mut s = String::new();
    let mut i: usize = 0;
    assert(ascii(bytes@.subrange(0, 0)) =~= Seq::<char>::empty());
    while i < bytes.len()
        invariant
            i <= bytes@.len(),
            s@ == ascii(bytes@.subrange(0, i as int)),
        decreases bytes@.len() - i,
    {
        s.push(bytes[i] as char);
        assert(ascii(bytes@.subrange(0, i + 1)) =~= ascii(bytes@.subrange(0, i as int)).push(
            bytes@[i as int] as char,
        ));
        i += 1;
    }
    assert(bytes@.subrange(0, i as int) =~= bytes@);
    s
}

/// Bytes as text, with what is no UTF-8 replaced.
pub uninterp spec fn lossy(bytes: Seq<u8>) -> Seq<char>;

/// `String::from_utf8_lossy`: the text of the bytes, each ill-formed sequence
/// replaced by the replacement character. Which bytes that replaces is not
/// spelled out; the result is named.
#[verifier::external_body]
pub(crate) fn from_lossy(bytes: &[u8]) -> (r: String)
    ensures
        r@ == lossy(bytes@),
{
    String::from_utf8_lossy(bytes).into_owned()
}

/// Text in quotes, escaped as debug output escapes it.
pub uninterp spec fn quoted(s: Seq<char>) -> Seq<char>;

/// The `Debug` form of a string: in double quotes, with the escapes that
/// `str`'s `Debug` implementation uses. Those are not spelled out; the result
/// is named.
#[verifier::external_body]
pub(crate) fn quote(s: &str) -> (r: String)
    ensures
        r@ == quoted(s@),
{
    format!("{:?}", s)
}

/// Whether two texts are the same.
pub fn same_text(a: &str, b: &str) -> (r: bool)
    ensures
        r == (a@ == b@),
{
    a.to_owned() == b.to_owned()
}

/// Whether a character is white space.
pub open spec fn white(c: char) -> bool {
    ||| '\u{9}' <= c <= '\u{D}'
    ||| c == ' '
    ||| c == '\u{85}'
    ||| c == '\u{A0}'
    ||| c == '\u{1680}'
    ||| '\u{2000}' <= c <= '\u{200A}'
    ||| c == '\u{2028}'
    ||| c == '\u{2029}'
    ||| c == '\u{202F}'
    ||| c == '\u{205F}'
    ||| c == '\u{3000}'
}

/// Where the white space at the start of `s` ends, looking from `i` on.
pub open spec fn past_white(s: Seq<char>, i: int) -> int
    decreases s.len() - i,
{
    if 0 <= i < s.len() && white(s[i]) {
        past_white(s, i + 1)
    } else {
        i
    }
}

/// Where the white space at the end of `s` begins, looking back from `i`.
pub open spec fn before_white(s: Seq<char>, i: int) -> int
    decreases i,
{
    if 0 < i <= s.len() && white(s[i - 1]) {
        before_white(s, i - 1)
    } else {
        i
    }
}

/// `s` without the white space at its end.
pub open spec fn end_trimmed(s: Seq<char>) -> Seq<char> {
    s.subrange(0, before_white(s, s.len() as int))
}

/// `s` without the white space at its start and at its end.
pub open spec fn trimmed(s: Seq<char>) -> Seq<char> {
    let t = end_trimmed(s);
    t.subrange(past_white(t, 0), t.len() as int)
}

fn is_white(c: char) -> (r: bool)
    ensures
        r == white(c),
{
    ('\u{9}' <= c && c <= '\u{D}') || c == ' ' || c == '\u{85}' || c == '\u{A0}' || c == '\u{1680}'
        || ('\u{2000}' <= c && c <= '\u{200A}') || c == '\u{2028}' || c == '\u{2029}' || c
        == '\u{202F}' || c == '\u{205F}' || c == '\u{3000}'
}

/// `s` without the white space at its end.
pub fn trim_end(s: &str) -> (r: &str)
    ensures
        r@ == end_trimmed(s@),
{
    let n: usize = s.unicode_len();
    let mut i: usize = n;
    while i > 0 && is_white(s.get_char(i - 1))
        invariant
            i <= n == s@.len(),
            before_white(s@, n as int) == before_white(s@, i as int),
        decreases i,
    {
        i -= 1;
    }
    s.substring_char(0, i)
}

/// `s` without the white space at its start and at its end.
pub fn trim(s: &str) -> (r: &str)
    ensures
        r@ == trimmed(s@),
{
    let t: &str = trim_end(s);
    let n: usize = t.unicode_len();
    let mut i: usize = 0;
    while i < n && is_white(t.get_char(i))
        invariant
            i <= n == t@.len(),
            past_white(t@, 0) == past_white(t@, i as int),
        decreases n - i,
    {
        i += 1;
    }
    t.substring_char(i, n)
}

/// The characters of a text, one by one.
pub fn letters(s: &str) -> (r: Vec<char>)
    ensures
        r@ == s@,
{
    broadcast use vstd::string::group_string_axioms;

    let mut v: Vec<char> = Vec::new();
    for c in it: s.chars()
        invariant
            v@ == it.seq().subrange(0, it.index() as int),
            it.seq() == s@,
    {
        assert(it.seq().subrange(0, it.index() + 1) =~= it.seq().subrange(
            0,
            it.index() as int,
        ).push(c));
        v.push(c);
    }
    assert(s@.subrange(0, s@.len() as int) =~= s@);
    v
}

/// The first `n` characters of a text, or all of it where it is shorter.
pub open spec fn cut(s: Seq<char>, n: int) -> Seq<char> {
    if s.len() <= n {
        s
    } else {
        s.subrange(0, n)
    }
}

/// The first `n` characters of a text.
pub fn take(s: &str, n: usize) -> (r: &str)
    ensures
        r@ == cut(s@, n as int),
{
    if s.unicode_len() <= n {
        s
    } else {
        s.substring_char(0, n)
    }
}

/// A letter from A to Z in its lower case; any other character as it is.
pub open spec fn lower_letter(c: char) -> char {
    if 'A' <= c <= 'Z' {
        ((c as int) + 32) as char
    } else {
        c
    }
}

/// A text with the letters A to Z in lower case.
pub open spec fn ascii_lower(s: Seq<char>) -> Seq<char> {
    Seq::new(s.len(), |i: int| lower_letter(s[i]))
}

/// A text with the letters A to Z in lower case.
pub fn to_ascii_lower(s: &str) -> (r: String)
    ensures
        r@ == ascii_lower(s@),
{
    let from: Vec<char> = letters(s);
    let mut to = String::new();
    let mut i: usize = 0;
    while i < from.len()
        invariant
            i <= from@.len(),
            from@ == s@,
            to@ =~= ascii_lower(s@).subrange(0, i as int),
        decreases from@.len() - i,
    {
        let c: char = from[i];
        if 'A' <= c && c <= 'Z' {
            to.push((c as u8 + 32) as char);
        } else {
            to.push(c);
        }
        i += 1;
    }
    assert(ascii_lower(s@).subrange(0, i as int) =~= ascii_lower(s@));
    to
}

/// A text in lower case, by Unicode's rules.
pub uninterp spec fn lowered(s: Seq<char>) -> Seq<char>;

/// `str::to_lowercase`: the lower-case equivalent of the text. Unicode's tables
/// are not spelled out; the result is named.
#[verifier::external_body]
pub(crate) fn to_lower(s: &str) -> (r: String)
    ensures
        r@ == lowered(s@),
{
    s.to_lowercase()
}

/// Whether `needle` stands somewhere in `hay`.
pub open spec fn holds(hay: Seq<char>, needle: Seq<char>) -> bool {
    exists|i: int| #[trigger] stands(hay, needle, i)
}

/// Whether `needle` stands in `hay` at `i`.
pub open spec fn stands(hay: Seq<char>, needle: Seq<char>, i: int) -> bool {
    &&& 0 <= i
    &&& i + needle.len() <= hay.len()
    &&& hay.subrange(i, i + needle.len()) == needle
}

/// Whether `needle` stands somewhere in `hay`.
pub fn contains(hay: &str, needle: &str) -> (r: bool)
    ensures
        r == holds(hay@, needle@),
{
    let h: Vec<char> = letters(hay);
    let n: Vec<char> = letters(needle);
    if n.len() > h.len() {
        return false;
    }
    let mut i: usize = 0;
    while i <= h.len() - n.len()
        invariant
            h@ == hay@,
            n@ == needle@,
            n@.len() <= h@.len(),
            i <= h@.len() - n@.len() + 1,
            forall|k: int| 0 <= k < i ==> !#[trigger] stands(hay@, needle@, k),
        decreases h@.len() + 1 - i,
    {
        let mut k: usize = 0;
        while k < n.len() && h[i + k] == n[k]
            invariant
                k <= n@.len(),
                i + n.len() <= h.len(),
                forall|j: int| 0 <= j < k ==> h@[i + j] == n@[j],
            decreases n@.len() - k,
        {
            k += 1;
        }
        if k == n.len() {
            assert(hay@.subrange(i as int, i + needle@.len()) =~= needle@);
            assert(stands(hay@, needle@, i as int));
            return true;
        }
        proof {
            if stands(hay@, needle@, i as int) {
                assert(hay@.subrange(i as int, i + needle@.len())[k as int] == h@[i + k]);
            }
        }
        i += 1;
    }
    assert forall|k: int| !#[trigger] stands(hay@, needle@, k) by {}
    false
}

/// Whether `a` comes before `b`, comparing from the `i`-th character on: at the
/// first difference the smaller character decides, and a text comes before
/// every longer one that begins with it.
pub open spec fn precedes(a: Seq<char>, b: Seq<char>, i: int) -> bool
    decreases a.len() - i,
{
    if i < 0 || i >= b.len() {
        false
    } else if i >= a.len() {
        true
    } else if a[i] == b[i] {
        precedes(a, b, i + 1)
    } else {
        a[i] < b[i]
    }
}

/// Whether `a` comes before `b`.
pub open spec fn sooner(a: Seq<char>, b: Seq<char>) -> bool {
    precedes(a, b, 0)
}

proof fn precedes_is_an_order(a: Seq<char>, b: Seq<char>, c: Seq<char>, i: int)
    requires
        0 <= i <= a.len(),
        i <= b.len(),
        i <= c.len(),
    ensures
        !precedes(a, a, i),
        precedes(a, b, i) ==> !precedes(b, a, i),
        precedes(a, b, i) && precedes(b, c, i) ==> precedes(a, c, i),
        !precedes(a, b, i) && !precedes(b, a, i) ==> a.subrange(i, a.len() as int) == b.subrange(
            i,
            b.len() as int,
        ),
    decreases a.len() - i,
{
    if i < a.len() && i < b.len() {
        if a[i] == b[i] {
            let d = if i < c.len() {
                c
            } else {
                a
            };
            precedes_is_an_order(a, b, d, i + 1);
            if a.subrange(i + 1, a.len() as int) == b.subrange(i + 1, b.len() as int) {
                let x = a.subrange(i, a.len() as int);
                let y = b.subrange(i, b.len() as int);
                assert(x =~= seq![a[i]] + a.subrange(i + 1, a.len() as int));
                assert(y =~= seq![b[i]] + b.subrange(i + 1, b.len() as int));
            }
        } else {
            precedes_is_an_order(a, a, a, i + 1);
        }
    } else if i < a.len() {
        precedes_is_an_order(a, a, a, i + 1);
    } else if i == b.len() {
        assert(a.subrange(i, a.len() as int) =~= b.subrange(i, b.len() as int));
    }
}

/// The order of texts is strict and total: no text comes before itself, of two
/// different ones exactly one comes first, and what comes before comes before
/// all that follows.
pub proof fn texts_are_ordered(a: Seq<char>, b: Seq<char>, c: Seq<char>)
    ensures
        !sooner(a, a),
        sooner(a, b) ==> !sooner(b, a),
        sooner(a, b) && sooner(b, c) ==> sooner(a, c),
        !sooner(a, b) && !sooner(b, a) ==> a == b,
{
    precedes_is_an_order(a, b, c, 0);
    assert(a.subrange(0, a.len() as int) =~= a);
    assert(b.subrange(0, b.len() as int) =~= b);
}

/// Whether `a` comes before `b`.
pub fn comes_first(a: &str, b: &str) -> (r: bool)
    ensures
        r == sooner(a@, b@),
{
    let x: Vec<char> = letters(a);
    let y: Vec<char> = letters(b);
    let mut i: usize = 0;
    while i < x.len() && i < y.len() && x[i] == y[i]
        invariant
            x@ == a@,
            y@ == b@,
            i <= x@.len(),
            i <= y@.len(),
            sooner(a@, b@) == precedes(a@, b@, i as int),
        decreases x@.len() - i,
    {
        i += 1;
    }
    if i >= y.len() {
        false
    } else if i >= x.len() {
        true
    } else {
        x[i] < y[i]
    }
}

/// The lower-case hexadecimal digit for `d`, for `d` below sixteen.
pub open spec fn low_digit(d: int) -> char {
    lower_letter(hex_digit(d))
}

/// `n` in lower-case hexadecimal, without leading zeros.
pub open spec fn low_hex(n: int) -> Seq<char>
    decreases n,
{
    if n < 16 {
        seq![low_digit(n)]
    } else {
        low_hex(n / 16).push(low_digit(n % 16))
    }
}

/// `s` with zeros before it, up to `w` characters.
pub open spec fn zero_padded(s: Seq<char>, w: int) -> Seq<char> {
    if s.len() >= w {
        s
    } else {
        repeated('0', (w - s.len()) as nat) + s
    }
}

fn low_digit_char(d: u64) -> (r: char)
    requires
        d < 16,
    ensures
        r == low_digit(d as int),
{
    if d < 10 {
        (48 + d as u8) as char
    } else {
        (87 + d as u8) as char
    }
}

/// `n` in lower-case hexadecimal.
pub fn low_hexadecimal(n: u64) -> (r: String)
    ensures
        r@ == low_hex(n as int),
    decreases n,
{
    if n < 16 {
        let mut s = String::new();
        s.push(low_digit_char(n));
        assert(s@ =~= seq![low_digit(n as int)]);
        s
    } else {
        let mut s = low_hexadecimal(n / 16);
        s.push(low_digit_char(n % 16));
        s
    }
}

/// `s` with zeros before it, up to `w` characters.
pub fn zeros_before(s: &str, w: usize) -> (r: String)
    ensures
        r@ == zero_padded(s@, w as int),
{
    let len: usize = s.unicode_len();
    let mut z = String::new();
    let mut i: usize = len;
    while i < w
        invariant
            len == s@.len(),
            len <= i,
            i <= w || i == len,
            z@ =~= repeated('0', (i - len) as nat),
        decreases w - i,
    {
        z.push('0');
        i += 1;
    }
    let r = cat2(z.as_str(), s);
    assert(r@ =~= zero_padded(s@, w as int));
    r
}

/// Two pieces joined.
pub fn cat2(a: &str, b: &str) -> (r: String)
    ensures
        r@ == a@ + b@,
{
    let mut s = a.to_owned();
    s.append(b);
    s
}

/// Three pieces joined.
pub fn cat3(a: &str, b: &str, c: &str) -> (r: String)
    ensures
        r@ == a@ + b@ + c@,
{
    let mut s = cat2(a, b);
    s.append(c);
    s
}

/// Four pieces joined.
pub fn cat4(a: &str, b: &str, c: &str, d: &str) -> (r: String)
    ensures
        r@ == a@ + b@ + c@ + d@,
{
    let mut s = cat3(a, b, c);
    s.append(d);
    s
}

/// Five pieces joined.
pub fn cat5(a: &str, b: &str, c: &str, d: &str, e: &str) -> (r: String)
    ensures
        r@ == a@ + b@ + c@ + d@ + e@,
{
    let mut s = cat4(a, b, c, d);
    s.append(e);
    s
}

/// Six pieces joined.
pub fn cat6(a: &str, b: &str, c: &str, d: &str, e: &str, f: &str) -> (r: String)
    ensures
        r@ == a@ + b@ + c@ + d@ + e@ + f@,
{
    let mut s = cat5(a, b, c, d, e);
    s.append(f);
    s
}

/// Seven pieces joined.
pub fn cat7(a: &str, b: &str, c: &str, d: &str, e: &str, f: &str, g: &str) -> (r: String)
    ensures
        r@ == a@ + b@ + c@ + d@ + e@ + f@ + g@,
{
    let mut s = cat6(a, b, c, d, e, f);
    s.append(g);
    s
}

} // verus!
