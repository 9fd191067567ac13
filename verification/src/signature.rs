//! The signature database.
//!
//! A signature is the bytes that identify a format, where they sit, how large
//! a file of that format may be, and which validator judges it. The database
//! is JSON, so that the set can be extended; one is built in.

use vstd::prelude::*;
use vstd::string::*;
use crate::bytes;
use crate::error::{CarveError, Result};
use crate::text;

verus! {

broadcast use bytes::slice_fits;

#[derive(Clone, Copy, PartialEq, Eq, Debug, Hash, Structural)]
pub enum Category {
    Image,
    Video,
    Audio,
    Document,
    Archive,
    Database,
    Other,
}

/// The category a name stands for; an unknown name is `Other`.
pub open spec fn category_named(s: Seq<char>) -> Category {
    if s == "image"@ {
        Category::Image
    } else if s == "video"@ {
        Category::Video
    } else if s == "audio"@ {
        Category::Audio
    } else if s == "document"@ {
        Category::Document
    } else if s == "archive"@ {
        Category::Archive
    } else if s == "database"@ {
        Category::Database
    } else {
        Category::Other
    }
}

impl Category {
    pub fn parse(s: &str) -> (r: Category)
        ensures
            r == category_named(s@),
    {
        if text::same_text(s, "image") {
            Category::Image
        } else if text::same_text(s, "video") {
            Category::Video
        } else if text::same_text(s, "audio") {
            Category::Audio
        } else if text::same_text(s, "document") {
            Category::Document
        } else if text::same_text(s, "archive") {
            Category::Archive
        } else if text::same_text(s, "database") {
            Category::Database
        } else {
            Category::Other
        }
    }

    /// The category's name.
    pub open spec fn name(self) -> Seq<char> {
        match self {
            Category::Image => "image"@,
            Category::Video => "video"@,
            Category::Audio => "audio"@,
            Category::Document => "document"@,
            Category::Archive => "archive"@,
            Category::Database => "database"@,
            Category::Other => "other"@,
        }
    }

    pub fn as_str(self) -> (r: &'static str)
        ensures
            r@ == self.name(),
    {
        match self {
            Category::Image => "image",
            Category::Video => "video",
            Category::Audio => "audio",
            Category::Document => "document",
            Category::Archive => "archive",
            Category::Database => "database",
            Category::Other => "other",
        }
    }
}

/// A category's name stands for that category.
pub proof fn names_read_back(c: Category)
    ensures
        category_named(c.name()) == c,
{
    reveal_strlit("image");
    reveal_strlit("video");
    reveal_strlit("audio");
    reveal_strlit("document");
    reveal_strlit("archive");
    reveal_strlit("database");
    reveal_strlit("other");
    assert("image"@[0] == 'i' && "video"@[0] == 'v' && "audio"@[1] == 'u' && "document"@[0] == 'd'
        && "archive"@[1] == 'r' && "database"@[1] == 'a' && "document"@[1] == 'o' && "other"@[0]
        == 'o' && "audio"@[0] == 'a' && "archive"@[0] == 'a' && "database"@[0] == 'd');
}

/// One carvable format.
#[derive(Debug)]
pub struct Signature {
    pub id: String,
    pub ext: String,
    pub category: Category,
    /// Bytes that identify the format.
    pub header: Vec<u8>,
    /// Optional mask; a zero bit means "ignore". Same length as `header`.
    pub header_mask: Option<Vec<u8>>,
    /// Where the header sits relative to the start of the file. Non-zero for
    /// container formats like MP4, whose `ftyp` follows a 4-byte box size.
    pub header_offset: usize,
    pub footer: Option<Vec<u8>>,
    /// Hard ceiling on the carved length. Mandatory: a footerless format is
    /// ended by nothing else, so without a ceiling one spurious header would
    /// consume the rest of the volume.
    pub max_size: u64,
    /// Validator id, or `None` for header-match-only formats.
    pub validator: Option<String>,
    pub note: Option<String>,
}

/// The mathematical content of a [`Signature`].
#[verifier::ext_equal]
pub struct Format {
    pub id: Seq<char>,
    pub ext: Seq<char>,
    pub category: Category,
    pub header: Seq<u8>,
    pub header_mask: Option<Seq<u8>>,
    pub header_offset: nat,
    pub footer: Option<Seq<u8>>,
    pub max_size: int,
    pub validator: Option<Seq<char>>,
    pub note: Option<Seq<char>>,
}

/// An optional list of bytes.
pub open spec fn some_bytes(b: Option<Vec<u8>>) -> Option<Seq<u8>> {
    match b {
        Some(v) => Some(v@),
        None => None,
    }
}

/// An optional text.
pub open spec fn some_text(t: Option<String>) -> Option<Seq<char>> {
    match t {
        Some(s) => Some(s@),
        None => None,
    }
}

impl View for Signature {
    type V = Format;

    open spec fn view(&self) -> Format {
        Format {
            id: self.id@,
            ext: self.ext@,
            category: self.category,
            header: self.header@,
            header_mask: some_bytes(self.header_mask),
            header_offset: self.header_offset as nat,
            footer: some_bytes(self.footer),
            max_size: self.max_size as int,
            validator: some_text(self.validator),
            note: some_text(self.note),
        }
    }
}

fn copy_bytes(v: &Vec<u8>) -> (r: Vec<u8>)
    ensures
        r@ == v@,
{
    let r = v.clone();
    assert(r@ =~= v@);
    r
}

impl Clone for Signature {
    fn clone(&self) -> (r: Self)
        ensures
            r@ == self@,
    {
        Signature {
            id: self.id.clone(),
            ext: self.ext.clone(),
            category: self.category,
            header: copy_bytes(&self.header),
            header_mask: match &self.header_mask {
                Some(m) => Some(copy_bytes(m)),
                None => None,
            },
            header_offset: self.header_offset,
            footer: match &self.footer {
                Some(f) => Some(copy_bytes(f)),
                None => None,
            },
            max_size: self.max_size,
            validator: match &self.validator {
                Some(v) => Some(v.clone()),
                None => None,
            },
            note: match &self.note {
                Some(n) => Some(n.clone()),
                None => None,
            },
        }
    }
}

/// How often a byte turns up in the places a carver scans; lower is rarer and
/// makes a better anchor. The two values that matter are the fill bytes: zero
/// is what a formatted drive's free space is made of, and `FF` is erased flash.
pub open spec fn cost(b: u8) -> int {
    if b == 0x00 || b == 0xFF {
        1000
    } else if b == 0x20 || b == 0x0A || b == 0x0D || b == 0x09 {
        100
    } else if 0x20 <= b <= 0x7E {
        10
    } else if 0x01 <= b <= 0x1F {
        5
    } else {
        1
    }
}

impl Format {
    /// How far into the file its header reaches.
    pub open spec fn span(self) -> int {
        (self.header_offset + self.header.len()) as int
    }

    /// Whether byte `i` of the header agrees with `b`. Bits a mask clears do
    /// not count, nor do bytes past its end.
    pub open spec fn agrees(self, i: int, b: u8) -> bool {
        match self.header_mask {
            None => b == self.header[i],
            Some(m) => i < m.len() ==> b & m[i] == self.header[i] & m[i],
        }
    }

    /// Whether a file of this format can begin at `at` in `hay`.
    pub open spec fn stands(self, hay: Seq<u8>, at: int) -> bool {
        &&& at + self.span() <= hay.len()
        &&& forall|i: int|
            0 <= i < self.header.len() ==> #[trigger] self.agrees(
                i,
                hay[at + self.header_offset + i],
            )
    }

    /// Whether byte `i` of the header is fully specified, and so can be
    /// searched for.
    pub open spec fn exact(self, i: int) -> bool {
        &&& 0 <= i < self.header.len()
        &&& match self.header_mask {
            None => true,
            Some(m) => i < m.len() && m[i] == 0xFF,
        }
    }

    /// Whether byte `i` is the anchor: the rarest of the bytes that can be
    /// searched for, and the earliest of those.
    pub open spec fn anchored_at(self, i: int) -> bool {
        &&& self.exact(i)
        &&& forall|j: int| #[trigger]
            self.exact(j) ==> cost(self.header[i]) <= cost(self.header[j]) && (j < i ==> cost(
                self.header[i],
            ) < cost(self.header[j]))
    }

    /// The byte the scanner searches for, and its offset from the file start;
    /// `None` where no byte of the header can be searched for.
    pub open spec fn anchor(self) -> Option<(u8, int)> {
        if exists|i: int| self.anchored_at(i) {
            let i = choose|i: int| self.anchored_at(i);
            Some((self.header[i], self.header_offset + i))
        } else {
            None
        }
    }
}

fn commonness(b: u8) -> (r: u32)
    ensures
        r == cost(b),
{
    if b == 0x00 || b == 0xFF {
        1000
    } else if b == 0x20 || b == 0x0A || b == 0x0D || b == 0x09 {
        100
    } else if 0x20 <= b && b <= 0x7E {
        10
    } else if 0x01 <= b && b <= 0x1F {
        5
    } else {
        1
    }
}

/// There is one anchor at most.
pub proof fn the_anchor_is_one(s: Format, i: int, j: int)
    requires
        s.anchored_at(i),
        s.anchored_at(j),
    ensures
        i == j,
{
    assert(s.exact(i) && s.exact(j));
}

/// A fill byte is an anchor only where every byte that can be searched for is
/// one.
pub proof fn no_avoidable_fill_byte(s: Format, i: int, j: int)
    requires
        s.anchored_at(i),
        s.header[i] == 0x00 || s.header[i] == 0xFF,
        s.exact(j),
    ensures
        s.header[j] == 0x00 || s.header[j] == 0xFF,
{
    assert(cost(s.header[i]) <= cost(s.header[j]));
}

impl Signature {
    /// Whether the header's end can be counted in a `usize`, as it can for any
    /// header that fits in memory.
    pub open spec fn fits(self) -> bool {
        self@.span() <= usize::MAX
    }

    /// Does a file of this format begin where `window` does?
    ///
    /// `window` begins at the start of the candidate file, so the header offset
    /// is applied here.
    pub fn matches(&self, window: &[u8]) -> (r: bool)
        ensures
            r == self@.stands(window@, 0),
    {
        self.matches_at(window, 0)
    }

    /// Can a file of this format begin at `at` in `hay`?
    pub fn matches_at(&self, hay: &[u8], at: usize) -> (r: bool)
        requires
            at <= hay@.len(),
        ensures
            r == self@.stands(hay@, at as int),
    {
        let n: usize = self.header.len();
        let room: usize = hay.len() - at;
        if room < n || room - n < self.header_offset {
            return false;
        }
        let start: usize = at + self.header_offset;
        let mut i: usize = 0;
        while i < n
            invariant
                i <= n == self.header@.len(),
                start == at + self.header_offset,
                start + n <= hay@.len(),
                forall|j: int|
                    0 <= j < i ==> #[trigger] self@.agrees(j, hay@[at + self.header_offset + j]),
            decreases n - i,
        {
            let got: u8 = hay[start + i];
            let agrees: bool = match &self.header_mask {
                None => got == self.header[i],
                Some(m) => i >= m.len() || (got & m[i]) == (self.header[i] & m[i]),
            };
            assert(agrees == self@.agrees(i as int, got));
            if !agrees {
                assert(!self@.agrees(i as int, hay@[at + self@.header_offset + i]));
                return false;
            }
            i += 1;
        }
        true
    }

    /// Whether the end of the header can be counted from the file's start.
    pub fn is_countable(&self) -> (r: bool)
        ensures
            r == self.fits(),
    {
        self.header_offset <= usize::MAX - self.header.len()
    }

    fn is_exact(&self, i: usize) -> (r: bool)
        requires
            i < self.header@.len(),
        ensures
            r == self@.exact(i as int),
    {
        match &self.header_mask {
            None => true,
            Some(m) => i < m.len() && m[i] == 0xFF,
        }
    }

    /// The byte the scanner searches for, and its offset from the file start:
    /// the header's rarest byte, not its first. Masked bytes are skipped, since
    /// a byte that is only partly specified cannot be searched for exactly.
    pub fn prefilter_byte(&self) -> (r: Option<(u8, usize)>)
        requires
            self.fits(),
        ensures
            match r {
                Some((b, off)) => self@.anchor() == Some((b, off as int)) && off < self@.span(),
                None => self@.anchor() is None,
            },
    {
        let mut best: Option<usize> = None;
        let mut i: usize = 0;
        while i < self.header.len()
            invariant
                i <= self.header@.len(),
                match best {
                    None => forall|j: int| 0 <= j < i ==> !#[trigger] self@.exact(j),
                    Some(b) => {
                        &&& b < i
                        &&& self@.exact(b as int)
                        &&& forall|j: int|
                            0 <= j < i && #[trigger] self@.exact(j) ==> cost(
                                self@.header[b as int],
                            ) <= cost(self@.header[j]) && (j < b ==> cost(self@.header[b as int])
                                < cost(self@.header[j]))
                    },
                },
            decreases self.header@.len() - i,
        {
            if self.is_exact(i) {
                best = match best {
                    None => Some(i),
                    Some(b) => if commonness(self.header[i]) < commonness(self.header[b]) {
                        Some(i)
                    } else {
                        Some(b)
                    },
                };
            }
            i += 1;
        }
        match best {
            None => {
                assert forall|k: int| !self@.anchored_at(k) by {
                    if self@.anchored_at(k) {
                        assert(self@.exact(k));
                    }
                }
                None
            },
            Some(b) => {
                proof {
                    assert(self@.anchored_at(b as int));
                    the_anchor_is_one(
                        self@,
                        b as int,
                        choose|i: int| self@.anchored_at(i),
                    );
                }
                Some((self.header[b], self.header_offset + b))
            },
        }
    }
}

// ---------------------------------------------------------------------------
// The database
// ---------------------------------------------------------------------------

/// One entry of a database file, each field where it has the right type.
pub struct Entry {
    pub id: Option<String>,
    pub ext: Option<String>,
    pub category: Option<String>,
    pub header: Option<String>,
    pub header_mask: Option<String>,
    pub header_off: Option<u64>,
    pub footer: Option<String>,
    pub max_size: Option<u64>,
    pub validator: Option<String>,
    pub note: Option<String>,
}

/// The mathematical content of an [`Entry`].
#[verifier::ext_equal]
pub struct Row {
    pub id: Option<Seq<char>>,
    pub ext: Option<Seq<char>>,
    pub category: Option<Seq<char>>,
    pub header: Option<Seq<char>>,
    pub header_mask: Option<Seq<char>>,
    pub header_off: Option<u64>,
    pub footer: Option<Seq<char>>,
    pub max_size: Option<u64>,
    pub validator: Option<Seq<char>>,
    pub note: Option<Seq<char>>,
}

impl View for Entry {
    type V = Row;

    open spec fn view(&self) -> Row {
        Row {
            id: some_text(self.id),
            ext: some_text(self.ext),
            category: some_text(self.category),
            header: some_text(self.header),
            header_mask: some_text(self.header_mask),
            header_off: self.header_off,
            footer: some_text(self.footer),
            max_size: self.max_size,
            validator: some_text(self.validator),
            note: some_text(self.note),
        }
    }
}

/// The entries of a file.
pub open spec fn rows(entries: Seq<Entry>) -> Seq<Row> {
    Seq::new(entries.len(), |i: int| entries[i]@)
}

/// The formats of a database.
pub open spec fn formats(sigs: Seq<Signature>) -> Seq<Format> {
    Seq::new(sigs.len(), |i: int| sigs[i]@)
}

/// The value of a hexadecimal digit, in either case.
pub open spec fn digit_value(c: char) -> Option<int> {
    if '0' <= c <= '9' {
        Some(c as int - '0' as int)
    } else if 'a' <= c <= 'f' {
        Some(c as int - 'a' as int + 10)
    } else if 'A' <= c <= 'F' {
        Some(c as int - 'A' as int + 10)
    } else {
        None
    }
}

/// The value of two hexadecimal digits.
pub open spec fn pair_value(a: char, b: char) -> Option<int> {
    match (digit_value(a), digit_value(b)) {
        (Some(x), Some(y)) => Some(16 * x + y),
        _ => None,
    }
}

/// Whether `t` is one or more pairs of hexadecimal digits.
pub open spec fn is_hex(t: Seq<char>) -> bool {
    &&& t.len() > 0
    &&& t.len() % 2 == 0
    &&& forall|i: int| 0 <= i < t.len() / 2 ==> (#[trigger] pair_value(t[2 * i], t[2 * i + 1])) is Some
}

/// The bytes that a hexadecimal text spells, white space around it aside.
pub open spec fn hex_bytes(s: Seq<char>) -> Option<Seq<u8>> {
    let t = text::trimmed(s);
    if is_hex(t) {
        Some(
            Seq::new(
                t.len() / 2,
                |i: int| pair_value(t[2 * i], t[2 * i + 1])->Some_0 as u8,
            ),
        )
    } else {
        None
    }
}

/// A text that may be missing.
pub open spec fn text_or(t: Option<Seq<char>>, otherwise: Seq<char>) -> Seq<char> {
    match t {
        Some(s) => s,
        None => otherwise,
    }
}

/// The first entry before the `i`-th that has the same id, looking from the
/// `j`-th on.
pub open spec fn earlier(rows: Seq<Row>, i: int, j: int) -> Option<int>
    decreases i - j,
{
    if j >= i {
        None
    } else if rows[j].id == rows[i].id {
        Some(j)
    } else {
        earlier(rows, i, j + 1)
    }
}

/// The mask of an entry whose header is `header`: none, bytes, or what is
/// wrong with it.
pub open spec fn mask_of(r: Row, header: Seq<u8>) -> std::result::Result<
    Option<Seq<u8>>,
    Seq<char>,
> {
    match r.header_mask {
        None => Ok(None),
        Some(t) => match hex_bytes(t) {
            None => Err(r.id->Some_0 + ": header_mask is not valid hex"@),
            Some(m) => if m.len() != header.len() {
                Err(
                    r.id->Some_0 + ": header_mask is "@ + text::dec(m.len() as int)
                        + " bytes but header is "@ + text::dec(header.len() as int),
                )
            } else {
                Ok(Some(m))
            },
        },
    }
}

/// The format that the `i`-th entry describes, or what is wrong with it.
pub open spec fn format_of(rows: Seq<Row>, i: int) -> std::result::Result<Format, Seq<char>> {
    let r = rows[i];
    let header = hex_bytes(text_or(r.header, ""@));
    if r.id is None {
        Err("entry "@ + text::dec(i) + " has no id"@)
    } else if earlier(rows, i, 0) is Some {
        Err(
            "duplicate signature id "@ + text::quoted(r.id->Some_0) + " at entries "@ + text::dec(
                earlier(rows, i, 0)->Some_0,
            ) + " and "@ + text::dec(i),
        )
    } else if header is None {
        Err(r.id->Some_0 + ": header is not valid hex"@)
    } else {
        match mask_of(r, header->Some_0) {
            Err(e) => Err(e),
            Ok(header_mask) => if r.max_size is None {
                Err(
                    r.id->Some_0
                        + ": max_size is mandatory. A footerless format has no other terminator, so without it one spurious header would swallow the rest of the volume."@,
                )
            } else if r.max_size == Some(0u64) {
                Err(r.id->Some_0 + ": max_size must be greater than zero"@)
            } else {
                Ok(
                    Format {
                        id: r.id->Some_0,
                        ext: text_or(r.ext, "bin"@),
                        category: category_named(text_or(r.category, "other"@)),
                        header: header->Some_0,
                        header_mask,
                        header_offset: match r.header_off {
                            Some(n) => (n as usize) as nat,
                            None => 0,
                        },
                        footer: match r.footer {
                            Some(t) => hex_bytes(t),
                            None => None,
                        },
                        max_size: r.max_size->Some_0 as int,
                        validator: if r.validator == Some("none"@) {
                            None
                        } else {
                            r.validator
                        },
                        note: r.note,
                    },
                )
            },
        }
    }
}

/// The formats of the first `n` entries, or what is wrong with the first that
/// is wrong.
pub open spec fn formats_upto(rows: Seq<Row>, n: int) -> std::result::Result<
    Seq<Format>,
    Seq<char>,
>
    decreases n,
{
    if n <= 0 {
        Ok(Seq::empty())
    } else {
        match formats_upto(rows, n - 1) {
            Err(e) => Err(e),
            Ok(before) => match format_of(rows, n - 1) {
                Err(e) => Err(e),
                Ok(f) => Ok(before.push(f)),
            },
        }
    }
}

/// The database that the entries make.
pub open spec fn loaded(rows: Seq<Row>) -> std::result::Result<Seq<Format>, Seq<char>> {
    match formats_upto(rows, rows.len() as int) {
        Err(e) => Err(e),
        Ok(formats) => if formats.len() == 0 {
            Err("the signature database is empty"@)
        } else {
            Ok(formats)
        },
    }
}

fn hex_digit(c: char) -> (r: Option<u8>)
    ensures
        match r {
            Some(v) => digit_value(c) == Some(v as int) && v < 16,
            None => digit_value(c) is None,
        },
{
    if '0' <= c && c <= '9' {
        Some((c as u32 - '0' as u32) as u8)
    } else if 'a' <= c && c <= 'f' {
        Some((c as u32 - 'a' as u32 + 10) as u8)
    } else if 'A' <= c && c <= 'F' {
        Some((c as u32 - 'A' as u32 + 10) as u8)
    } else {
        None
    }
}

fn pair(a: char, b: char) -> (r: Option<u8>)
    ensures
        match r {
            Some(v) => pair_value(a, b) == Some(v as int),
            None => pair_value(a, b) is None,
        },
{
    match (hex_digit(a), hex_digit(b)) {
        (Some(x), Some(y)) => Some(16 * x + y),
        _ => None,
    }
}

/// The bytes that a hexadecimal text spells.
pub fn parse_hex(s: &str) -> (r: Option<Vec<u8>>)
    ensures
        some_bytes(r) == hex_bytes(s@),
{
    let t: &str = text::trim(s);
    let n: usize = t.unicode_len();
    if n == 0 || n % 2 != 0 {
        return None;
    }
    let mut out: Vec<u8> = Vec::new();
    let mut i: usize = 0;
    while i < n / 2
        invariant
            i <= n / 2,
            n == t@.len(),
            n % 2 == 0,
            t@ == text::trimmed(s@),
            out@.len() == i,
            forall|j: int|
                0 <= j < i ==> (#[trigger] pair_value(t@[2 * j], t@[2 * j + 1])) == Some(
                    out@[j] as int,
                ),
        decreases n / 2 - i,
    {
        match pair(t.get_char(2 * i), t.get_char(2 * i + 1)) {
            Some(v) => {
                out.push(v);
            },
            None => {
                assert(pair_value(t@[2 * (i as int)], t@[2 * (i as int) + 1]) is None);
                return None;
            },
        }
        i += 1;
    }
    assert(is_hex(t@));
    assert(out@ =~= hex_bytes(s@)->Some_0);
    Some(out)
}

fn wrong(detail: String) -> (r: CarveError)
    ensures
        r matches CarveError::SignatureDb { detail: d } && d@ == detail@,
{
    CarveError::SignatureDb { detail }
}

fn clone_text(t: &Option<String>) -> (r: Option<String>)
    ensures
        some_text(r) == some_text(*t),
{
    match t {
        Some(s) => Some(s.clone()),
        None => None,
    }
}

fn same_id(a: &Option<String>, b: &str) -> (r: bool)
    ensures
        r == (some_text(*a) == Some(b@)),
{
    match a {
        Some(s) => text::same_text(s.as_str(), b),
        None => false,
    }
}

/// The mask of an entry.
fn read_mask(e: &Entry, id: &str, header: &Vec<u8>) -> (r: std::result::Result<
    Option<Vec<u8>>,
    CarveError,
>)
    requires
        e@.id == Some(id@),
    ensures
        match r {
            Ok(m) => mask_of(e@, header@) == Ok::<Option<Seq<u8>>, Seq<char>>(some_bytes(m)),
            Err(x) => x matches CarveError::SignatureDb { detail } && mask_of(e@, header@) == Err::<
                Option<Seq<u8>>,
                Seq<char>,
            >(detail@),
        },
{
    match &e.header_mask {
        None => Ok(None),
        Some(t) => match parse_hex(t.as_str()) {
            None => Err(wrong(text::cat2(id, ": header_mask is not valid hex"))),
            Some(m) => if m.len() != header.len() {
                Err(
                    wrong(
                        text::cat5(
                            id,
                            ": header_mask is ",
                            text::decimal(m.len() as u64).as_str(),
                            " bytes but header is ",
                            text::decimal(header.len() as u64).as_str(),
                        ),
                    ),
                )
            } else {
                Ok(Some(m))
            },
        },
    }
}

/// The first entry before the `i`-th that has the same id.
fn find_earlier(entries: &Vec<Entry>, i: usize, id: &str) -> (r: Option<usize>)
    requires
        i < entries@.len(),
        entries@[i as int]@.id == Some(id@),
    ensures
        match r {
            Some(j) => earlier(rows(entries@), i as int, 0) == Some(j as int),
            None => earlier(rows(entries@), i as int, 0) is None,
        },
{
    let ghost all = rows(entries@);
    let mut j: usize = 0;
    while j < i
        invariant
            j <= i < entries@.len(),
            all == rows(entries@),
            all[i as int].id == Some(id@),
            earlier(all, i as int, 0) == earlier(all, i as int, j as int),
        decreases i - j,
    {
        assert(all[j as int] == entries@[j as int]@);
        if same_id(&entries[j].id, id) {
            return Some(j);
        }
        j += 1;
    }
    None
}

/// The signature that the `i`-th entry describes.
fn read_entry(entries: &Vec<Entry>, i: usize) -> (r: std::result::Result<Signature, CarveError>)
    requires
        i < entries@.len(),
    ensures
        match r {
            Ok(s) => format_of(rows(entries@), i as int) == Ok::<Format, Seq<char>>(s@),
            Err(x) => x matches CarveError::SignatureDb { detail } && format_of(
                rows(entries@),
                i as int,
            ) == Err::<Format, Seq<char>>(detail@),
        },
{
    let e: &Entry = &entries[i];
    assert(rows(entries@)[i as int] == e@);
    let id: String = match &e.id {
        Some(s) => s.clone(),
        None => {
            return Err(
                wrong(text::cat3("entry ", text::decimal(i as u64).as_str(), " has no id")),
            );
        },
    };
    if let Some(j) = find_earlier(entries, i, id.as_str()) {
        return Err(
            wrong(
                text::cat6(
                    "duplicate signature id ",
                    text::quote(id.as_str()).as_str(),
                    " at entries ",
                    text::decimal(j as u64).as_str(),
                    " and ",
                    text::decimal(i as u64).as_str(),
                ),
            ),
        );
    }
    let spelled: &str = match &e.header {
        Some(t) => t.as_str(),
        None => "",
    };
    let header: Vec<u8> = match parse_hex(spelled) {
        Some(h) => h,
        None => {
            return Err(wrong(text::cat2(id.as_str(), ": header is not valid hex")));
        },
    };
    let header_mask: Option<Vec<u8>> = match read_mask(e, id.as_str(), &header) {
        Ok(m) => m,
        Err(x) => {
            return Err(x);
        },
    };
    let max_size: u64 = match e.max_size {
        Some(n) => n,
        None => {
            return Err(
                wrong(
                    text::cat2(
                        id.as_str(),
                        ": max_size is mandatory. A footerless format has no other terminator, so without it one spurious header would swallow the rest of the volume.",
                    ),
                ),
            );
        },
    };
    if max_size == 0 {
        return Err(wrong(text::cat2(id.as_str(), ": max_size must be greater than zero")));
    }
    let validator: Option<String> = if same_id(&e.validator, "none") {
        None
    } else {
        clone_text(&e.validator)
    };
    let ext: String = match &e.ext {
        Some(t) => t.clone(),
        None => "bin".to_owned(),
    };
    let category: Category = match &e.category {
        Some(t) => Category::parse(t.as_str()),
        None => Category::parse("other"),
    };
    let footer: Option<Vec<u8>> = match &e.footer {
        Some(t) => parse_hex(t.as_str()),
        None => None,
    };
    let header_offset: usize = match e.header_off {
        Some(n) => n as usize,
        None => 0,
    };
    let note: Option<String> = clone_text(&e.note);
    Ok(
        Signature {
            id,
            ext,
            category,
            header,
            header_mask,
            header_offset,
            footer,
            max_size,
            validator,
            note,
        },
    )
}

/// The loaded database.
#[derive(Clone, Debug)]
pub struct SignatureDb {
    pub signatures: Vec<Signature>,
}

impl Default for SignatureDb {
    fn default() -> (r: SignatureDb)
        ensures
            r@.len() == 0,
    {
        SignatureDb { signatures: Vec::new() }
    }
}

impl View for SignatureDb {
    type V = Seq<Format>;

    open spec fn view(&self) -> Seq<Format> {
        formats(self.signatures@)
    }
}

/// One value of a row, as far as a database reads it.
pub enum Cell {
    Text(String),
    Count(u64),
    Other,
}

/// The mathematical content of a [`Cell`].
pub enum Datum {
    Text(Seq<char>),
    Count(u64),
    Other,
}

impl View for Cell {
    type V = Datum;

    open spec fn view(&self) -> Datum {
        match self {
            Cell::Text(s) => Datum::Text(s@),
            Cell::Count(n) => Datum::Count(*n),
            Cell::Other => Datum::Other,
        }
    }
}

/// The values of a row.
pub open spec fn data(row: Seq<Cell>) -> Seq<Datum> {
    Seq::new(row.len(), |i: int| row[i]@)
}

/// The values of every row.
pub open spec fn all_data(table: Seq<Vec<Cell>>) -> Seq<Seq<Datum>> {
    Seq::new(table.len(), |i: int| data(table[i]@))
}

/// Names as text.
pub open spec fn names(keys: Seq<&'static str>) -> Seq<Seq<char>> {
    Seq::new(keys.len(), |i: int| keys[i]@)
}

/// What a JSON text holds under the key `table`, where that is an array: for
/// each element, the values under `keys`, one by one. `Err` where the text is
/// no JSON, with what the parser says; `None` where there is no such array.
pub uninterp spec fn json_table(
    json: Seq<char>,
    table: Seq<char>,
    keys: Seq<Seq<char>>,
) -> std::result::Result<Option<Seq<Seq<Datum>>>, Seq<char>>;

/// `serde_json::from_str`: the text parsed as JSON, reduced to the string and
/// unsigned integer values under the given keys of each element of one array.
/// What the grammar of JSON makes of a text is not spelled out; the result is
/// named. Every row has one value for each key.
#[verifier::external_body]
fn read_json(json: &str, table: &str, keys: &[&'static str]) -> (r: std::result::Result<
    Option<Vec<Vec<Cell>>>,
    String,
>)
    ensures
        match r {
            Ok(Some(t)) => json_table(json@, table@, names(keys@)) == Ok::<
                Option<Seq<Seq<Datum>>>,
                Seq<char>,
            >(Some(all_data(t@))),
            Ok(None) => json_table(json@, table@, names(keys@)) == Ok::<
                Option<Seq<Seq<Datum>>>,
                Seq<char>,
            >(None),
            Err(e) => json_table(json@, table@, names(keys@)) == Err::<
                Option<Seq<Seq<Datum>>>,
                Seq<char>,
            >(e@),
        },
        r matches Ok(Some(t)) ==> forall|i: int|
            0 <= i < t@.len() ==> (#[trigger] t@[i])@.len() == keys@.len(),
{
    let v: serde_json::Value = serde_json::from_str(json).map_err(|e| e.to_string())?;
    let cell = |v: &serde_json::Value| match v {
        serde_json::Value::String(s) => Cell::Text(s.clone()),
        serde_json::Value::Number(n) => n.as_u64().map_or(Cell::Other, Cell::Count),
        _ => Cell::Other,
    };
    let row = |e: &serde_json::Value| keys.iter().map(|k| cell(&e[*k])).collect();
    Ok(v[table].as_array().map(|a| a.iter().map(row).collect()))
}

/// The keys an entry is read by, in the order of [`Row`]'s fields.
pub open spec fn entry_keys() -> Seq<Seq<char>> {
    seq![
        "id"@,
        "ext"@,
        "category"@,
        "header"@,
        "header_mask"@,
        "header_off"@,
        "footer"@,
        "max_size"@,
        "validator"@,
        "note"@,
    ]
}

/// A value where it is text.
pub open spec fn as_text(d: Datum) -> Option<Seq<char>> {
    match d {
        Datum::Text(s) => Some(s),
        _ => None,
    }
}

/// A value where it is a count.
pub open spec fn as_count(d: Datum) -> Option<u64> {
    match d {
        Datum::Count(n) => Some(n),
        _ => None,
    }
}

/// The entry that a row of values is.
pub open spec fn row_of(d: Seq<Datum>) -> Row {
    Row {
        id: as_text(d[0]),
        ext: as_text(d[1]),
        category: as_text(d[2]),
        header: as_text(d[3]),
        header_mask: as_text(d[4]),
        header_off: as_count(d[5]),
        footer: as_text(d[6]),
        max_size: as_count(d[7]),
        validator: as_text(d[8]),
        note: as_text(d[9]),
    }
}

/// The database that a JSON text makes.
pub open spec fn loaded_json(json: Seq<char>) -> std::result::Result<Seq<Format>, Seq<char>> {
    match json_table(json, "signatures"@, entry_keys()) {
        Err(e) => Err("parsing signature database: "@ + e),
        Ok(None) => Err("no 'signatures' array"@),
        Ok(Some(t)) => loaded(Seq::new(t.len(), |i: int| row_of(t[i]))),
    }
}

fn text_in(c: &Cell) -> (r: Option<String>)
    ensures
        some_text(r) == as_text(c@),
{
    match c {
        Cell::Text(s) => Some(s.clone()),
        _ => None,
    }
}

fn count_in(c: &Cell) -> (r: Option<u64>)
    ensures
        r == as_count(c@),
{
    match c {
        Cell::Count(n) => Some(*n),
        _ => None,
    }
}

fn entry_in(row: &Vec<Cell>) -> (r: Entry)
    requires
        row@.len() == 10,
    ensures
        r@ == row_of(data(row@)),
{
    Entry {
        id: text_in(&row[0]),
        ext: text_in(&row[1]),
        category: text_in(&row[2]),
        header: text_in(&row[3]),
        header_mask: text_in(&row[4]),
        header_off: count_in(&row[5]),
        footer: text_in(&row[6]),
        max_size: count_in(&row[7]),
        validator: text_in(&row[8]),
        note: text_in(&row[9]),
    }
}

/// The longest reach of the first `n` headers.
pub open spec fn longest_span(f: Seq<Format>, n: int) -> int
    decreases n,
{
    if n <= 0 {
        0
    } else if f[n - 1].span() > longest_span(f, n - 1) {
        f[n - 1].span()
    } else {
        longest_span(f, n - 1)
    }
}

/// The longest reach is as long as any.
pub proof fn longest_is_longest(f: Seq<Format>, n: int, i: int)
    requires
        0 <= i < n <= f.len(),
    ensures
        f[i].span() <= longest_span(f, n),
    decreases n,
{
    if i < n - 1 {
        longest_is_longest(f, n - 1, i);
    }
}

impl SignatureDb {
    /// Load the built-in database.
    pub fn builtin() -> (r: Result<SignatureDb>)
        ensures
            match r {
                Ok(db) => loaded_json(BUILTIN_JSON@) == Ok::<Seq<Format>, Seq<char>>(db@),
                Err(x) => x matches CarveError::SignatureDb { detail } && loaded_json(
                    BUILTIN_JSON@,
                ) == Err::<Seq<Format>, Seq<char>>(detail@),
            },
    {
        Self::from_json(BUILTIN_JSON)
    }

    /// Load a database from JSON.
    pub fn from_json(json: &str) -> (r: Result<SignatureDb>)
        ensures
            match r {
                Ok(db) => loaded_json(json@) == Ok::<Seq<Format>, Seq<char>>(db@),
                Err(x) => x matches CarveError::SignatureDb { detail } && loaded_json(json@)
                    == Err::<Seq<Format>, Seq<char>>(detail@),
            },
    {
        let keys: [&'static str; 10] = [
            "id",
            "ext",
            "category",
            "header",
            "header_mask",
            "header_off",
            "footer",
            "max_size",
            "validator",
            "note",
        ];
        assert(names(keys@) =~= entry_keys());
        let table: Vec<Vec<Cell>> = match read_json(json, "signatures", &keys) {
            Err(e) => {
                return Err(wrong(text::cat2("parsing signature database: ", e.as_str())));
            },
            Ok(None) => {
                return Err(wrong("no 'signatures' array".to_owned()));
            },
            Ok(Some(t)) => t,
        };
        let mut entries: Vec<Entry> = Vec::new();
        let mut i: usize = 0;
        while i < table.len()
            invariant
                i <= table@.len(),
                entries@.len() == i,
                forall|k: int| 0 <= k < table@.len() ==> (#[trigger] table@[k])@.len() == 10,
                forall|k: int| 0 <= k < i ==> (#[trigger] entries@[k])@ == row_of(data(table@[k]@)),
            decreases table@.len() - i,
        {
            entries.push(entry_in(&table[i]));
            i += 1;
        }
        proof {
            let t = all_data(table@);
            assert(rows(entries@) =~= Seq::new(t.len(), |i: int| row_of(t[i])));
        }
        Self::from_entries(&entries)
    }

    /// Make a database of entries.
    pub fn from_entries(entries: &Vec<Entry>) -> (r: Result<SignatureDb>)
        ensures
            match r {
                Ok(db) => loaded(rows(entries@)) == Ok::<Seq<Format>, Seq<char>>(db@),
                Err(x) => x matches CarveError::SignatureDb { detail } && loaded(rows(entries@))
                    == Err::<Seq<Format>, Seq<char>>(detail@),
            },
    {
        let ghost all = rows(entries@);
        let mut out: Vec<Signature> = Vec::new();
        let mut i: usize = 0;
        assert(formats(out@) =~= Seq::<Format>::empty());
        while i < entries.len()
            invariant
                i <= entries@.len(),
                out@.len() == i,
                all == rows(entries@),
                formats_upto(all, i as int) == Ok::<Seq<Format>, Seq<char>>(formats(out@)),
            decreases entries@.len() - i,
        {
            match read_entry(entries, i) {
                Ok(s) => {
                    let ghost before = formats(out@);
                    out.push(s);
                    assert(formats(out@) =~= before.push(s@));
                },
                Err(x) => {
                    proof {
                        fails_for_good(all, i + 1, all.len() as int);
                    }
                    return Err(x);
                },
            }
            i += 1;
        }
        if out.len() == 0 {
            return Err(wrong("the signature database is empty".to_owned()));
        }
        Ok(SignatureDb { signatures: out })
    }

    /// The first signature with the given id.
    pub fn get(&self, id: &str) -> (r: Option<&Signature>)
        ensures
            match r {
                Some(s) => exists|i: int|
                    {
                        &&& 0 <= i < self.signatures@.len()
                        &&& #[trigger] self.signatures@[i] == *s
                        &&& s@.id == id@
                        &&& forall|j: int|
                            0 <= j < i ==> (#[trigger] self.signatures@[j])@.id != id@
                    },
                None => forall|j: int|
                    0 <= j < self.signatures@.len() ==> (#[trigger] self.signatures@[j])@.id != id@,
            },
    {
        let mut i: usize = 0;
        while i < self.signatures.len()
            invariant
                i <= self.signatures@.len(),
                forall|j: int| 0 <= j < i ==> (#[trigger] self.signatures@[j])@.id != id@,
            decreases self.signatures@.len() - i,
        {
            if text::same_text(self.signatures[i].id.as_str(), id) {
                return Some(&self.signatures[i]);
            }
            i += 1;
        }
        None
    }

    pub fn len(&self) -> (r: usize)
        ensures
            r == self@.len(),
    {
        self.signatures.len()
    }

    pub fn is_empty(&self) -> (r: bool)
        ensures
            r == (self@.len() == 0),
    {
        self.signatures.len() == 0
    }

    /// Whether every signature's header end can be counted.
    pub open spec fn fits(self) -> bool {
        forall|i: int| 0 <= i < self.signatures@.len() ==> (#[trigger] self.signatures@[i]).fits()
    }

    /// Whether every signature's header end can be counted.
    pub fn is_countable(&self) -> (r: bool)
        ensures
            r == self.fits(),
    {
        let mut i: usize = 0;
        while i < self.signatures.len()
            invariant
                i <= self.signatures@.len(),
                forall|k: int| 0 <= k < i ==> (#[trigger] self.signatures@[k]).fits(),
            decreases self.signatures@.len() - i,
        {
            if !self.signatures[i].is_countable() {
                return false;
            }
            i += 1;
        }
        true
    }

    /// Longest header plus offset, which bounds how much lookahead the scanner
    /// must keep across a read-buffer boundary.
    pub fn max_header_span(&self) -> (r: usize)
        requires
            self.fits(),
        ensures
            r == longest_span(self@, self@.len() as int),
    {
        let mut most: usize = 0;
        let mut i: usize = 0;
        while i < self.signatures.len()
            invariant
                i <= self.signatures@.len(),
                self.fits(),
                most == longest_span(self@, i as int),
            decreases self.signatures@.len() - i,
        {
            assert(self.signatures@[i as int].fits());
            assert(self@[i as int] == self.signatures@[i as int]@);
            let span: usize = self.signatures[i].header_offset + self.signatures[i].header.len();
            if span > most {
                most = span;
            }
            i += 1;
        }
        most
    }
}

proof fn fails_for_good(rows: Seq<Row>, from: int, to: int)
    requires
        0 <= from <= to,
        formats_upto(rows, from) is Err,
    ensures
        formats_upto(rows, to) == formats_upto(rows, from),
    decreases to,
{
    if from < to {
        fails_for_good(rows, from, to - 1);
    }
}

/// A database that loads has at least one signature, no two with the same id,
/// and for each a header, a mask of the header's length where it has one, and
/// a positive ceiling.
pub proof fn what_loads_is_usable(rows: Seq<Row>, n: int, i: int)
    requires
        0 <= i < n <= rows.len(),
        formats_upto(rows, n) is Ok,
    ensures
        formats_upto(rows, n)->Ok_0.len() == n,
        ({
            let f = formats_upto(rows, n)->Ok_0[i];
            &&& f.header.len() > 0
            &&& f.max_size > 0
            &&& (f.header_mask matches Some(m) ==> m.len() == f.header.len())
            &&& rows[i].id == Some(f.id)
            &&& forall|j: int| 0 <= j < i ==> (#[trigger] formats_upto(rows, n)->Ok_0[j]).id != f.id
        }),
    decreases n,
{
    let f = formats_upto(rows, n)->Ok_0;
    if n - 1 > i {
        what_loads_is_usable(rows, n - 1, i);
        assert forall|j: int| 0 <= j < i implies (#[trigger] f[j]).id != f[i].id by {
            assert(f[j] == formats_upto(rows, n - 1)->Ok_0[j]);
        }
    } else {
        lengths_agree(rows, n);
        lengths_agree(rows, n - 1);
        assert forall|j: int| 0 <= j < i implies (#[trigger] f[j]).id != f[i].id by {
            what_loads_is_usable(rows, n - 1, j);
            assert(f[j] == formats_upto(rows, n - 1)->Ok_0[j]);
            none_earlier(rows, i, 0, j);
        }
    }
}

proof fn lengths_agree(rows: Seq<Row>, n: int)
    requires
        0 <= n,
        formats_upto(rows, n) is Ok,
    ensures
        formats_upto(rows, n)->Ok_0.len() == n,
    decreases n,
{
    if n > 0 {
        lengths_agree(rows, n - 1);
    }
}

proof fn none_earlier(rows: Seq<Row>, i: int, from: int, j: int)
    requires
        from <= j < i,
        earlier(rows, i, from) is None,
    ensures
        rows[j].id != rows[i].id,
    decreases i - from,
{
    if from < j {
        none_earlier(rows, i, from + 1, j);
    }
}

/// The database that is built in.
pub const BUILTIN_JSON: &'static str = r#"{"signatures":[  {"id":"jpeg","ext":"jpg","category":"image","header":"FFD8FF","footer":"FFD9","max_size":268435456,"validator":"jpeg"},
  {"id":"png","ext":"png","category":"image","header":"89504E470D0A1A0A","footer":"49454E44AE426082","max_size":268435456,"validator":"png"},
  {"id":"gif","ext":"gif","category":"image","header":"47494638","footer":"003B","max_size":67108864,"validator":"gif"},
  {"id":"bmp","ext":"bmp","category":"image","header":"424D","max_size":268435456,"validator":"bmp"},
  {"id":"ico","ext":"ico","category":"image","header":"00000100","max_size":16777216,"validator":"ico"},
  {"id":"tiff_le","ext":"tif","category":"image","header":"49492A00","max_size":1073741824,"validator":"tiff"},
  {"id":"tiff_be","ext":"tif","category":"image","header":"4D4D002A","max_size":1073741824,"validator":"tiff"},
  {"id":"webp","ext":"webp","category":"image","header":"524946460000000057454250","header_mask":"FFFFFFFF00000000FFFFFFFF","max_size":268435456,"validator":"riff_webp"},
  {"id":"psd","ext":"psd","category":"image","header":"38425053","max_size":2147483648,"validator":"psd"},
  {"id":"avi","ext":"avi","category":"video","header":"524946460000000041564920","header_mask":"FFFFFFFF00000000FFFFFFFF","max_size":4294967296,"validator":"riff_avi"},
  {"id":"mp4","ext":"mp4","category":"video","header":"66747970","header_off":4,"max_size":17179869184,"validator":"mp4"},
  {"id":"mov","ext":"mov","category":"video","header":"6D6F6F76","header_off":4,"max_size":17179869184,"validator":"none","note":"QuickTime without a file type box"},
  {"id":"mkv","ext":"mkv","category":"video","header":"1A45DFA3","max_size":17179869184,"validator":"none","note":"Matroska and WebM"},
  {"id":"flv","ext":"flv","category":"video","header":"464C5601","max_size":4294967296,"validator":"none"},
  {"id":"asf","ext":"wmv","category":"video","header":"3026B2758E66CF11A6D900AA0062CE6C","max_size":17179869184,"validator":"none","note":"WMV and WMA"},
  {"id":"mpeg_ps","ext":"mpg","category":"video","header":"000001BA","footer":"000001B9","max_size":17179869184,"validator":"none"},
  {"id":"m4a","ext":"m4a","category":"audio","header":"667479704D344120","header_off":4,"max_size":2147483648,"validator":"mp4"},
  {"id":"wav","ext":"wav","category":"audio","header":"524946460000000057415645","header_mask":"FFFFFFFF00000000FFFFFFFF","max_size":4294967296,"validator":"riff_wav"},
  {"id":"aiff","ext":"aiff","category":"audio","header":"464F524D0000000041494600","header_mask":"FFFFFFFF00000000FFFFFF00","max_size":4294967296,"validator":"riff_aiff","note":"AIFF, and AIFC where it is compressed"},
  {"id":"mp3","ext":"mp3","category":"audio","header":"494433","max_size":268435456,"validator":"none","note":"only with an ID3v2 tag"},
  {"id":"flac","ext":"flac","category":"audio","header":"664C6143","max_size":1073741824,"validator":"none"},
  {"id":"ogg","ext":"ogg","category":"audio","header":"4F676753","max_size":1073741824,"validator":"none"},
  {"id":"midi","ext":"mid","category":"audio","header":"4D546864","max_size":16777216,"validator":"none"},
  {"id":"amr","ext":"amr","category":"audio","header":"2321414D52","max_size":67108864,"validator":"none"},
  {"id":"pdf","ext":"pdf","category":"document","header":"255044462D","footer":"2525454F46","max_size":1073741824,"validator":"pdf"},
  {"id":"rtf","ext":"rtf","category":"document","header":"7B5C727466","footer":"7D","max_size":268435456,"validator":"rtf"},
  {"id":"ole","ext":"doc","category":"document","header":"D0CF11E0A1B11AE1","max_size":536870912,"validator":"none","note":"DOC, XLS, PPT and MSG share this container"},
  {"id":"lnk","ext":"lnk","category":"document","header":"4C0000000114020000000000C000000000000046","max_size":1048576,"validator":"none"},
  {"id":"zip","ext":"zip","category":"archive","header":"504B0304","footer":"504B0506","max_size":17179869184,"validator":"zip","note":"OOXML, ODF, EPUB, JAR and APK are ZIPs too; the validator reads [Content_Types].xml and its like to tell them apart"},
  {"id":"rar","ext":"rar","category":"archive","header":"526172211A07","max_size":17179869184,"validator":"rar"},
  {"id":"7z","ext":"7z","category":"archive","header":"377ABCAF271C","max_size":17179869184,"validator":"7z"},
  {"id":"gzip","ext":"gz","category":"archive","header":"1F8B08","max_size":4294967296,"validator":"none"},
  {"id":"bzip2","ext":"bz2","category":"archive","header":"425A68","max_size":4294967296,"validator":"none"},
  {"id":"xz","ext":"xz","category":"archive","header":"FD377A585A00","footer":"595A","max_size":4294967296,"validator":"none"},
  {"id":"cab","ext":"cab","category":"archive","header":"4D53434600000000","max_size":2147483648,"validator":"cab"},
  {"id":"sqlite","ext":"sqlite","category":"database","header":"53514C69746520666F726D6174203300","max_size":17179869184,"validator":"sqlite"},
  {"id":"sqlite_wal","ext":"sqlite-wal","category":"database","header":"377F0682","header_mask":"FFFFFFFE","max_size":4294967296,"validator":"none","note":"the low bit selects the checksum byte order"},
  {"id":"pst","ext":"pst","category":"database","header":"2142444E","max_size":68719476736,"validator":"none"},
  {"id":"reg_hive","ext":"hiv","category":"database","header":"72656766","max_size":1073741824,"validator":"reg_hive"},
  {"id":"evtx","ext":"evtx","category":"other","header":"456C6646696C6500","max_size":4294967296,"validator":"evtx"},
  {"id":"exe","ext":"exe","category":"other","header":"4D5A","max_size":2147483648,"validator":"pe","note":"DLL and SYS files too"},
  {"id":"elf","ext":"elf","category":"other","header":"7F454C46","max_size":2147483648,"validator":"elf"},
  {"id":"class","ext":"class","category":"other","header":"CAFEBABE","max_size":16777216,"validator":"none"},
  {"id":"vhd","ext":"vhd","category":"other","header":"636F6E6563746978","max_size":137438953472,"validator":"none","note":"the cookie of the copy at the start of a dynamic disk"}]}"#;

} // verus!
