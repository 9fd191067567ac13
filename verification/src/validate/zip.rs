//! ZIP, and telling a document from an archive.
//!
//! Every OOXML document, every OpenDocument file, every EPUB, JAR and APK is a
//! ZIP, so the central directory is walked and the format named from its
//! members.
//!
//! The other job is finding the right End of Central Directory record. The
//! data may hold several archives; the record names the offset of the central
//! directory from the start of its own archive, so the right one is the first
//! whose offset lands on a central directory header.

use vstd::prelude::*;
use vstd::slice::*;
use crate::bytes;
use crate::crc32;
use crate::search;
use crate::text;
use super::{Outcome, Verdict};

verus! {

broadcast use bytes::slice_fits;

/// A local file header begins with this.
pub open spec fn local_mark() -> Seq<u8> {
    seq![0x50u8, 0x4B, 0x03, 0x04]
}

/// A central directory entry begins with this.
pub open spec fn central_mark() -> Seq<u8> {
    seq![0x50u8, 0x4B, 0x01, 0x02]
}

/// The end of central directory record begins with this.
pub open spec fn end_mark() -> Seq<u8> {
    seq![0x50u8, 0x4B, 0x05, 0x06]
}

/// Its ZIP64 form begins with this.
pub open spec fn end64_mark() -> Seq<u8> {
    seq![0x50u8, 0x4B, 0x06, 0x06]
}

/// One central directory entry, reduced to what is needed here.
#[verifier::ext_equal]
pub struct Entry {
    pub name: Seq<u8>,
    /// 0 is stored, 8 is deflate.
    pub method: int,
    pub crc: int,
    pub compressed: int,
    pub local: int,
}

/// The entry at `at`.
pub open spec fn entry_at(d: Seq<u8>, at: int) -> Entry {
    Entry {
        name: d.subrange(at + 46, at + 46 + bytes::u16_le(d, at + 28)),
        method: bytes::u16_le(d, at + 10),
        crc: bytes::u32_le(d, at + 16),
        compressed: bytes::u32_le(d, at + 20),
        local: bytes::u32_le(d, at + 42),
    }
}

/// The central directory from `at` on, at most `left` entries of it, after
/// `acc`.
pub open spec fn entries_from(d: Seq<u8>, at: int, left: int, acc: Seq<Entry>) -> Seq<Entry>
    decreases left,
{
    if left <= 0 || at + 46 > d.len() || !bytes::occurs_at(d, central_mark(), at) || at + 46
        + bytes::u16_le(d, at + 28) > d.len() {
        acc
    } else {
        entries_from(
            d,
            at + 46 + bytes::u16_le(d, at + 28) + bytes::u16_le(d, at + 30) + bytes::u16_le(
                d,
                at + 32,
            ),
            left - 1,
            acc.push(entry_at(d, at)),
        )
    }
}

/// Where the data of a stored member lies, where it can be checked: a local
/// header that is there, and data that is. The local header's own name and
/// extra lengths count.
pub open spec fn stored_range(d: Seq<u8>, e: Entry) -> Option<(int, int)> {
    let body = e.local + 30 + bytes::u16_le(d, e.local + 26) + bytes::u16_le(d, e.local + 28);
    if e.method != 0 || e.compressed == 0 || e.local + 30 > d.len() || !bytes::occurs_at(
        d,
        local_mark(),
        e.local,
    ) || body + e.compressed > d.len() {
        None
    } else {
        Some((body, body + e.compressed))
    }
}

/// How many of the stored members from the `i`-th on pass their checksum and
/// how many fail it, after those counted.
pub open spec fn stored_from(d: Seq<u8>, members: Seq<Entry>, i: int, ok: int, bad: int) -> (
    int,
    int,
)
    decreases members.len() - i,
{
    if i < 0 || i >= members.len() {
        (ok, bad)
    } else {
        match stored_range(d, members[i]) {
            None => stored_from(d, members, i + 1, ok, bad),
            Some((body, end)) => if crc32::checksum(d.subrange(body, end)) == members[i].crc {
                stored_from(d, members, i + 1, ok + 1, bad)
            } else {
                stored_from(d, members, i + 1, ok, bad + 1)
            },
        }
    }
}

/// Whether a member has the given name.
pub open spec fn has_member(members: Seq<Entry>, name: Seq<u8>) -> bool {
    exists|i: int| 0 <= i < members.len() && (#[trigger] members[i]).name == name
}

/// Whether a member lies under the given directory.
pub open spec fn has_under(members: Seq<Entry>, dir: Seq<u8>) -> bool {
    exists|i: int| 0 <= i < members.len() && bytes::begins((#[trigger] members[i]).name, dir)
}

/// ASCII text as bytes.
pub open spec fn raw(s: Seq<char>) -> Seq<u8> {
    Seq::new(s.len(), |i: int| s[i] as u8)
}

/// What an archive is, from its members: an extension and a description.
pub open spec fn kind_of(members: Seq<Entry>) -> (Seq<char>, Seq<char>) {
    if has_member(members, raw("[Content_Types].xml"@)) {
        if has_under(members, raw("word/"@)) {
            ("docx"@, "OOXML word processing document"@)
        } else if has_under(members, raw("xl/"@)) {
            ("xlsx"@, "OOXML spreadsheet"@)
        } else if has_under(members, raw("ppt/"@)) {
            ("pptx"@, "OOXML presentation"@)
        } else {
            ("zip"@, "OOXML package of an unrecognised kind"@)
        }
    } else if has_member(members, raw("META-INF/MANIFEST.MF"@)) {
        if has_member(members, raw("AndroidManifest.xml"@)) {
            ("apk"@, "Android package"@)
        } else {
            ("jar"@, "Java archive"@)
        }
    } else if has_member(members, raw("mimetype"@)) {
        if has_under(members, raw("OEBPS/"@)) || has_member(members, raw("META-INF/container.xml"@)) {
            ("epub"@, "EPUB publication"@)
        } else {
            ("odf"@, "OpenDocument package"@)
        }
    } else {
        ("zip"@, "ZIP archive"@)
    }
}

/// What an archive of `length` bytes comes to, `declared` members being in its
/// directory and `members` having been read.
pub open spec fn classified(
    d: Seq<u8>,
    length: int,
    declared: int,
    members: Seq<Entry>,
    zip64: bool,
) -> Verdict {
    let (ext, what) = kind_of(members);
    let (ok, bad) = stored_from(d, members, 0, 0, 0);
    let v = (if bad > 0 {
        Verdict::partial(
            length,
            text::dec(bad)
                + " stored member(s) fail their CRC-32; the archive is complete but its contents are partially overwritten; "@
                + what,
        )
    } else if members.len() < declared {
        Verdict::partial(
            length,
            "the central directory declares "@ + text::dec(declared) + " members but only "@
                + text::dec(members.len() as int) + " could be read; "@ + what,
        )
    } else {
        Verdict::valid(length)
    }).with_ext(ext).with("entries"@, text::dec(declared)).with(
        "names_read"@,
        text::dec(members.len() as int),
    ).with("zip64"@, text::yes_no(zip64)).with("stored_members_verified"@, text::dec(ok)).with(
        "stored_members_failed"@,
        text::dec(bad),
    );
    if bad == 0 && members.len() >= declared {
        v.note(what)
    } else {
        v
    }
}

/// At most 65535 entries.
pub open spec fn capped_entries(n: int) -> int {
    if n <= 0xFFFF {
        n
    } else {
        0xFFFF
    }
}

/// What the ZIP64 record before the end record at `pos` describes, where it
/// describes this archive. The 32-bit fields are placeholders there.
pub open spec fn zip64_at(d: Seq<u8>, pos: int) -> Option<Verdict> {
    let end = pos + 22 + bytes::u16_le(d, pos + 20);
    match search::last_upto(d.subrange(0, pos), end64_mark(), pos) {
        None => None,
        Some(z) => if !bytes::fits(d, z + 48, 8) {
            None
        } else {
            let declared = capped_entries(bytes::u64_le(d, z + 32));
            let at = bytes::u64_le(d, z + 48);
            if !bytes::occurs_at(d, central_mark(), at) || end > d.len() {
                None
            } else {
                Some(classified(d, end, declared, entries_from(d, at, declared, Seq::empty()), true))
            }
        },
    }
}

/// What the end record at `pos` describes, where it describes this archive.
pub open spec fn end_record(d: Seq<u8>, pos: int) -> Option<Verdict> {
    let declared = bytes::u16_le(d, pos + 10);
    let size = bytes::u32_le(d, pos + 12);
    let at = bytes::u32_le(d, pos + 16);
    let end = pos + 22 + bytes::u16_le(d, pos + 20);
    if pos + 22 > d.len() {
        None
    } else if at == 0xFFFF_FFFF || declared == 0xFFFF {
        zip64_at(d, pos)
    } else if !bytes::occurs_at(d, central_mark(), at) || at + size > d.len() {
        None
    } else if end > d.len() {
        Some(
            Verdict::partial(
                pos + 22,
                "the EOCD comment runs past the data"@,
            ).truncated(),
        )
    } else {
        Some(
            classified(d, end, declared, entries_from(d, at, declared, Seq::empty()), false),
        )
    }
}

/// The first end record from `from` on that describes this archive.
pub open spec fn ends_from(d: Seq<u8>, from: int) -> Option<Verdict>
    decreases d.len() - from,
    when 0 <= from
    via ends_move_on
{
    match search::first_from(d, end_mark(), from) {
        None => None,
        Some(pos) => match end_record(d, pos) {
            Some(v) => Some(v),
            None => ends_from(d, pos + 4),
        },
    }
}

#[via_fn]
proof fn ends_move_on(d: Seq<u8>, from: int) {
    search::first_is_first(d, end_mark(), from);
}

/// How far the chain of local headers can be followed from `at`, `good` bytes
/// being justified so far. A header whose body is missing, or whose size is
/// not known, ends it; the header itself still counts, or the fixed part of one
/// that does not fit.
pub open spec fn local_extent(d: Seq<u8>, at: int, good: int) -> int
    decreases d.len() - at,
{
    let compressed = bytes::u32_le(d, at + 18);
    let header = 30 + bytes::u16_le(d, at + 26) + bytes::u16_le(d, at + 28);
    let next = at + header + compressed;
    if at < 0 || at + 30 > d.len() || !bytes::occurs_at(d, local_mark(), at) {
        good
    } else if compressed == 0 || next > d.len() {
        if at + header <= d.len() {
            at + header
        } else {
            at + 30
        }
    } else {
        local_extent(d, next, next)
    }
}

/// Whether a compression method is one that is defined.
pub open spec fn defined_method(method: int) -> bool {
    method == 0 || method == 1 || method == 6 || method == 8 || method == 9 || method == 12
        || method == 14 || 93 <= method <= 99
}

/// Whether the first local header can be one: a method that is defined, and a
/// name that is text.
pub open spec fn plausible(d: Seq<u8>) -> bool {
    let name = bytes::u16_le(d, 26);
    &&& d.len() >= 30
    &&& defined_method(bytes::u16_le(d, 8))
    &&& 0 < name <= 4096
    &&& 30 + name <= d.len()
    &&& forall|i: int| 30 <= i < 30 + name ==> #[trigger] d[i] >= 0x20
}

/// Whether the data ends inside the first local header, which can be one as far
/// as it goes.
pub open spec fn header_cut(d: Seq<u8>) -> bool {
    let name = bytes::u16_le(d, 26);
    &&& d.len() >= 10 ==> defined_method(bytes::u16_le(d, 8))
    &&& d.len() >= 28 ==> 0 < name <= 4096
    &&& d.len() < 30 || 30 + name > d.len()
    &&& forall|i: int| 30 <= i < d.len() ==> #[trigger] d[i] >= 0x20
}

/// What the bytes of `d` are as a ZIP archive.
pub open spec fn verdict(d: Seq<u8>) -> Verdict {
    if d.len() < 4 {
        Verdict::reject("shorter than a ZIP local file header"@).cut_if(bytes::agrees(d, local_mark(), 0))
    } else if !bytes::begins(d, local_mark()) {
        Verdict::reject("does not begin with a local file header"@)
    } else {
        match ends_from(d, 0) {
            Some(v) => v,
            None => if plausible(d) {
                Verdict::partial(
                    local_extent(d, 0, 0),
                    "no end-of-central-directory record; the archive is truncated and its member index is gone, so this length is what the local headers justify rather than the file's real size"@,
                ).with("local_headers"@, text::dec(search::count_from(d, local_mark(), 0))).truncated()
            } else {
                Verdict::reject("no central directory and the local header is not plausible"@).cut_if(
                    header_cut(d),
                )
            },
        }
    }
}

/// One central directory entry.
struct Member<'a> {
    name: &'a [u8],
    method: u16,
    crc: u32,
    compressed: u32,
    local: u32,
}

spec fn listed(v: Seq<Member<'_>>) -> Seq<Entry> {
    Seq::new(
        v.len(),
        |i: int|
            Entry {
                name: v[i].name@,
                method: v[i].method as int,
                crc: v[i].crc as int,
                compressed: v[i].compressed as int,
                local: v[i].local as int,
            },
    )
}

/// Walk the central directory and collect its members.
fn read_central_directory<'a>(d: &'a [u8], start: usize, entries: u16) -> (r: Vec<Member<'a>>)
    requires
        start <= d@.len(),
    ensures
        listed(r@) == entries_from(d@, start as int, entries as int, Seq::empty()),
        r@.len() <= entries,
{
    let mark: [u8; 4] = [0x50, 0x4B, 0x01, 0x02];
    assert(mark@ =~= central_mark());
    let mut out: Vec<Member<'a>> = Vec::new();
    let ghost whole = entries_from(d@, start as int, entries as int, Seq::empty());
    assert(listed(out@) =~= Seq::<Entry>::empty());
    let mut at: usize = start;
    let mut left: u16 = entries;
    while left > 0
        invariant
            mark@ == central_mark(),
            left <= entries,
            out@.len() == entries - left,
            whole == entries_from(d@, start as int, entries as int, Seq::empty()),
            whole == entries_from(d@, at as int, left as int, listed(out@)),
        decreases left,
    {
        if !bytes::has(d, at, 46) || !bytes::stands_at(d, &mark, at) {
            return out;
        }
        let name_len: usize = bytes::get16(d, at + 28, false) as usize;
        let extra: usize = bytes::get16(d, at + 30, false) as usize;
        let comment: usize = bytes::get16(d, at + 32, false) as usize;
        if name_len > d.len() - at - 46 {
            return out;
        }
        let ghost before = out@;
        out.push(
            Member {
                name: slice_subrange(d, at + 46, at + 46 + name_len),
                method: bytes::get16(d, at + 10, false),
                crc: bytes::get32(d, at + 16, false),
                compressed: bytes::get32(d, at + 20, false),
                local: bytes::get32(d, at + 42, false),
            },
        );
        assert(listed(out@) =~= listed(before).push(entry_at(d@, at as int)));
        left -= 1;
        let skip: usize = extra + comment;
        let past: usize = d.len() - at - 46 - name_len;
        if skip > past {
            // The next entry would begin past the data.
            proof {
                nothing_past_the_end(
                    d@,
                    at + 46 + name_len + skip,
                    left as int,
                    listed(out@),
                );
            }
            return out;
        }
        at = at + 46 + name_len + skip;
    }
    out
}

proof fn nothing_past_the_end(d: Seq<u8>, at: int, left: int, acc: Seq<Entry>)
    requires
        at > d.len(),
    ensures
        entries_from(d, at, left, acc) == acc,
{
}

/// Verify the checksums of members stored without compression: how many pass
/// and how many fail.
fn verify_stored_members(d: &[u8], members: &Vec<Member>) -> (r: (u64, u64))
    requires
        members@.len() <= 0xFFFF,
    ensures
        stored_from(d@, listed(members@), 0, 0, 0) == (r.0 as int, r.1 as int),
{
    let mark: [u8; 4] = [0x50, 0x4B, 0x03, 0x04];
    assert(mark@ =~= local_mark());
    let mut ok: u64 = 0;
    let mut bad: u64 = 0;
    let mut i: usize = 0;
    let ghost all = listed(members@);
    while i < members.len()
        invariant
            mark@ == local_mark(),
            i <= members@.len() <= 0xFFFF,
            ok <= i,
            bad <= i,
            all == listed(members@),
            stored_from(d@, all, 0, 0, 0) == stored_from(d@, all, i as int, ok as int, bad as int),
        decreases members@.len() - i,
    {
        assert(all[i as int].local == members@[i as int].local);
        let method: u16 = members[i].method;
        let compressed: u64 = members[i].compressed as u64;
        let lo: u64 = members[i].local as u64;
        if method == 0 && compressed != 0 && lo <= d.len() as u64 && bytes::has(
            d,
            lo as usize,
            30,
        ) && bytes::stands_at(d, &mark, lo as usize) {
            let lo: usize = lo as usize;
            let skip: usize = 30 + bytes::get16(d, lo + 26, false) as usize + bytes::get16(
                d,
                lo + 28,
                false,
            ) as usize;
            if skip <= d.len() - lo && compressed <= (d.len() - lo - skip) as u64 {
                let body: usize = lo + skip;
                let data: &[u8] = slice_subrange(d, body, body + compressed as usize);
                if crc32::crc32(data) == members[i].crc {
                    ok += 1;
                } else {
                    bad += 1;
                }
            }
        }
        i += 1;
    }
    (ok, bad)
}

/// ASCII text as bytes.
fn raw_bytes(s: &str) -> (r: &[u8])
    requires
        s.is_ascii(),
    ensures
        r@ == raw(s@),
{
    broadcast use vstd::string::is_ascii_spec_bytes;

    let r: &[u8] = s.as_bytes();
    assert(r@ =~= raw(s@));
    r
}

/// Whether a member has the given name.
fn has(members: &Vec<Member>, name: &str) -> (r: bool)
    requires
        name.is_ascii(),
    ensures
        r == has_member(listed(members@), raw(name@)),
{
    let want: &[u8] = raw_bytes(name);
    let mut i: usize = 0;
    while i < members.len()
        invariant
            i <= members@.len(),
            want@ == raw(name@),
            forall|j: int| 0 <= j < i ==> (#[trigger] listed(members@)[j]).name != want@,
        decreases members@.len() - i,
    {
        assert(listed(members@)[i as int].name == members@[i as int].name@);
        if bytes::same(members[i].name, want) {
            return true;
        }
        i += 1;
    }
    false
}

/// Whether a member lies under the given directory.
fn under(members: &Vec<Member>, dir: &str) -> (r: bool)
    requires
        dir.is_ascii(),
    ensures
        r == has_under(listed(members@), raw(dir@)),
{
    let want: &[u8] = raw_bytes(dir);
    let mut i: usize = 0;
    while i < members.len()
        invariant
            i <= members@.len(),
            want@ == raw(dir@),
            forall|j: int|
                0 <= j < i ==> !bytes::begins((#[trigger] listed(members@)[j]).name, want@),
        decreases members@.len() - i,
    {
        assert(listed(members@)[i as int].name == members@[i as int].name@);
        if bytes::stands_at(members[i].name, want, 0) {
            return true;
        }
        i += 1;
    }
    false
}

/// What an archive is, from its members.
fn name_kind(members: &Vec<Member>) -> (r: (&'static str, &'static str))
    ensures
        (r.0@, r.1@) == kind_of(listed(members@)),
{
    proof {
        reveal_strlit("[Content_Types].xml");
        reveal_strlit("word/");
        reveal_strlit("xl/");
        reveal_strlit("ppt/");
        reveal_strlit("META-INF/MANIFEST.MF");
        reveal_strlit("AndroidManifest.xml");
        reveal_strlit("mimetype");
        reveal_strlit("OEBPS/");
        reveal_strlit("META-INF/container.xml");
    }
    if has(members, "[Content_Types].xml") {
        // OOXML. The part tree says which application wrote it.
        if under(members, "word/") {
            ("docx", "OOXML word processing document")
        } else if under(members, "xl/") {
            ("xlsx", "OOXML spreadsheet")
        } else if under(members, "ppt/") {
            ("pptx", "OOXML presentation")
        } else {
            ("zip", "OOXML package of an unrecognised kind")
        }
    } else if has(members, "META-INF/MANIFEST.MF") {
        if has(members, "AndroidManifest.xml") {
            ("apk", "Android package")
        } else {
            ("jar", "Java archive")
        }
    } else if has(members, "mimetype") {
        if under(members, "OEBPS/") || has(members, "META-INF/container.xml") {
            ("epub", "EPUB publication")
        } else {
            ("odf", "OpenDocument package")
        }
    } else {
        ("zip", "ZIP archive")
    }
}

/// Decide what this archive is.
fn classify(d: &[u8], length: u64, declared: u16, members: &Vec<Member>, zip64: bool) -> (r: Outcome)
    requires
        members@.len() <= 0xFFFF,
    ensures
        r@ == classified(d@, length as int, declared as int, listed(members@), zip64),
{
    let (ext, what): (&'static str, &'static str) = name_kind(members);
    let (ok, bad): (u64, u64) = verify_stored_members(d, members);
    let read: usize = members.len();
    assert(listed(members@).len() == read);
    let out = if bad > 0 {
        // Damage to the contents, which the structure alone cannot show.
        Outcome::partial(
            length,
            text::cat3(
                text::decimal(bad).as_str(),
                " stored member(s) fail their CRC-32; the archive is complete but its contents are partially overwritten; ",
                what,
            ).as_str(),
        )
    } else if read < declared as usize {
        Outcome::partial(
            length,
            text::cat6(
                "the central directory declares ",
                text::decimal(declared as u64).as_str(),
                " members but only ",
                text::decimal(read as u64).as_str(),
                " could be read; ",
                what,
            ).as_str(),
        )
    } else {
        Outcome::valid(length)
    };
    let out = out.with_ext(ext).with("entries", declared).with("names_read", read).with(
        "zip64",
        zip64,
    ).with("stored_members_verified", ok).with("stored_members_failed", bad);
    if bad == 0 && read >= declared as usize {
        out.note(what)
    } else {
        out
    }
}

/// The ZIP64 record before the end record at `pos`.
fn read_zip64(d: &[u8], pos: usize) -> (r: Option<Outcome>)
    requires
        pos + 22 <= d@.len(),
    ensures
        match zip64_at(d@, pos as int) {
            Some(v) => r matches Some(o) && o@ == v,
            None => r is None,
        },
{
    let mark: [u8; 4] = [0x50, 0x4B, 0x06, 0x06];
    let central: [u8; 4] = [0x50, 0x4B, 0x01, 0x02];
    assert(mark@ =~= end64_mark());
    assert(central@ =~= central_mark());
    let z: usize = match search::rfind(slice_subrange(d, 0, pos), &mark) {
        Some(z) => z,
        None => {
            return None;
        },
    };
    proof {
        search::last_is_last(d@.subrange(0, pos as int), end64_mark(), pos as int);
    }
    if !bytes::has(d, z, 56) {
        return None;
    }
    let declared64: u64 = bytes::get64(d, z + 32, false);
    let declared: u16 = if declared64 <= 0xFFFF {
        declared64 as u16
    } else {
        0xFFFF
    };
    let at: u64 = bytes::get64(d, z + 48, false);
    if at > d.len() as u64 || !bytes::stands_at(d, &central, at as usize) {
        return None;
    }
    let comment: usize = bytes::get16(d, pos + 20, false) as usize;
    if comment > d.len() - pos - 22 {
        return None;
    }
    let members = read_central_directory(d, at as usize, declared);
    Some(classify(d, (pos + 22 + comment) as u64, declared, &members, true))
}

/// What the end record at `pos` describes.
fn read_end(d: &[u8], pos: usize) -> (r: Option<Outcome>)
    requires
        pos <= d@.len(),
    ensures
        match end_record(d@, pos as int) {
            Some(v) => r matches Some(o) && o@ == v,
            None => r is None,
        },
{
    if !bytes::has(d, pos, 22) {
        return None;
    }
    let declared: u16 = bytes::get16(d, pos + 10, false);
    let size: u64 = bytes::get32(d, pos + 12, false) as u64;
    let at: u64 = bytes::get32(d, pos + 16, false) as u64;
    let comment: usize = bytes::get16(d, pos + 20, false) as usize;
    if at == 0xFFFF_FFFF || declared == 0xFFFF {
        return read_zip64(d, pos);
    }
    let central: [u8; 4] = [0x50, 0x4B, 0x01, 0x02];
    assert(central@ =~= central_mark());
    if at > d.len() as u64 || !bytes::stands_at(d, &central, at as usize) {
        // A record that belongs to some other archive.
        return None;
    }
    if at + size > d.len() as u64 {
        return None;
    }
    if comment > d.len() - pos - 22 {
        return Some(
            Outcome::partial(
                (pos + 22) as u64,
                "the EOCD comment runs past the data",
            ).truncated(),
        );
    }
    let members = read_central_directory(d, at as usize, declared);
    Some(classify(d, (pos + 22 + comment) as u64, declared, &members, false))
}

/// How far the chain of local file headers can be followed.
fn walked_local_extent(d: &[u8]) -> (r: u64)
    ensures
        r == local_extent(d@, 0, 0),
{
    let mark: [u8; 4] = [0x50, 0x4B, 0x03, 0x04];
    assert(mark@ =~= local_mark());
    let mut at: usize = 0;
    let mut good: u64 = 0;
    while bytes::has(d, at, 30) && bytes::stands_at(d, &mark, at)
        invariant
            at <= d@.len(),
            mark@ == local_mark(),
            local_extent(d@, 0, 0) == local_extent(d@, at as int, good as int),
        decreases d@.len() - at,
    {
        let compressed: u64 = bytes::get32(d, at + 18, false) as u64;
        let header: u64 = 30 + bytes::get16(d, at + 26, false) as u64 + bytes::get16(
            d,
            at + 28,
            false,
        ) as u64;
        let left: u64 = (d.len() - at) as u64;
        if compressed == 0 || header + compressed > left {
            // Credit the header itself and stop.
            return if header <= left {
                at as u64 + header
            } else {
                at as u64 + 30
            };
        }
        at = at + (header + compressed) as usize;
        good = at as u64;
    }
    good
}

fn is_defined(method: u16) -> (r: bool)
    ensures
        r == defined_method(method as int),
{
    method == 0 || method == 1 || method == 6 || method == 8 || method == 9 || method == 12
        || method == 14 || (93 <= method && method <= 99)
}

/// Whether the data ends inside a header that can be one as far as it goes.
fn ends_in_header(d: &[u8]) -> (r: bool)
    ensures
        r == header_cut(d@),
{
    if d.len() >= 10 && !is_defined(bytes::get16(d, 8, false)) {
        return false;
    }
    if d.len() >= 28 {
        let name: usize = bytes::get16(d, 26, false) as usize;
        if name == 0 || name > 4096 || (d.len() >= 30 && name <= d.len() - 30) {
            return false;
        }
    }
    let mut i: usize = 30;
    while i < d.len()
        invariant
            30 <= i,
            forall|k: int| 30 <= k < i && k < d@.len() ==> #[trigger] d@[k] >= 0x20,
        decreases d@.len() - i,
    {
        if d[i] < 0x20 {
            return false;
        }
        i += 1;
    }
    true
}

/// Sanity-check the first local file header, so that a chance match in noise
/// is not reported as a truncated archive.
fn plausible_local_header(d: &[u8]) -> (r: bool)
    ensures
        r == plausible(d@),
{
    if d.len() < 30 {
        return false;
    }
    let name: usize = bytes::get16(d, 26, false) as usize;
    if !is_defined(bytes::get16(d, 8, false)) {
        return false;
    }
    if name == 0 || name > 4096 || name > d.len() - 30 {
        return false;
    }
    let mut i: usize = 30;
    while i < 30 + name
        invariant
            30 <= i <= 30 + name,
            30 + name <= d@.len(),
            name == bytes::u16_le(d@, 26),
            forall|k: int| 30 <= k < i ==> #[trigger] d@[k] >= 0x20,
        decreases 30 + name - i,
    {
        if d[i] < 0x20 {
            return false;
        }
        i += 1;
    }
    true
}

/// ZIP: the end of the archive's own end record.
pub fn validate(d: &[u8]) -> (r: Outcome)
    ensures
        r@ == verdict(d@),
{
    let local: [u8; 4] = [0x50, 0x4B, 0x03, 0x04];
    let end: [u8; 4] = [0x50, 0x4B, 0x05, 0x06];
    assert(local@ =~= local_mark());
    assert(end@ =~= end_mark());
    if d.len() < 4 {
        return Outcome::reject("shorter than a ZIP local file header").cut_if(
            bytes::agrees_at(d, &local, 0),
        );
    }
    if !bytes::stands_at(d, &local, 0) {
        return Outcome::reject("does not begin with a local file header");
    }
    // Try each end record in order and keep the first that describes this
    // archive.
    let mut from: usize = 0;
    loop
        invariant
            from <= d@.len(),
            end@ == end_mark(),
            bytes::begins(d@, local_mark()),
            d@.len() >= 4,
            ends_from(d@, 0) == ends_from(d@, from as int),
        ensures
            ends_from(d@, 0) is None,
        decreases d@.len() - from,
    {
        match search::find_from(d, &end, from) {
            None => {
                break;
            },
            Some(pos) => {
                if let Some(out) = read_end(d, pos) {
                    return out;
                }
                from = pos + 4;
            },
        }
    }
    // No usable end record: a truncated archive, or a chance match.
    if plausible_local_header(d) {
        Outcome::partial(
            walked_local_extent(d),
            "no end-of-central-directory record; the archive is truncated and its member index is gone, so this length is what the local headers justify rather than the file's real size",
        ).with("local_headers", search::count(d, &local)).truncated()
    } else {
        Outcome::reject("no central directory and the local header is not plausible").cut_if(
            ends_in_header(d),
        )
    }
}

proof fn ends_stay_inside(d: Seq<u8>, from: int)
    requires
        0 <= from,
    ensures
        ends_from(d, from) matches Some(v) ==> v.sound_for(d.len() as int),
    decreases d.len() - from,
{
    search::first_is_first(d, end_mark(), from);
    if let Some(pos) = search::first_from(d, end_mark(), from) {
        if end_record(d, pos) is None {
            ends_stay_inside(d, pos + 4);
        }
    }
}

proof fn extent_stays_inside(d: Seq<u8>, at: int, good: int)
    requires
        0 <= good <= d.len(),
    ensures
        0 <= local_extent(d, at, good) <= d.len(),
    decreases d.len() - at,
{
    let compressed = bytes::u32_le(d, at + 18);
    let header = 30 + bytes::u16_le(d, at + 26) + bytes::u16_le(d, at + 28);
    let next = at + header + compressed;
    if 0 <= at && at + 30 <= d.len() && next <= d.len() {
        extent_stays_inside(d, next, next);
    }
}

/// A rejection claims no length, a complete file is all there, and a damaged
/// one claims no more than was there unless it states its own size.
pub proof fn is_sound(d: Seq<u8>)
    ensures
        verdict(d).sound_for(d.len() as int),
{
    ends_stay_inside(d, 0);
    extent_stays_inside(d, 0, 0);
}

} // verus!
