//! ZIP archives, and the documents that are archives.

use vstd::prelude::*;
use crate::bytes;
use crate::crc32;
use crate::search;
use crate::text;
use super::super::{Status, Verdict, zip};
use super::{le16, le32, le64, stands};

verus! {

broadcast use super::group_read;

/// `PK` and two bytes that say of what.
pub open spec fn mark(a: u8, b: u8) -> Seq<u8> {
    seq![80u8, 75, a, b]
}

// ---------------------------------------------------------------------------
// The directory
// ---------------------------------------------------------------------------

/// Whether the `j`-th of these is an entry of a central directory, with a name,
/// an extra field and a comment behind its 46 bytes.
pub open spec fn nth_entry(d: Seq<u8>, cuts: Seq<int>, j: int) -> bool {
    let at = cuts[j];
    &&& at + 46 + le16(d, at + 28) <= d.len()
    &&& stands(d, mark(1, 2), at)
    &&& cuts[j + 1] == at + 46 + le16(d, at + 28) + le16(d, at + 30) + le16(d, at + 32)
}

/// Whether `cuts` are where the entries of a directory begin, and where the
/// last of them ends.
pub open spec fn directory(d: Seq<u8>, cuts: Seq<int>) -> bool {
    &&& cuts.len() > 0
    &&& forall|j: int| 0 <= j < cuts.len() - 1 ==> #[trigger] nth_entry(d, cuts, j)
}

/// The name in the entry at `at`.
pub open spec fn name_at(d: Seq<u8>, at: int) -> Seq<u8> {
    d.subrange(at + 46, at + 46 + le16(d, at + 28))
}

/// The members that the first `n` entries list.
spec fn members(d: Seq<u8>, cuts: Seq<int>, n: int) -> Seq<zip::Entry> {
    Seq::new(
        n as nat,
        |j: int|
            zip::Entry {
                name: name_at(d, cuts[j]),
                method: le16(d, cuts[j] + 10),
                crc: le32(d, cuts[j] + 16),
                compressed: le32(d, cuts[j] + 20),
                local: le32(d, cuts[j] + 42),
            },
    )
}

proof fn along_the_directory(d: Seq<u8>, cuts: Seq<int>, j: int)
    requires
        directory(d, cuts),
        0 <= j < cuts.len(),
    ensures
        zip::entries_from(d, cuts[j], cuts.len() - 1 - j, members(d, cuts, j)) == members(
            d,
            cuts,
            cuts.len() - 1,
        ),
    decreases cuts.len() - j,
{
    if j < cuts.len() - 1 {
        assert(nth_entry(d, cuts, j));
        assert(zip::central_mark() =~= mark(1, 2));
        assert(members(d, cuts, j).push(zip::entry_at(d, cuts[j])) =~= members(d, cuts, j + 1));
        along_the_directory(d, cuts, j + 1);
    }
}

// ---------------------------------------------------------------------------
// Members
// ---------------------------------------------------------------------------

/// Where the bytes of the member in the entry at `at` are, behind its local
/// header.
pub open spec fn body_at(d: Seq<u8>, at: int) -> int {
    let local = le32(d, at + 42);
    local + 30 + le16(d, local + 26) + le16(d, local + 28)
}

/// Whether the member in the entry at `at` is stored as it is, behind a local
/// header, and all there.
pub open spec fn is_stored(d: Seq<u8>, at: int) -> bool {
    let local = le32(d, at + 42);
    &&& le16(d, at + 10) == 0
    &&& le32(d, at + 20) > 0
    &&& local + 30 <= d.len()
    &&& stands(d, mark(3, 4), local)
    &&& body_at(d, at) + le32(d, at + 20) <= d.len()
}

/// Whether the bytes of a stored member have the checksum that its entry says.
pub open spec fn is_intact(d: Seq<u8>, at: int) -> bool {
    crc32::checksum(d.subrange(body_at(d, at), body_at(d, at) + le32(d, at + 20))) == le32(
        d,
        at + 16,
    )
}

/// How many of the members of the first `n` entries are stored, and intact or
/// not.
pub open spec fn stored(d: Seq<u8>, cuts: Seq<int>, n: int, intact: bool) -> int
    decreases n,
{
    if n <= 0 {
        0
    } else {
        stored(d, cuts, n - 1, intact) + (if is_stored(d, cuts[n - 1]) && is_intact(d, cuts[n - 1])
            == intact {
            1int
        } else {
            0int
        })
    }
}

proof fn along_the_members(d: Seq<u8>, cuts: Seq<int>, j: int)
    requires
        0 <= j < cuts.len(),
    ensures
        ({
            let n = cuts.len() - 1;
            zip::stored_from(
                d,
                members(d, cuts, n),
                j,
                stored(d, cuts, j, true),
                stored(d, cuts, j, false),
            ) == (stored(d, cuts, n, true), stored(d, cuts, n, false))
        }),
    decreases cuts.len() - j,
{
    let n = cuts.len() - 1;
    if j < n {
        let e = members(d, cuts, n)[j];
        assert(zip::local_mark() =~= mark(3, 4));
        assert(stands(d, mark(3, 4), e.local) == bytes::occurs_at(d, zip::local_mark(), e.local));
        assert(zip::stored_range(d, e) == (if is_stored(d, cuts[j]) {
            Some((body_at(d, cuts[j]), body_at(d, cuts[j]) + le32(d, cuts[j] + 20)))
        } else {
            None
        }));
        along_the_members(d, cuts, j + 1);
    }
}

proof fn none_fails(d: Seq<u8>, cuts: Seq<int>, n: int)
    requires
        0 <= n,
    ensures
        stored(d, cuts, n, false) >= 0,
        stored(d, cuts, n, false) == 0 <==> forall|j: int|
            0 <= j < n && is_stored(d, #[trigger] cuts[j]) ==> is_intact(d, cuts[j]),
    decreases n,
{
    if n > 0 {
        none_fails(d, cuts, n - 1);
    }
}

// ---------------------------------------------------------------------------
// What it is
// ---------------------------------------------------------------------------

/// The bytes of a text.
pub open spec fn spelled(s: Seq<char>) -> Seq<u8> {
    s.map_values(|c: char| c as u8)
}

/// Whether a member has this name.
pub open spec fn holds(d: Seq<u8>, cuts: Seq<int>, name: Seq<char>) -> bool {
    exists|j: int| 0 <= j < cuts.len() - 1 && name_at(d, #[trigger] cuts[j]) == spelled(name)
}

/// Whether the name of a member begins with this.
pub open spec fn holds_under(d: Seq<u8>, cuts: Seq<int>, dir: Seq<char>) -> bool {
    exists|j: int|
        0 <= j < cuts.len() - 1 && stands(name_at(d, #[trigger] cuts[j]), spelled(dir), 0)
}

/// Whether this is the extension for an archive with these members. A package
/// with a list of content types is an Office document, of the kind that its
/// directories say. One with a manifest is a Java archive, or an Android
/// package. One that names its own type is a publication or an OpenDocument
/// file. Any other is just an archive.
pub open spec fn is_ext(d: Seq<u8>, cuts: Seq<int>, ext: Seq<char>) -> bool {
    let office = holds(d, cuts, "[Content_Types].xml"@);
    let word = holds_under(d, cuts, "word/"@);
    let xl = holds_under(d, cuts, "xl/"@);
    let ppt = holds_under(d, cuts, "ppt/"@);
    let java = !office && holds(d, cuts, "META-INF/MANIFEST.MF"@);
    let android = holds(d, cuts, "AndroidManifest.xml"@);
    let typed = !office && !java && holds(d, cuts, "mimetype"@);
    let book = holds_under(d, cuts, "OEBPS/"@) || holds(d, cuts, "META-INF/container.xml"@);
    &&& office && word ==> ext == "docx"@
    &&& office && !word && xl ==> ext == "xlsx"@
    &&& office && !word && !xl && ppt ==> ext == "pptx"@
    &&& java && android ==> ext == "apk"@
    &&& java && !android ==> ext == "jar"@
    &&& typed && book ==> ext == "epub"@
    &&& typed && !book ==> ext == "odf"@
    &&& office && !word && !xl && !ppt ==> ext == "zip"@
    &&& !office && !java && !typed ==> ext == "zip"@
}

proof fn name_read(d: Seq<u8>, cuts: Seq<int>, name: Seq<char>)
    requires
        cuts.len() > 0,
    ensures
        zip::has_member(members(d, cuts, cuts.len() - 1), zip::raw(name)) == holds(d, cuts, name),
        zip::has_under(members(d, cuts, cuts.len() - 1), zip::raw(name)) == holds_under(
            d,
            cuts,
            name,
        ),
{
    let all = members(d, cuts, cuts.len() - 1);
    assert(zip::raw(name) =~= spelled(name));
    if zip::has_member(all, zip::raw(name)) {
        let i = choose|i: int| 0 <= i < all.len() && (#[trigger] all[i]).name == zip::raw(name);
        assert(name_at(d, cuts[i]) == spelled(name));
    }
    if holds(d, cuts, name) {
        let i = choose|i: int|
            0 <= i < cuts.len() - 1 && name_at(d, #[trigger] cuts[i]) == spelled(name);
        assert(all[i].name == spelled(name));
    }
    if zip::has_under(all, zip::raw(name)) {
        let i = choose|i: int|
            0 <= i < all.len() && bytes::begins((#[trigger] all[i]).name, zip::raw(name));
        assert(stands(name_at(d, cuts[i]), spelled(name), 0));
    }
    if holds_under(d, cuts, name) {
        let i = choose|i: int|
            0 <= i < cuts.len() - 1 && stands(name_at(d, #[trigger] cuts[i]), spelled(name), 0);
        assert(bytes::begins(all[i].name, spelled(name)));
    }
}

/// The extension is the one that the members call for.
proof fn ext_read(d: Seq<u8>, cuts: Seq<int>)
    requires
        cuts.len() > 0,
    ensures
        is_ext(d, cuts, zip::kind_of(members(d, cuts, cuts.len() - 1)).0),
{
    name_read(d, cuts, "[Content_Types].xml"@);
    name_read(d, cuts, "word/"@);
    name_read(d, cuts, "xl/"@);
    name_read(d, cuts, "ppt/"@);
    name_read(d, cuts, "META-INF/MANIFEST.MF"@);
    name_read(d, cuts, "AndroidManifest.xml"@);
    name_read(d, cuts, "mimetype"@);
    name_read(d, cuts, "OEBPS/"@);
    name_read(d, cuts, "META-INF/container.xml"@);
}

// ---------------------------------------------------------------------------
// The end of the directory
// ---------------------------------------------------------------------------

/// Whether the fields of the end record at `pos` are placeholders for those of
/// a 64-bit record.
pub open spec fn is_wide(d: Seq<u8>, pos: int) -> bool {
    le32(d, pos + 16) == 0xFFFF_FFFF || le16(d, pos + 10) == 0xFFFF
}

/// Whether the end record at `pos` is not that of an archive that begins here:
/// it is cut short, or no directory is where it says.
pub open spec fn is_foreign(d: Seq<u8>, pos: int) -> bool {
    ||| pos + 22 > d.len()
    ||| !is_wide(d, pos) && !stands(d, mark(1, 2), le32(d, pos + 16))
    ||| !is_wide(d, pos) && le32(d, pos + 16) + le32(d, pos + 12) > d.len()
}

/// Whether the first end record that is not foreign stands at `pos`.
pub open spec fn ends_at(d: Seq<u8>, pos: int) -> bool {
    &&& stands(d, mark(5, 6), pos)
    &&& forall|q: int| 0 <= q < pos && #[trigger] stands(d, mark(5, 6), q) ==> is_foreign(d, q)
}

proof fn marks_do_not_overlap(d: Seq<u8>, p: int, q: int)
    requires
        stands(d, mark(5, 6), p),
        stands(d, mark(5, 6), q),
        p < q,
    ensures
        p + 4 <= q,
{
    let m = mark(5, 6);
    assert(d[q + 0] == m[0]);
    assert(d[p + 1] == m[1] && d[p + 2] == m[2] && d[p + 3] == m[3]);
}

proof fn along_the_ends(d: Seq<u8>, pos: int, from: int)
    requires
        ends_at(d, pos),
        0 <= from <= pos,
        zip::end_record(d, pos) is Some,
    ensures
        zip::ends_from(d, from) == zip::end_record(d, pos),
    decreases pos - from,
{
    assert(zip::end_mark() =~= mark(5, 6));
    assert(zip::central_mark() =~= mark(1, 2));
    search::first_is_first(d, mark(5, 6), from);
    assert(bytes::occurs_at(d, mark(5, 6), pos)) by {
        assert(stands(d, mark(5, 6), pos));
    }
    let q = search::first_from(d, mark(5, 6), from)->0;
    assert(stands(d, mark(5, 6), q)) by {
        super::mark_read(d, mark(5, 6), q);
    }
    if q < pos {
        assert(is_foreign(d, q));
        super::mark_read(d, mark(1, 2), le32(d, q + 16));
        assert(zip::end_record(d, q) is None);
        marks_do_not_overlap(d, q, pos);
        along_the_ends(d, pos, q + 4);
    }
}

/// Whether `v` is the verdict on an archive of `length` bytes with this
/// directory: complete exactly where no stored member fails its checksum, and
/// with the extension that its members call for.
pub open spec fn archived(
    v: Verdict,
    d: Seq<u8>,
    length: int,
    cuts: Seq<int>,
    wide: bool,
) -> bool {
    let n = cuts.len() - 1;
    &&& v.length == length
    &&& v.status == (if forall|j: int|
        0 <= j < n && is_stored(d, #[trigger] cuts[j]) ==> is_intact(d, cuts[j]) {
        Status::Valid
    } else {
        Status::Partial
    })
    &&& !v.ran_out
    &&& v.refined_ext matches Some(ext) && is_ext(d, cuts, ext)
    &&& v.evidence == seq![
        ("entries"@, text::dec(n)),
        ("names_read"@, text::dec(n)),
        (
            "zip64"@,
            if wide {
                "true"@
            } else {
                "false"@
            },
        ),
        ("stored_members_verified"@, text::dec(stored(d, cuts, n, true))),
        ("stored_members_failed"@, text::dec(stored(d, cuts, n, false))),
    ]
}

proof fn archive_read(d: Seq<u8>, length: int, cuts: Seq<int>, wide: bool)
    requires
        directory(d, cuts),
    ensures
        ({
            let n = cuts.len() - 1;
            archived(
                zip::classified(
                    d,
                    length,
                    n,
                    zip::entries_from(d, cuts[0], n, Seq::empty()),
                    wide,
                ),
                d,
                length,
                cuts,
                wide,
            )
        }),
{
    let n = cuts.len() - 1;
    along_the_directory(d, cuts, 0);
    assert(members(d, cuts, 0) =~= Seq::<zip::Entry>::empty());
    along_the_members(d, cuts, 0);
    none_fails(d, cuts, n);
    ext_read(d, cuts);
    let v = zip::classified(d, length, n, members(d, cuts, n), wide);
    assert(v.evidence =~= seq![
        ("entries"@, text::dec(n)),
        ("names_read"@, text::dec(n)),
        (
            "zip64"@,
            if wide {
                "true"@
            } else {
                "false"@
            },
        ),
        ("stored_members_verified"@, text::dec(stored(d, cuts, n, true))),
        ("stored_members_failed"@, text::dec(stored(d, cuts, n, false))),
    ]);
}

proof fn wide_found(d: Seq<u8>, pos: int, wide: int)
    requires
        0 <= wide,
        wide + 4 <= pos <= d.len(),
        stands(d, mark(6, 6), wide),
        forall|q: int| wide < q && q + 4 <= pos ==> !#[trigger] stands(d, mark(6, 6), q),
    ensures
        search::last_upto(d.subrange(0, pos), zip::end64_mark(), pos) == Some(wide),
{
    assert(zip::end64_mark() =~= mark(6, 6));
    let before = d.subrange(0, pos);
    search::last_is_last(before, mark(6, 6), pos);
    assert forall|q: int| 0 <= q && q + 4 <= pos implies bytes::occurs_at(before, mark(6, 6), q)
        == stands(d, mark(6, 6), q) by {
        super::mark_read(d, mark(6, 6), q);
        assert(before.subrange(q, q + 4) =~= d.subrange(q, q + 4));
    }
    assert(bytes::occurs_at(before, mark(6, 6), wide));
    let z = search::last_upto(before, mark(6, 6), pos)->0;
    if z > wide {
        assert(!stands(d, mark(6, 6), z));
    }
}

/// An archive that begins with a local header, and whose end record names a
/// directory that lists as many members as it declares, ends with that record
/// and its comment. It is complete exactly where no stored member fails its
/// checksum. It has the extension that its members call for.
pub proof fn an_archive_ends_with_its_record(d: Seq<u8>, pos: int, cuts: Seq<int>)
    requires
        stands(d, mark(3, 4), 0),
        ends_at(d, pos),
        !is_wide(d, pos),
        pos + 22 + le16(d, pos + 20) <= d.len(),
        directory(d, cuts),
        cuts.len() - 1 == le16(d, pos + 10),
        cuts[0] == le32(d, pos + 16),
        stands(d, mark(1, 2), cuts[0]),
        cuts[0] + le32(d, pos + 12) <= d.len(),
    ensures
        archived(zip::verdict(d), d, pos + 22 + le16(d, pos + 20), cuts, false),
{
    assert(zip::local_mark() =~= mark(3, 4));
    assert(zip::central_mark() =~= mark(1, 2));
    super::mark_read(d, mark(3, 4), 0);
    super::mark_read(d, mark(1, 2), cuts[0]);
    archive_read(d, pos + 22 + le16(d, pos + 20), cuts, false);
    along_the_ends(d, pos, 0);
}

/// An archive whose end record holds placeholders is described by the 64-bit
/// record before it, the last one there is: that says where its directory is,
/// and how many members it lists. All else is as in any archive.
pub proof fn a_large_archive_goes_by_its_64_bit_record(
    d: Seq<u8>,
    pos: int,
    wide: int,
    cuts: Seq<int>,
)
    requires
        stands(d, mark(3, 4), 0),
        ends_at(d, pos),
        is_wide(d, pos),
        pos + 22 + le16(d, pos + 20) <= d.len(),
        0 <= wide,
        wide + 56 <= d.len(),
        wide + 4 <= pos,
        stands(d, mark(6, 6), wide),
        forall|q: int| wide < q && q + 4 <= pos ==> !#[trigger] stands(d, mark(6, 6), q),
        directory(d, cuts),
        cuts.len() - 1 == le64(d, wide + 32),
        cuts.len() - 1 <= 0xFFFF,
        cuts[0] == le64(d, wide + 48),
        stands(d, mark(1, 2), cuts[0]),
    ensures
        archived(zip::verdict(d), d, pos + 22 + le16(d, pos + 20), cuts, true),
{
    assert(zip::local_mark() =~= mark(3, 4));
    assert(zip::central_mark() =~= mark(1, 2));
    super::mark_read(d, mark(3, 4), 0);
    super::mark_read(d, mark(1, 2), cuts[0]);
    archive_read(d, pos + 22 + le16(d, pos + 20), cuts, true);
    wide_found(d, pos, wide);
    assert(zip::zip64_at(d, pos) is Some);
    along_the_ends(d, pos, 0);
}

// ---------------------------------------------------------------------------
// Without a directory
// ---------------------------------------------------------------------------

/// Whether the `j`-th of these is a member behind its local header, of a size
/// that the header states.
pub open spec fn nth_local(d: Seq<u8>, cuts: Seq<int>, j: int) -> bool {
    let at = cuts[j];
    &&& at + 30 <= d.len()
    &&& stands(d, mark(3, 4), at)
    &&& le32(d, at + 18) > 0
    &&& cuts[j + 1] == at + 30 + le16(d, at + 26) + le16(d, at + 28) + le32(d, at + 18)
    &&& cuts[j + 1] <= d.len()
}

proof fn along_the_locals(d: Seq<u8>, cuts: Seq<int>, j: int)
    requires
        0 <= j < cuts.len(),
        forall|k: int| 0 <= k < cuts.len() - 1 ==> #[trigger] nth_local(d, cuts, k),
        !stands(d, mark(3, 4), cuts.last()),
        0 <= cuts.last(),
        cuts.last() + 30 <= d.len(),
    ensures
        zip::local_extent(d, cuts[j], cuts[j]) == cuts.last(),
    decreases cuts.len() - j,
{
    assert(zip::local_mark() =~= mark(3, 4));
    super::mark_read(d, mark(3, 4), cuts[j]);
    if j < cuts.len() - 1 {
        assert(nth_local(d, cuts, j));
        along_the_locals(d, cuts, j + 1);
    }
}

/// An archive without a directory of its own is carved as far as its members
/// follow each other, where its first local header can be one: a defined
/// method, and a name of printable bytes. The data ran out on it.
pub proof fn an_archive_without_a_directory_keeps_its_members(d: Seq<u8>, cuts: Seq<int>)
    requires
        cuts.len() > 1,
        cuts[0] == 0,
        forall|k: int| 0 <= k < cuts.len() - 1 ==> #[trigger] nth_local(d, cuts, k),
        !stands(d, mark(3, 4), cuts.last()),
        0 <= cuts.last(),
        cuts.last() + 30 <= d.len(),
        forall|q: int| 0 <= q ==> !#[trigger] stands(d, mark(5, 6), q),
        le16(d, 8) == 0 || le16(d, 8) == 8,
        1 <= le16(d, 26) <= 4096,
        forall|i: int| 30 <= i < 30 + le16(d, 26) ==> #[trigger] d[i] >= 32,
    ensures
        ({
            let v = zip::verdict(d);
            &&& v.status == Status::Partial
            &&& v.length == cuts.last()
            &&& !v.length_established
            &&& v.ran_out
            &&& v.refined_ext is None
        }),
{
    assert(nth_local(d, cuts, 0));
    assert(zip::local_mark() =~= mark(3, 4));
    assert(zip::end_mark() =~= mark(5, 6));
    super::mark_read(d, mark(3, 4), 0);
    search::first_is_first(d, mark(5, 6), 0);
    if search::first_from(d, mark(5, 6), 0) is Some {
        let q = search::first_from(d, mark(5, 6), 0)->0;
        super::mark_read(d, mark(5, 6), q);
        assert(stands(d, mark(5, 6), q));
    }
    along_the_locals(d, cuts, 0);
}

proof fn along_a_short_directory(d: Seq<u8>, cuts: Seq<int>, declared: int, j: int)
    requires
        directory(d, cuts),
        0 <= j < cuts.len(),
        cuts.len() - 1 < declared,
        ({
            let at = cuts.last();
            ||| at + 46 > d.len()
            ||| !stands(d, mark(1, 2), at)
            ||| at + 46 + le16(d, at + 28) > d.len()
        }),
    ensures
        zip::entries_from(d, cuts[j], declared - j, members(d, cuts, j)) == members(
            d,
            cuts,
            cuts.len() - 1,
        ),
    decreases cuts.len() - j,
{
    assert(zip::central_mark() =~= mark(1, 2));
    if j < cuts.len() - 1 {
        assert(nth_entry(d, cuts, j));
        assert(members(d, cuts, j).push(zip::entry_at(d, cuts[j])) =~= members(d, cuts, j + 1));
        along_a_short_directory(d, cuts, declared, j + 1);
    } else {
        super::mark_read(d, mark(1, 2), cuts[j]);
    }
}

/// An archive whose directory breaks off before it has listed as many members as
/// are declared is not complete. It still ends with its end record.
pub proof fn a_directory_that_breaks_off_is_told(d: Seq<u8>, pos: int, cuts: Seq<int>)
    requires
        stands(d, mark(3, 4), 0),
        ends_at(d, pos),
        !is_wide(d, pos),
        pos + 22 + le16(d, pos + 20) <= d.len(),
        directory(d, cuts),
        cuts.len() - 1 < le16(d, pos + 10),
        cuts[0] == le32(d, pos + 16),
        stands(d, mark(1, 2), cuts[0]),
        cuts[0] + le32(d, pos + 12) <= d.len(),
        ({
            let at = cuts.last();
            ||| at + 46 > d.len()
            ||| !stands(d, mark(1, 2), at)
            ||| at + 46 + le16(d, at + 28) > d.len()
        }),
    ensures
        ({
            let v = zip::verdict(d);
            &&& v.status == Status::Partial
            &&& v.length == pos + 22 + le16(d, pos + 20)
            &&& !v.ran_out
            &&& v.refined_ext matches Some(ext) && is_ext(d, cuts, ext)
        }),
{
    assert(zip::local_mark() =~= mark(3, 4));
    assert(zip::central_mark() =~= mark(1, 2));
    super::mark_read(d, mark(3, 4), 0);
    super::mark_read(d, mark(1, 2), cuts[0]);
    along_a_short_directory(d, cuts, le16(d, pos + 10), 0);
    assert(members(d, cuts, 0) =~= Seq::<zip::Entry>::empty());
    ext_read(d, cuts);
    along_the_ends(d, pos, 0);
}

/// An archive whose comment the data ends in is cut short, and keeps everything
/// up to the comment.
pub proof fn a_comment_cut_short_is_told(d: Seq<u8>, pos: int)
    requires
        stands(d, mark(3, 4), 0),
        ends_at(d, pos),
        !is_wide(d, pos),
        !is_foreign(d, pos),
        pos + 22 + le16(d, pos + 20) > d.len(),
    ensures
        ({
            let v = zip::verdict(d);
            &&& v.status == Status::Partial
            &&& v.length == pos + 22
            &&& v.ran_out
        }),
{
    assert(zip::local_mark() =~= mark(3, 4));
    assert(zip::central_mark() =~= mark(1, 2));
    super::mark_read(d, mark(3, 4), 0);
    super::mark_read(d, mark(1, 2), le32(d, pos + 16));
    along_the_ends(d, pos, 0);
}

/// What does not begin with a local header is no archive.
pub proof fn only_an_archive_is_carved(d: Seq<u8>)
    requires
        d.len() < 4 || !stands(d, mark(3, 4), 0),
    ensures
        zip::verdict(d).status == Status::Rejected,
{
    assert(zip::local_mark() =~= mark(3, 4));
    if d.len() >= 4 {
        super::mark_read(d, mark(3, 4), 0);
    }
}

} // verus!
