//! Reading a few sectors of real hardware: what is refused, what is read, and
//! what the reads must agree on.

use vstd::prelude::*;
use vstd::string::*;
use crate::bifrag;
use crate::bytes;
use crate::cmd::image;
use crate::hash;
use crate::output;
use crate::text;

verus! {

/// Whether a path looks like the drive the system runs from. That is no
/// certainty, but on a normal machine it is, and getting it wrong is
/// unrecoverable.
pub open spec fn looks_like_system(path: Seq<char>) -> bool {
    let p = text::ascii_lower(path);
    image::ends_in(p, "physicaldrive0"@) || p == "/dev/sda"@ || p == "/dev/disk0"@
}

fn ends_with(s: &str, end: &str) -> (r: bool)
    ensures
        r == image::ends_in(s@, end@),
{
    let n: usize = s.unicode_len();
    let m: usize = end.unicode_len();
    if n < m {
        return false;
    }
    text::same_text(s.substring_char(n - m, n), end)
}

/// The pieces of a list between its commas.
pub open spec fn pieces(s: Seq<char>, from: int, i: int) -> Seq<Seq<char>>
    decreases s.len() - i,
{
    if i < 0 || i >= s.len() {
        seq![s.subrange(from, s.len() as int)]
    } else if s[i] == ',' {
        seq![s.subrange(from, i)] + pieces(s, i + 1, i + 1)
    } else {
        pieces(s, from, i + 1)
    }
}

/// Whether two paths are the same, but for the case of A to Z and white space
/// around them.
pub open spec fn same_path(a: Seq<char>, b: Seq<char>) -> bool {
    text::ascii_lower(text::trimmed(a)) == text::ascii_lower(text::trimmed(b))
}

/// Whether one of a list of devices is `path`.
pub open spec fn one_is(devices: Seq<Seq<char>>, path: Seq<char>) -> bool {
    exists|i: int| 0 <= i < devices.len() && same_path(#[trigger] devices[i], path)
}

fn path_matches(a: &str, b: &str) -> (r: bool)
    ensures
        r == same_path(a@, b@),
{
    text::same_text(
        text::to_ascii_lower(text::trim(a)).as_str(),
        text::to_ascii_lower(text::trim(b)).as_str(),
    )
}

/// Whether one of the devices of a list, separated by commas, is `path`.
pub fn lists(devices: &str, path: &str) -> (r: bool)
    ensures
        r == one_is(pieces(devices@, 0, 0), path@),
{
    let n: usize = devices.unicode_len();
    let c: Vec<char> = text::letters(devices);
    let mut from: usize = 0;
    let mut i: usize = 0;
    let ghost all = pieces(devices@, 0, 0);
    let ghost mut before: Seq<Seq<char>> = Seq::empty();
    assert(all =~= before + all);
    while i < n
        invariant
            c@ == devices@,
            n == devices@.len(),
            from <= i <= n,
            all == pieces(devices@, 0, 0),
            all == before + pieces(devices@, from as int, i as int),
            forall|k: int| 0 <= k < before.len() ==> !same_path(#[trigger] before[k], path@),
        decreases n - i,
    {
        if c[i] == ',' {
            let piece: &str = devices.substring_char(from, i);
            proof {
                let rest = pieces(devices@, i + 1, i + 1);
                assert(all =~= before.push(piece@) + rest);
                assert(all[before.len() as int] == piece@);
            }
            if path_matches(piece, path) {
                return true;
            }
            proof {
                before = before.push(piece@);
            }
            from = i + 1;
        }
        i += 1;
    }
    let piece: &str = devices.substring_char(from, n);
    assert(all =~= before.push(piece@));
    assert(all[before.len() as int] == piece@);
    path_matches(piece, path)
}

/// Whether a device may be read: not one that looks like the system drive,
/// unless that check is relaxed, and never one that the running program is
/// stored on. `backing` lists the devices it is stored on, where they are
/// known.
pub fn guard_system_drive(path: &str, relaxed: bool, backing: &Option<String>) -> (r: Result<
    (),
    String,
>)
    ensures
        ({
            let stored = backing matches Some(b) && one_is(pieces(b@, 0, 0), path@);
            match r {
                Ok(_) => (relaxed || !looks_like_system(path@)) && !stored,
                Err(m) => if !relaxed && looks_like_system(path@) {
                    m@ == path@
                        + " looks like the system drive. Refusing.\nPoint this at a removable device instead."@
                } else {
                    stored && m@ == path@
                        + " is the device this program is running from. Refusing."@
                },
            }
        }),
{
    let p: String = text::to_ascii_lower(path);
    if !relaxed && (ends_with(p.as_str(), "physicaldrive0") || text::same_text(
        p.as_str(),
        "/dev/sda",
    ) || text::same_text(p.as_str(), "/dev/disk0")) {
        return Err(
            text::cat2(
                path,
                " looks like the system drive. Refusing.\nPoint this at a removable device instead.",
            ),
        );
    }
    match backing {
        Some(b) => if lists(b.as_str(), path) {
            Err(text::cat2(path, " is the device this program is running from. Refusing."))
        } else {
            Ok(())
        },
        None => Ok(()),
    }
}

/// A range to read.
#[derive(Clone, Debug)]
pub struct ProbePoint {
    pub label: &'static str,
    pub offset: u64,
    pub length: u64,
}

/// How many sectors to read at once: as many as asked for, but no more than
/// there are, and at least one.
pub open spec fn sectors_read(asked: int, total: int) -> int {
    let n = if asked <= total {
        asked
    } else {
        total
    };
    if n >= 1 {
        n
    } else {
        1
    }
}

/// Where to read: the first sectors; a range that no sector begins at, which is
/// the whole point; and a sector in the middle.
pub fn probes(asked: u64, total: u64, sector: u32) -> (r: Vec<ProbePoint>)
    requires
        total > 0,
        total * sector <= u64::MAX,
    ensures
        r@.len() == 3,
        r@[0].label@ == "LBA 0 (aligned)"@,
        r@[0].offset == 0,
        r@[0].length == sectors_read(asked as int, total as int) * sector,
        r@[1].label@ == "4K-unaligned byte offset"@,
        r@[1].offset == sector + 3,
        r@[1].length == 1000,
        r@[2].label@ == "mid-device (aligned)"@,
        r@[2].offset == (total / 2) * sector,
        r@[2].length == sector,
{
    let least: u64 = if asked <= total {
        asked
    } else {
        total
    };
    let n: u64 = if least >= 1 {
        least
    } else {
        1
    };
    let s: u64 = sector as u64;
    proof {
        assert(n * s <= total * s) by (nonlinear_arith)
            requires
                n <= total,
                s >= 0,
        ;
        assert((total / 2) * s <= total * s) by (nonlinear_arith)
            requires
                s >= 0,
                total >= 0,
        ;
    }
    let mut v: Vec<ProbePoint> = Vec::new();
    v.push(ProbePoint { label: "LBA 0 (aligned)", offset: 0, length: n * s });
    v.push(ProbePoint { label: "4K-unaligned byte offset", offset: s + 3, length: 1000 });
    v.push(ProbePoint { label: "mid-device (aligned)", offset: (total / 2) * s, length: s });
    v
}

// ---------------------------------------------------------------------------
// What the reads come to
// ---------------------------------------------------------------------------

/// Everything that was read of a device.
#[derive(Clone, Debug)]
pub struct Reads {
    /// What was read of each probe, and what was read of it again.
    pub first: Vec<Vec<u8>>,
    pub second: Vec<Vec<u8>>,
    /// The first two sectors.
    pub wide: Vec<u8>,
    /// A hundred bytes from seven bytes into the second sector on.
    pub narrow: Vec<u8>,
    /// The first two sectors, read to an aligned and to a misaligned address.
    pub aligned: Vec<u8>,
    pub misaligned: Vec<u8>,
}

/// All that was read of the probes, one after the other.
pub open spec fn in_a_row(reads: Seq<Vec<u8>>) -> Seq<u8> {
    bifrag::joined(bifrag::contents(reads), reads.len() as int)
}

/// What was read of one probe.
#[derive(Clone, Debug)]
pub struct Probed {
    pub label: &'static str,
    pub offset: u64,
    pub requested: u64,
    pub got: usize,
    pub sha256: String,
}

/// What the reads of a device come to.
#[derive(Clone, Debug)]
pub struct Findings {
    pub probes: Vec<Probed>,
    /// The hash of all probes, and of all probes read again.
    pub before: String,
    pub after: String,
    /// Those two are the same.
    pub unchanged: bool,
    /// A read at an unaligned offset gave the bytes of the aligned read.
    pub offset_consistent: bool,
    /// The same sectors were the same at an aligned and a misaligned address.
    pub buffer_consistent: bool,
    /// And the same as in the wide read.
    pub direct_consistent: bool,
}

impl Findings {
    /// Whether every way to read the same bytes gave the same bytes.
    pub open spec fn consistent(self) -> bool {
        self.offset_consistent && self.buffer_consistent && self.direct_consistent
    }
}

/// Whether a probe's findings are those of reading `data` at `p`.
pub open spec fn probed_as(f: Probed, p: ProbePoint, data: Seq<u8>) -> bool {
    &&& f.label == p.label
    &&& f.offset == p.offset
    &&& f.requested == p.length
    &&& f.got == data.len()
    &&& f.sha256@ == hash::hash_text(data)
}

/// Whether a hundred bytes are those that stand seven bytes into the second
/// sector.
pub open spec fn stands_inside(narrow: Seq<u8>, wide: Seq<u8>, sector: int) -> bool {
    narrow == wide.subrange(sector + 7, sector + 107)
}

/// Hold the reads of a device against each other.
pub fn compare(points: &Vec<ProbePoint>, reads: &Reads, sector: u32) -> (r: Findings)
    requires
        points@.len() == reads.first@.len(),
        sector + 107 <= reads.wide@.len(),
    ensures
        r.probes@.len() == points@.len(),
        forall|i: int|
            0 <= i < points@.len() ==> probed_as(
                #[trigger] r.probes@[i],
                points@[i],
                reads.first@[i]@,
            ),
        r.before@ == hash::hash_text(in_a_row(reads.first@)),
        r.after@ == hash::hash_text(in_a_row(reads.second@)),
        r.unchanged == (hash::sha256(in_a_row(reads.first@)) == hash::sha256(in_a_row(reads.second@))),
        r.offset_consistent == stands_inside(reads.narrow@, reads.wide@, sector as int),
        r.buffer_consistent == (reads.aligned@ == reads.misaligned@),
        r.direct_consistent == (reads.aligned@ == reads.wide@),
{
    let mut probes: Vec<Probed> = Vec::new();
    let mut i: usize = 0;
    while i < points.len()
        invariant
            i <= points@.len(),
            points@.len() == reads.first@.len(),
            probes@.len() == i,
            forall|j: int|
                0 <= j < i ==> probed_as(
                    #[trigger] probes@[j],
                    points@[j],
                    reads.first@[j]@,
                ),
        decreases points@.len() - i,
    {
        let p = &points[i];
        let data = &reads.first[i];
        probes.push(
            Probed {
                label: p.label,
                offset: p.offset,
                requested: p.length,
                got: data.len(),
                sha256: hash::hashed(data.as_slice()),
            },
        );
        i += 1;
    }
    let first = bifrag::join(&reads.first);
    let second = bifrag::join(&reads.second);
    let before = hash::digest(first.as_slice());
    let after = hash::digest(second.as_slice());
    let at: usize = sector as usize;
    assert(at + 107 <= reads.wide.len());
    Findings {
        probes,
        before: hash::hex_of(before.as_slice()),
        after: hash::hex_of(after.as_slice()),
        unchanged: bytes::same(before.as_slice(), after.as_slice()),
        offset_consistent: bytes::same(
            reads.narrow.as_slice(),
            vstd::slice::slice_subrange(reads.wide.as_slice(), at + 7, at + 107),
        ),
        buffer_consistent: bytes::same(reads.aligned.as_slice(), reads.misaligned.as_slice()),
        direct_consistent: bytes::same(reads.aligned.as_slice(), reads.wide.as_slice()),
    }
}

/// Whether the reads agree: the same range hashed the same twice, and every way
/// to read the same bytes gave the same bytes.
pub fn judge(f: &Findings) -> (r: Result<(), &'static str>)
    ensures
        match r {
            Ok(_) => f.unchanged && f.consistent(),
            Err(m) => if !f.unchanged {
                m@
                    == "the same byte range hashed differently on a second read; the read path is not stable on this device"@
            } else {
                !f.consistent() && m@
                    == "an unaligned read disagreed with the aligned read of the same bytes; the sector-alignment handling is wrong on this device"@
            },
        },
{
    if !f.unchanged {
        Err(
            "the same byte range hashed differently on a second read; the read path is not stable on this device",
        )
    } else if !(f.offset_consistent && f.buffer_consistent && f.direct_consistent) {
        Err(
            "an unaligned read disagreed with the aligned read of the same bytes; the sector-alignment handling is wrong on this device",
        )
    } else {
        Ok(())
    }
}

/// A device that gives the same bytes however they are read passes.
pub proof fn a_stable_device_passes(dev: Seq<u8>, reads: Reads, sector: int)
    requires
        107 <= sector,
        2 * sector <= dev.len(),
        bifrag::contents(reads.first@) == bifrag::contents(reads.second@),
        reads.wide@ == dev.subrange(0, 2 * sector),
        reads.narrow@ == dev.subrange(sector + 7, sector + 107),
        reads.aligned@ == dev.subrange(0, 2 * sector),
        reads.misaligned@ == dev.subrange(0, 2 * sector),
    ensures
        hash::sha256(in_a_row(reads.first@)) == hash::sha256(in_a_row(reads.second@)),
        stands_inside(reads.narrow@, reads.wide@, sector),
        reads.aligned@ == reads.misaligned@,
        reads.aligned@ == reads.wide@,
{
    assert(bifrag::contents(reads.first@).len() == reads.first@.len());
    assert(bifrag::contents(reads.second@).len() == reads.second@.len());
    assert(reads.narrow@ =~= reads.wide@.subrange(sector + 7, sector + 107));
}

/// A probe's line: where it was, and how much of it could be read.
pub open spec fn probe_text(p: Probed) -> Seq<char> {
    "  "@ + output::padded(p.label@, 26) + " offset "@ + output::indented(
        text::dec(p.offset as int),
        12,
    ) + "  read "@ + output::indented(text::dec(p.got as int), 5) + " of "@ + output::indented(
        text::dec(p.requested as int),
        5,
    ) + " bytes"@
}

pub fn probe_line(p: &Probed) -> (r: String)
    ensures
        r@ == probe_text(*p),
{
    text::cat2(
        text::cat7(
            "  ",
            output::pad(p.label, 26).as_str(),
            " offset ",
            output::indent(text::decimal(p.offset).as_str(), 12).as_str(),
            "  read ",
            output::indent(text::decimal(p.got as u64).as_str(), 5).as_str(),
            " of ",
        ).as_str(),
        text::cat2(
            output::indent(text::decimal(p.requested).as_str(), 5).as_str(),
            " bytes",
        ).as_str(),
    )
}

pub open spec fn yes_text(b: bool) -> Seq<char> {
    if b {
        "yes"@
    } else {
        "NO"@
    }
}

fn yes(b: bool) -> (r: &'static str)
    ensures
        r@ == yes_text(b),
{
    if b {
        "yes"
    } else {
        "NO"
    }
}

/// What was found, as lines of text; `bounced` says whether the misaligned
/// address was one.
pub open spec fn findings_text(f: Findings, bounced: bool) -> Seq<Seq<char>> {
    seq![
        ""@,
        "range sha256 (1st read): "@ + f.before@,
        "range sha256 (2nd read): "@ + f.after@,
        ""@,
        "unchanged across reads:      "@ + yes_text(f.unchanged),
        "unaligned offset matches:    "@ + yes_text(f.offset_consistent),
        "misaligned buffer matches:   "@ + yes_text(f.buffer_consistent)
            + "   (bounce path exercised: "@ + (if bounced {
            "yes"@
        } else {
            "no - buffer happened to be aligned"@
        }) + ")"@,
    ]
}

pub fn findings_lines(f: &Findings, bounced: bool) -> (r: Vec<String>)
    ensures
        text::texts(r@) == findings_text(*f, bounced),
{
    let mut out: Vec<String> = Vec::new();
    text::say(&mut out, "".to_owned());
    text::say(&mut out, text::cat2("range sha256 (1st read): ", f.before.as_str()));
    text::say(&mut out, text::cat2("range sha256 (2nd read): ", f.after.as_str()));
    text::say(&mut out, "".to_owned());
    text::say(&mut out, text::cat2("unchanged across reads:      ", yes(f.unchanged)));
    text::say(&mut out, text::cat2("unaligned offset matches:    ", yes(f.offset_consistent)));
    text::say(
        &mut out,
        text::cat5(
            "misaligned buffer matches:   ",
            yes(f.buffer_consistent),
            "   (bounce path exercised: ",
            if bounced {
                "yes"
            } else {
                "no - buffer happened to be aligned"
            },
            ")",
        ),
    );
    assert(text::texts(out@) =~= findings_text(*f, bounced));
    out
}

} // verus!
