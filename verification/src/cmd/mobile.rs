//! What is said of phones, and of phone backups on this computer.

use vstd::prelude::*;
use vstd::string::*;
use crate::output;
use crate::text;

verus! {

/// What is and is not ready on a phone.
#[derive(Clone, Debug)]
pub struct Checklist {
    pub adb_found: bool,
    pub device_connected: bool,
    pub authorized: bool,
    /// `None` where this Android version does not report it.
    pub unlocked: Option<bool>,
    pub serial: Option<String>,
    pub model: Option<String>,
    pub api_level: Option<u32>,
    pub problems: Vec<String>,
}

/// A box, ticked or not.
pub open spec fn box_text(ticked: bool) -> Seq<char> {
    if ticked {
        "[x]"@
    } else {
        "[ ]"@
    }
}

fn tick(ticked: bool) -> (r: &'static str)
    ensures
        r@ == box_text(ticked),
{
    if ticked {
        "[x]"
    } else {
        "[ ]"
    }
}

/// A text, or `otherwise` where there is none.
pub open spec fn text_or(s: Option<String>, otherwise: Seq<char>) -> Seq<char> {
    match s {
        Some(t) => t@,
        None => otherwise,
    }
}

fn or_else<'a>(s: &'a Option<String>, otherwise: &'a str) -> (r: &'a str)
    ensures
        r@ == text_or(*s, otherwise@),
{
    match s {
        Some(t) => t.as_str(),
        None => otherwise,
    }
}

/// A checklist as lines of text.
pub open spec fn checklist_text(c: Checklist) -> Seq<Seq<char>> {
    seq![
        box_text(c.adb_found) + " adb found"@,
        box_text(c.device_connected) + " phone connected"@,
        box_text(c.authorized) + " USB debugging authorized for this computer"@,
        box_text(c.unlocked == Some(true)) + " phone unlocked"@ + (if c.unlocked is None
            && c.authorized {
            " (not reported by this Android version)"@
        } else {
            ""@
        }),
    ] + (if c.serial is Some && c.model is Some {
        seq![
            "    "@ + c.model->Some_0@ + " ("@ + c.serial->Some_0@ + "), API "@ + (
            match c.api_level {
                Some(l) => text::dec(l as int),
                None => "?"@,
            }),
        ]
    } else {
        Seq::<Seq<char>>::empty()
    }) + text::prefixed("  - "@, text::texts(c.problems@))
}

/// A checklist as lines of text.
pub fn checklist_lines(c: &Checklist) -> (r: Vec<String>)
    ensures
        text::texts(r@) == checklist_text(*c),
{
    let mut out: Vec<String> = Vec::new();
    text::say(&mut out, text::cat2(tick(c.adb_found), " adb found"));
    text::say(&mut out, text::cat2(tick(c.device_connected), " phone connected"));
    text::say(
        &mut out,
        text::cat2(tick(c.authorized), " USB debugging authorized for this computer"),
    );
    let unlocked: bool = match c.unlocked {
        Some(b) => b,
        None => false,
    };
    let unsaid: bool = match c.unlocked {
        Some(_) => false,
        None => c.authorized,
    };
    let why: &str = if unsaid {
        " (not reported by this Android version)"
    } else {
        ""
    };
    text::say(&mut out, text::cat3(tick(unlocked), " phone unlocked", why));
    match (&c.serial, &c.model) {
        (Some(s), Some(m)) => {
            let level: String = match c.api_level {
                Some(l) => text::decimal(l as u64),
                None => "?".to_owned(),
            };
            text::say(
                &mut out,
                text::cat6("    ", m.as_str(), " (", s.as_str(), "), API ", level.as_str()),
            );
        },
        _ => {},
    }
    text::say_prefixed(&mut out, "  - ", &c.problems);
    assert(text::texts(out@) =~= checklist_text(*c));
    out
}

/// A file on a phone.
#[derive(Clone, Debug)]
pub struct PhoneFile {
    pub category: String,
    pub trashed: bool,
    pub size: u64,
    pub path: String,
    pub original_name: Option<String>,
}

/// How many of the first `n` files are in the trash.
pub open spec fn trashed_upto(files: Seq<PhoneFile>, n: int) -> int
    decreases n,
{
    if n <= 0 {
        0
    } else {
        trashed_upto(files, n - 1) + (if files[n - 1].trashed {
            1int
        } else {
            0
        })
    }
}

/// A file's line, with its name before it was trashed where that is known.
pub open spec fn file_text(f: PhoneFile) -> Seq<char> {
    output::padded(f.category@, 10) + " "@ + output::indented(text::dec(f.size as int), 10) + "  "@
        + f.path@ + (match f.original_name {
        Some(n) => "  (was "@ + n@ + ")"@,
        None => ""@,
    })
}

/// The files on a phone as lines of text.
pub open spec fn survey_text(files: Seq<PhoneFile>, rows: int) -> Seq<Seq<char>> {
    seq![
        text::dec(files.len() as int) + " files ("@ + text::dec(
            trashed_upto(files, files.len() as int),
        ) + " trashed); MediaStore reports "@ + text::dec(rows) + " trashed rows"@,
    ] + Seq::new(files.len(), |i: int| file_text(files[i]))
}

fn file_line(f: &PhoneFile) -> (r: String)
    ensures
        r@ == file_text(*f),
{
    let was: String = match &f.original_name {
        Some(n) => text::cat3("  (was ", n.as_str(), ")"),
        None => "".to_owned(),
    };
    text::cat6(
        output::pad(f.category.as_str(), 10).as_str(),
        " ",
        output::indent(text::decimal(f.size).as_str(), 10).as_str(),
        "  ",
        f.path.as_str(),
        was.as_str(),
    )
}

/// The files on a phone as lines of text.
pub fn survey_lines(files: &Vec<PhoneFile>, rows: usize) -> (r: Vec<String>)
    ensures
        text::texts(r@) == survey_text(files@, rows as int),
{
    let mut trashed: usize = 0;
    let mut i: usize = 0;
    while i < files.len()
        invariant
            trashed <= i <= files@.len(),
            trashed == trashed_upto(files@, i as int),
        decreases files@.len() - i,
    {
        if files[i].trashed {
            trashed += 1;
        }
        i += 1;
    }
    let mut out: Vec<String> = Vec::new();
    text::say(
        &mut out,
        text::cat6(
            text::decimal(files.len() as u64).as_str(),
            " files (",
            text::decimal(trashed as u64).as_str(),
            " trashed); MediaStore reports ",
            text::decimal(rows as u64).as_str(),
            " trashed rows",
        ),
    );
    let mut k: usize = 0;
    while k < files.len()
        invariant
            k <= files@.len(),
            text::texts(out@) =~= survey_text(files@, rows as int).subrange(0, k + 1),
        decreases files@.len() - k,
    {
        text::say(&mut out, file_line(&files[k]));
        k += 1;
    }
    assert(survey_text(files@, rows as int).subrange(0, k + 1) =~= survey_text(
        files@,
        rows as int,
    ));
    out
}

/// What was pulled off a phone; `matching` says of each file whether its size
/// is the one that was listed.
pub open spec fn mismatched(matching: Seq<bool>, n: int) -> int
    decreases n,
{
    if n <= 0 {
        0
    } else {
        mismatched(matching, n - 1) + (if matching[n - 1] {
            0int
        } else {
            1
        })
    }
}

/// What was pulled off a phone, in one line.
pub fn pulled_line(matching: &Vec<bool>, model: &Option<String>, into: &str) -> (r: String)
    ensures
        r@ == "pulled "@ + text::dec(matching@.len() as int) + " files from "@ + text_or(
            *model,
            ""@,
        ) + " into "@ + into@ + " ("@ + text::dec(
            mismatched(matching@, matching@.len() as int),
        ) + " with a size different from the listing)"@,
{
    let mut short: usize = 0;
    let mut i: usize = 0;
    while i < matching.len()
        invariant
            short <= i <= matching@.len(),
            short == mismatched(matching@, i as int),
        decreases matching@.len() - i,
    {
        if !matching[i] {
            short += 1;
        }
        i += 1;
    }
    let start: String = text::cat6(
        "pulled ",
        text::decimal(matching.len() as u64).as_str(),
        " files from ",
        or_else(model, ""),
        " into ",
        into,
    );
    text::cat4(
        start.as_str(),
        " (",
        text::decimal(short as u64).as_str(),
        " with a size different from the listing)",
    )
}

/// A backup of a phone.
#[derive(Clone, Debug)]
pub struct BackupInfo {
    pub dir: String,
    pub device_name: Option<String>,
    pub product_type: Option<String>,
    pub product_version: Option<String>,
    pub encrypted: bool,
}

/// A backup's line.
pub open spec fn backup_text(b: BackupInfo) -> Seq<char> {
    b.dir@ + "  "@ + text_or(b.device_name, ""@) + " ("@ + text_or(b.product_type, ""@) + " iOS "@
        + text_or(b.product_version, ""@) + ")"@ + (if b.encrypted {
        "  ENCRYPTED - not supported"@
    } else {
        ""@
    })
}

/// The backups found, as lines of text; where there are none, where they were
/// looked for.
pub open spec fn backups_text(found: Seq<BackupInfo>, roots: Seq<Seq<char>>) -> Seq<Seq<char>> {
    if found.len() == 0 {
        seq!["no iOS backups found in:"@] + text::prefixed("  "@, roots)
    } else {
        Seq::new(found.len(), |i: int| backup_text(found[i]))
    }
}

fn backup_line(b: &BackupInfo) -> (r: String)
    ensures
        r@ == backup_text(*b),
{
    let locked: &str = if b.encrypted {
        "  ENCRYPTED - not supported"
    } else {
        ""
    };
    let start: String = text::cat5(
        b.dir.as_str(),
        "  ",
        or_else(&b.device_name, ""),
        " (",
        or_else(&b.product_type, ""),
    );
    text::cat5(start.as_str(), " iOS ", or_else(&b.product_version, ""), ")", locked)
}

/// The backups found, as lines of text.
pub fn backup_lines(found: &Vec<BackupInfo>, roots: &Vec<String>) -> (r: Vec<String>)
    ensures
        text::texts(r@) == backups_text(found@, text::texts(roots@)),
{
    let mut out: Vec<String> = Vec::new();
    if found.len() == 0 {
        text::say(&mut out, "no iOS backups found in:".to_owned());
        assert(text::texts(out@) =~= seq!["no iOS backups found in:"@]);
        text::say_prefixed(&mut out, "  ", roots);
        return out;
    }
    let ghost all = Seq::new(found@.len(), |i: int| backup_text(found@[i]));
    let mut i: usize = 0;
    while i < found.len()
        invariant
            i <= found@.len(),
            all == Seq::new(found@.len(), |i: int| backup_text(found@[i])),
            text::texts(out@) =~= all.subrange(0, i as int),
        decreases found@.len() - i,
    {
        text::say(&mut out, backup_line(&found[i]));
        i += 1;
    }
    assert(all.subrange(0, i as int) =~= all);
    out
}

/// A photo or video in "Recently Deleted".
#[derive(Clone, Debug)]
pub struct Asset {
    pub directory: Option<String>,
    pub filename: Option<String>,
    pub original_filename: Option<String>,
    /// Whether the backup holds the original.
    pub original_present: bool,
    pub derivatives: usize,
}

/// An asset's line.
pub open spec fn asset_text(a: Asset) -> Seq<char> {
    text_or(a.directory, "?"@) + "/"@ + text_or(a.filename, "?"@) + "  (was "@ + text_or(
        a.original_filename,
        "?"@,
    ) + ")  original "@ + (if a.original_present {
        "in backup"@
    } else {
        "NOT in backup"@
    }) + "  "@ + text::dec(a.derivatives as int) + " derivative(s)"@
}

/// The assets as lines of text.
pub open spec fn assets_text(assets: Seq<Asset>) -> Seq<Seq<char>> {
    seq![text::dec(assets.len() as int) + " assets in Recently Deleted"@] + Seq::new(
        assets.len(),
        |i: int| asset_text(assets[i]),
    )
}

fn asset_line(a: &Asset) -> (r: String)
    ensures
        r@ == asset_text(*a),
{
    let there: &str = if a.original_present {
        "in backup"
    } else {
        "NOT in backup"
    };
    let start: String = text::cat6(
        or_else(&a.directory, "?"),
        "/",
        or_else(&a.filename, "?"),
        "  (was ",
        or_else(&a.original_filename, "?"),
        ")  original ",
    );
    text::cat5(
        start.as_str(),
        there,
        "  ",
        text::decimal(a.derivatives as u64).as_str(),
        " derivative(s)",
    )
}

/// The assets as lines of text.
pub fn asset_lines(assets: &Vec<Asset>) -> (r: Vec<String>)
    ensures
        text::texts(r@) == assets_text(assets@),
{
    let mut out: Vec<String> = Vec::new();
    text::say(
        &mut out,
        text::cat2(text::decimal(assets.len() as u64).as_str(), " assets in Recently Deleted"),
    );
    let mut i: usize = 0;
    while i < assets.len()
        invariant
            i <= assets@.len(),
            text::texts(out@) =~= assets_text(assets@).subrange(0, i + 1),
        decreases assets@.len() - i,
    {
        text::say(&mut out, asset_line(&assets[i]));
        i += 1;
    }
    assert(assets_text(assets@).subrange(0, i + 1) =~= assets_text(assets@));
    out
}

/// A backup or sync cache on this computer.
#[derive(Clone, Debug)]
pub struct HostBackup {
    pub kind: String,
    pub files: u64,
    pub bytes: u64,
    pub placeholders: u64,
    pub path: String,
}

/// A backup's line.
pub open spec fn host_text(h: HostBackup) -> Seq<char> {
    output::padded(h.kind@, 14) + " "@ + output::indented(text::dec(h.files as int), 8) + " files "@
        + output::indented(text::dec(h.bytes as int), 12) + " bytes "@ + output::indented(
        text::dec(h.placeholders as int),
        6,
    ) + " placeholders  "@ + h.path@
}

/// What was found on this computer, as lines of text.
pub open spec fn hosts_text(found: Seq<HostBackup>) -> Seq<Seq<char>> {
    if found.len() == 0 {
        seq!["no phone backups or sync caches found under this profile"@]
    } else {
        Seq::new(found.len(), |i: int| host_text(found[i]))
    }
}

fn host_line(h: &HostBackup) -> (r: String)
    ensures
        r@ == host_text(*h),
{
    let start: String = text::cat5(
        output::pad(h.kind.as_str(), 14).as_str(),
        " ",
        output::indent(text::decimal(h.files).as_str(), 8).as_str(),
        " files ",
        output::indent(text::decimal(h.bytes).as_str(), 12).as_str(),
    );
    text::cat5(
        start.as_str(),
        " bytes ",
        output::indent(text::decimal(h.placeholders).as_str(), 6).as_str(),
        " placeholders  ",
        h.path.as_str(),
    )
}

/// What was found on this computer, as lines of text.
pub fn host_lines(found: &Vec<HostBackup>) -> (r: Vec<String>)
    ensures
        text::texts(r@) == hosts_text(found@),
{
    let mut out: Vec<String> = Vec::new();
    if found.len() == 0 {
        text::say(
            &mut out,
            "no phone backups or sync caches found under this profile".to_owned(),
        );
        assert(text::texts(out@) =~= hosts_text(found@));
        return out;
    }
    let mut i: usize = 0;
    while i < found.len()
        invariant
            0 < found@.len(),
            i <= found@.len(),
            text::texts(out@) =~= hosts_text(found@).subrange(0, i as int),
        decreases found@.len() - i,
    {
        text::say(&mut out, host_line(&found[i]));
        i += 1;
    }
    assert(hosts_text(found@).subrange(0, i as int) =~= hosts_text(found@));
    out
}

} // verus!
