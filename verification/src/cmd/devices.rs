//! Listing block devices. Devices that cannot be read are listed too, with the
//! reason, rather than quietly left out.

use vstd::prelude::*;
use vstd::string::*;
use crate::output;
use crate::output::{human_bytes, Table};
use crate::text;

verus! {

/// Whether a device discards deleted blocks.
#[derive(Clone, Copy, Debug, PartialEq, Eq, Structural)]
pub enum TrimSupport {
    Yes,
    No,
    Unknown,
}

/// What a device says of itself.
#[derive(Clone, Debug)]
pub struct DeviceInfo {
    pub path: String,
    pub kind: String,
    pub model: Option<String>,
    pub serial: Option<String>,
    pub total_bytes: u64,
    pub sector_size: u32,
    pub rotational: Option<bool>,
    pub trim: TrimSupport,
    /// `trim` as it is printed.
    pub trim_label: String,
    pub removable: Option<bool>,
    pub readable: bool,
    pub access_note: Option<String>,
}

/// What to expect of recovery on a medium.
pub open spec fn outlook(
    trim: TrimSupport,
    rotational: Option<bool>,
    removable: Option<bool>,
) -> Seq<char> {
    if trim == TrimSupport::Yes {
        "poor - device reports TRIM; deleted data is usually zeroed by the controller"@
    } else if rotational == Some(true) {
        "good - mechanical drive; data persists until overwritten"@
    } else if rotational == Some(false) && removable == Some(true) {
        "good - removable flash usually has no TRIM; carving works well"@
    } else if rotational == Some(false) {
        "uncertain - solid state; check whether TRIM is active on this volume"@
    } else {
        "unknown - could not determine media characteristics"@
    }
}

/// Honest expectation-setting, driven by what the device actually reports.
pub fn recovery_outlook(d: &DeviceInfo) -> (r: &'static str)
    ensures
        r@ == outlook(d.trim, d.rotational, d.removable),
{
    match (d.trim, d.rotational, d.removable) {
        (TrimSupport::Yes, _, _) =>
            "poor - device reports TRIM; deleted data is usually zeroed by the controller",
        (_, Some(true), _) => "good - mechanical drive; data persists until overwritten",
        (_, Some(false), Some(true)) =>
            "good - removable flash usually has no TRIM; carving works well",
        (_, Some(false), _) =>
            "uncertain - solid state; check whether TRIM is active on this volume",
        _ => "unknown - could not determine media characteristics",
    }
}

/// Whether some device cannot be read.
pub open spec fn some_unreadable(devices: Seq<DeviceInfo>) -> bool {
    exists|i: int| 0 <= i < devices.len() && !(#[trigger] devices[i]).readable
}

/// What is said of the devices as a whole.
pub open spec fn notes_on(elevated: bool, windows: bool, devices: Seq<DeviceInfo>) -> Seq<
    Seq<char>,
> {
    (if !elevated && some_unreadable(devices) {
        seq![
            if windows {
                "Some devices need an Administrator shell before their sectors can be read."@
            } else {
                "Some devices need root before their sectors can be read."@
            },
        ]
    } else {
        Seq::<Seq<char>>::empty()
    }) + (if devices.len() == 0 {
        seq!["No block devices were enumerated. Image files can still be scanned by path."@]
    } else {
        Seq::<Seq<char>>::empty()
    })
}

/// What is said of the devices as a whole.
pub fn notes(elevated: bool, windows: bool, devices: &Vec<DeviceInfo>) -> (r: Vec<String>)
    ensures
        text::texts(r@) == notes_on(elevated, windows, devices@),
{
    let mut out: Vec<String> = Vec::new();
    let mut hidden: bool = false;
    let mut i: usize = 0;
    while i < devices.len()
        invariant
            i <= devices@.len(),
            hidden == exists|k: int| 0 <= k < i && !(#[trigger] devices@[k]).readable,
        decreases devices@.len() - i,
    {
        if !devices[i].readable {
            assert(!devices@[i as int].readable);
            hidden = true;
        }
        i += 1;
    }
    if !elevated && hidden {
        if windows {
            text::say(
                &mut out,
                "Some devices need an Administrator shell before their sectors can be read.".to_owned(),
            );
        } else {
            text::say(
                &mut out,
                "Some devices need root before their sectors can be read.".to_owned(),
            );
        }
    }
    if devices.len() == 0 {
        text::say(
            &mut out,
            "No block devices were enumerated. Image files can still be scanned by path.".to_owned(),
        );
    }
    assert(text::texts(out@) =~= notes_on(elevated, windows, devices@));
    out
}

/// A text, or a dash where there is none.
pub open spec fn or_dash(s: Option<String>) -> Seq<char> {
    match s {
        Some(t) => t@,
        None => "-"@,
    }
}

fn dashed(s: &Option<String>) -> (r: String)
    ensures
        r@ == or_dash(*s),
{
    match s {
        Some(t) => t.clone(),
        None => "-".to_owned(),
    }
}

/// A device as a row of the table.
pub open spec fn device_row(d: DeviceInfo) -> Seq<Seq<char>> {
    seq![
        d.path@,
        d.kind@,
        output::size_text(d.total_bytes as int),
        text::dec(d.sector_size as int),
        or_dash(d.model),
        or_dash(d.serial),
        match d.rotational {
            Some(true) => "hdd"@,
            Some(false) => "ssd"@,
            None => "-"@,
        },
        d.trim_label@,
        if d.readable {
            "ok"@
        } else {
            match d.access_note {
                Some(n) => n@,
                None => "denied"@,
            }
        },
    ]
}

pub open spec fn device_heads() -> Seq<Seq<char>> {
    seq![
        "path"@,
        "kind"@,
        "size"@,
        "sector"@,
        "model"@,
        "serial"@,
        "spin"@,
        "trim"@,
        "access"@,
    ]
}

/// The rows for those of the first `n` devices that are to be shown.
pub open spec fn rows_upto(devices: Seq<DeviceInfo>, all: bool, n: int) -> Seq<Seq<Seq<char>>>
    decreases n,
{
    if n <= 0 {
        Seq::empty()
    } else if all || devices[n - 1].readable {
        rows_upto(devices, all, n - 1).push(device_row(devices[n - 1]))
    } else {
        rows_upto(devices, all, n - 1)
    }
}

/// The devices, as lines of text.
pub open spec fn devices_text(devices: Seq<DeviceInfo>, all: bool) -> Seq<Seq<char>> {
    let rows = rows_upto(devices, all, devices.len() as int);
    if rows.len() == 0 {
        seq!["No devices found."@]
    } else {
        output::table_lines(device_heads(), rows)
    }
}

/// The devices, as lines of text; those that cannot be read only on request.
pub fn device_lines(devices: &Vec<DeviceInfo>, all: bool) -> (r: Vec<String>)
    ensures
        text::texts(r@) == devices_text(devices@, all),
{
    let heads: [&str; 9] = [
        "path",
        "kind",
        "size",
        "sector",
        "model",
        "serial",
        "spin",
        "trim",
        "access",
    ];
    let mut t = Table::new(heads.as_slice());
    assert(t.heads() =~= device_heads());
    let mut i: usize = 0;
    while i < devices.len()
        invariant
            i <= devices@.len(),
            t.wf(),
            t.heads() == device_heads(),
            t.body() =~= rows_upto(devices@, all, i as int),
        decreases devices@.len() - i,
    {
        let d = &devices[i];
        if all || d.readable {
            let mut row: Vec<String> = Vec::new();
            row.push(d.path.clone());
            row.push(d.kind.clone());
            row.push(human_bytes(d.total_bytes));
            row.push(text::decimal(d.sector_size as u64));
            row.push(dashed(&d.model));
            row.push(dashed(&d.serial));
            let spin: &str = match d.rotational {
                Some(true) => "hdd",
                Some(false) => "ssd",
                None => "-",
            };
            row.push(spin.to_owned());
            row.push(d.trim_label.clone());
            let access: String = if d.readable {
                "ok".to_owned()
            } else {
                match &d.access_note {
                    Some(n) => n.clone(),
                    None => "denied".to_owned(),
                }
            };
            row.push(access);
            assert(text::texts(row@) =~= device_row(devices@[i as int]));
            t.row(row);
        }
        i += 1;
    }
    if t.is_empty() {
        let mut out: Vec<String> = Vec::new();
        text::say(&mut out, "No devices found.".to_owned());
        assert(text::texts(out@) =~= seq!["No devices found."@]);
        out
    } else {
        t.lines()
    }
}

/// What is said of those of the first `n` devices that discard deleted blocks.
pub open spec fn trims_upto(devices: Seq<DeviceInfo>, n: int) -> Seq<Seq<char>>
    decreases n,
{
    if n <= 0 {
        Seq::empty()
    } else {
        let d = devices[n - 1];
        if d.trim == TrimSupport::Yes {
            trims_upto(devices, n - 1).push(
                "note: "@ + d.path@ + " reports TRIM. "@ + outlook(
                    d.trim,
                    d.rotational,
                    d.removable,
                ),
            )
        } else {
            trims_upto(devices, n - 1)
        }
    }
}

/// What is said of recovery odds, only where something is known.
pub fn trim_notes(devices: &Vec<DeviceInfo>) -> (r: Vec<String>)
    ensures
        text::texts(r@) == trims_upto(devices@, devices@.len() as int),
{
    let mut out: Vec<String> = Vec::new();
    let mut i: usize = 0;
    assert(text::texts(out@) =~= trims_upto(devices@, 0));
    while i < devices.len()
        invariant
            i <= devices@.len(),
            text::texts(out@) == trims_upto(devices@, i as int),
        decreases devices@.len() - i,
    {
        let d = &devices[i];
        if d.trim == TrimSupport::Yes {
            text::say(
                &mut out,
                text::cat4("note: ", d.path.as_str(), " reports TRIM. ", recovery_outlook(d)),
            );
        }
        i += 1;
    }
    out
}

} // verus!
