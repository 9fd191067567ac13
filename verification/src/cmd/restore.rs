//! Writing files out: deleted files from a file system, and carved candidates,
//! the fragmented ones reassembled where that is asked for.

use vstd::prelude::*;
use vstd::string::*;
use crate::bifrag;
use crate::bifrag::Reassembly;
use crate::cmd::list_deleted;
use crate::cmd::score;
use crate::cmd::score::Band;
use crate::signature::{Signature, SignatureDb};
use crate::text;
use crate::validate::Status;

verus! {

// ---------------------------------------------------------------------------
// Deleted files
// ---------------------------------------------------------------------------

/// Whether a rating is one of those asked for; none asked for is all.
pub fn band_wanted(bands: &Vec<Band>, band: Band) -> (r: bool)
    ensures
        r == (bands@.len() == 0 || bands@.contains(band)),
{
    if bands.len() == 0 {
        return true;
    }
    let mut i: usize = 0;
    while i < bands.len()
        invariant
            i <= bands@.len(),
            forall|k: int| 0 <= k < i ==> bands@[k] != band,
        decreases bands@.len() - i,
    {
        if bands[i] == band {
            assert(bands@[i as int] == band);
            return true;
        }
        i += 1;
    }
    assert(!bands@.contains(band));
    false
}

/// The notes that go with a restored file: its rating, and the rules that set
/// it.
pub fn rating_notes(label: &str, value: u64, reasons: &Vec<(String, String)>) -> (r: Vec<String>)
    ensures
        text::texts(r@) == seq![label@ + " "@ + text::dec(value as int)] + score::reason_lines(
            ""@,
            reasons@,
        ),
{
    let mut out: Vec<String> = Vec::new();
    let head: String = text::cat3(label, " ", text::decimal(value).as_str());
    let ghost h = head@;
    text::say(&mut out, head);
    assert(text::texts(out@) =~= seq![h]);
    score::say_reasons(&mut out, "", reasons);
    out
}

/// The files that were skipped, a line for each of the first twenty.
pub open spec fn skipped_lines(skipped: Seq<(String, String)>) -> Seq<Seq<char>> {
    list_deleted::first(score::reason_lines("  skipped "@, skipped), 20)
}

/// What was restored, as lines of text.
pub fn restored_lines(written: usize, into: &str, skipped: &Vec<(String, String)>) -> (r: Vec<
    String,
>)
    ensures
        text::texts(r@) == seq![
            "wrote "@ + text::dec(written as int) + " files into "@ + into@ + " ("@ + text::dec(
                skipped@.len() as int,
            ) + " skipped)"@,
        ] + skipped_lines(skipped@),
{
    let mut out: Vec<String> = Vec::new();
    let head: String = text::cat7(
        "wrote ",
        text::decimal(written as u64).as_str(),
        " files into ",
        into,
        " (",
        text::decimal(skipped.len() as u64).as_str(),
        " skipped)",
    );
    let ghost h = head@;
    text::say(&mut out, head);
    assert(text::texts(out@) =~= seq![h]);
    let ghost all = score::reason_lines("  skipped "@, skipped@);
    let mut i: usize = 0;
    while i < skipped.len() && i < 20
        invariant
            i <= skipped@.len(),
            i <= 20,
            all == score::reason_lines("  skipped "@, skipped@),
            text::texts(out@) =~= seq![h] + all.subrange(0, i as int),
        decreases skipped@.len() - i,
    {
        text::say(
            &mut out,
            text::cat4("  skipped ", skipped[i].0.as_str(), ": ", skipped[i].1.as_str()),
        );
        i += 1;
    }
    assert(all.subrange(0, i as int) =~= skipped_lines(skipped@));
    out
}

// ---------------------------------------------------------------------------
// Carved candidates
// ---------------------------------------------------------------------------

/// A candidate as an index keeps it.
#[derive(Clone, Debug)]
pub struct Carved {
    pub offset: u64,
    pub length: u64,
    pub signature_id: String,
    pub ext: String,
    pub status: String,
    pub detail: String,
}

/// How the bytes of a written file were located.
#[derive(Clone, Copy, Debug, PartialEq, Eq, Structural)]
pub enum Layout {
    Carved,
    Reassembled,
}

/// A file to write.
#[derive(Clone, Debug)]
pub struct Output {
    pub name: String,
    /// The runs it is made of, each an offset and a length.
    pub spans: Vec<(u64, u64)>,
    pub length: u64,
    pub layout: Layout,
    /// Where it came from.
    pub source: String,
    pub note: String,
}

/// What to do with a candidate.
#[derive(Clone, Debug)]
pub enum Step {
    Skip,
    Write(Output),
    /// Reassemble it under this validator, and go on with [`after`].
    Reassemble(String),
}

/// The name of a candidate's file.
pub open spec fn file_name(c: Carved) -> Seq<char> {
    c.ext@ + "/"@ + text::zero_padded(text::low_hex(c.offset as int), 12) + "."@ + c.ext@
}

/// Where a candidate's file came from.
pub open spec fn origin(c: Carved) -> Seq<char> {
    "carved at byte "@ + text::dec(c.offset as int) + " ("@ + c.signature_id@ + ")"@
}

/// Runs as pairs of numbers.
pub open spec fn pairs(s: Seq<(u64, u64)>) -> Seq<(int, int)> {
    Seq::new(s.len(), |i: int| (s[i].0 as int, s[i].1 as int))
}

/// Whether `o` is a candidate as it was carved, in one run, with a note.
pub open spec fn as_carved(o: Output, c: Carved, note: Seq<char>) -> bool {
    &&& o.name@ == file_name(c)
    &&& pairs(o.spans@) == seq![(c.offset as int, c.length as int)]
    &&& o.length == c.length
    &&& o.layout == Layout::Carved
    &&& o.source@ == origin(c)
    &&& o.note@ == note
}

/// What is noted of a candidate that did not validate completely.
pub open spec fn not_validated(c: Carved) -> Seq<char> {
    "NOT validated ("@ + c.status@ + "): "@ + c.detail@
}

/// Whether a candidate's extension is one of those asked for, in any case; none
/// asked for is all.
pub open spec fn extension_wanted(c: Carved, exts: Seq<String>) -> bool {
    exts.len() == 0 || exists|i: int|
        0 <= i < exts.len() && text::ascii_lower((#[trigger] exts[i])@) == text::ascii_lower(c.ext@)
}

/// The validator of the first signature with a candidate's id, if it has one.
pub open spec fn validator_of(db: SignatureDb, id: Seq<char>, from: int) -> Option<Seq<char>>
    decreases db.signatures@.len() - from,
{
    if from < 0 || from >= db.signatures@.len() {
        None
    } else if db.signatures@[from].id@ == id {
        match db.signatures@[from].validator {
            Some(v) => Some(v@),
            None => None,
        }
    } else {
        validator_of(db, id, from + 1)
    }
}

fn find_validator(db: &SignatureDb, id: &str) -> (r: Option<String>)
    ensures
        match r {
            Some(v) => validator_of(*db, id@, 0) == Some(v@),
            None => validator_of(*db, id@, 0) is None,
        },
{
    let mut i: usize = 0;
    while i < db.signatures.len()
        invariant
            i <= db.signatures@.len(),
            validator_of(*db, id@, 0) == validator_of(*db, id@, i as int),
        decreases db.signatures@.len() - i,
    {
        let s: &Signature = &db.signatures[i];
        if text::same_text(s.id.as_str(), id) {
            return match &s.validator {
                Some(v) => Some(v.clone()),
                None => None,
            };
        }
        i += 1;
    }
    None
}

fn ext_asked_for(c: &Carved, exts: &Vec<String>) -> (r: bool)
    ensures
        r == extension_wanted(*c, exts@),
{
    if exts.len() == 0 {
        return true;
    }
    let low: String = text::to_ascii_lower(c.ext.as_str());
    let mut i: usize = 0;
    while i < exts.len()
        invariant
            i <= exts@.len(),
            low@ == text::ascii_lower(c.ext@),
            forall|k: int| 0 <= k < i ==> text::ascii_lower((#[trigger] exts@[k])@) != low@,
        decreases exts@.len() - i,
    {
        if text::same_text(text::to_ascii_lower(exts[i].as_str()).as_str(), low.as_str()) {
            assert(text::ascii_lower(exts@[i as int]@) == text::ascii_lower(c.ext@));
            return true;
        }
        i += 1;
    }
    false
}

fn carved(c: &Carved, note: String) -> (r: Output)
    ensures
        as_carved(r, *c, note@),
{
    let mut spans: Vec<(u64, u64)> = Vec::new();
    spans.push((c.offset, c.length));
    assert(pairs(spans@) =~= seq![(c.offset as int, c.length as int)]);
    Output {
        name: name_of(c),
        spans,
        length: c.length,
        layout: Layout::Carved,
        source: source_of(c),
        note,
    }
}

fn name_of(c: &Carved) -> (r: String)
    ensures
        r@ == file_name(*c),
{
    text::cat5(
        c.ext.as_str(),
        "/",
        text::zeros_before(text::low_hexadecimal(c.offset).as_str(), 12).as_str(),
        ".",
        c.ext.as_str(),
    )
}

fn source_of(c: &Carved) -> (r: String)
    ensures
        r@ == origin(*c),
{
    text::cat5(
        "carved at byte ",
        text::decimal(c.offset).as_str(),
        " (",
        c.signature_id.as_str(),
        ")",
    )
}

/// What to do with a candidate: write it as it was carved where it validated;
/// reassemble it where that was asked for and there is a validator to judge the
/// result; write it as it was carved where incomplete files are asked for.
pub fn plan(
    c: &Carved,
    exts: &Vec<String>,
    reassemble: bool,
    include_partial: bool,
    db: &SignatureDb,
) -> (r: Step)
    ensures
        ({
            let validator = validator_of(*db, c.signature_id@, 0);
            if !extension_wanted(*c, exts@) {
                r is Skip
            } else if c.status@ == "valid"@ {
                r matches Step::Write(o) && as_carved(o, *c, "validated: "@ + c.detail@)
            } else if reassemble && validator is Some {
                r matches Step::Reassemble(v) && Some(v@) == validator
            } else if include_partial {
                r matches Step::Write(o) && as_carved(o, *c, not_validated(*c))
            } else {
                r is Skip
            }
        }),
{
    if !ext_asked_for(c, exts) {
        return Step::Skip;
    }
    if text::same_text(c.status.as_str(), "valid") {
        return Step::Write(carved(c, text::cat2("validated: ", c.detail.as_str())));
    }
    if reassemble {
        match find_validator(db, c.signature_id.as_str()) {
            Some(v) => {
                return Step::Reassemble(v);
            },
            None => {},
        }
    }
    if include_partial {
        Step::Write(incomplete(c))
    } else {
        Step::Skip
    }
}

fn incomplete(c: &Carved) -> (r: Output)
    ensures
        as_carved(r, *c, not_validated(*c)),
{
    carved(c, text::cat4("NOT validated (", c.status.as_str(), "): ", c.detail.as_str()))
}

/// What comes of a reassembly: the file to write, if any, and what is said of
/// an attempt that did not validate.
pub fn after(c: &Carved, r: &Reassembly, include_partial: bool) -> (s: (
    Option<Output>,
    Option<String>,
))
    ensures
        if r.status == Status::Valid {
            &&& s.1 is None
            &&& s.0 is Some
            &&& s.0->Some_0.name@ == file_name(*c)
            &&& pairs(s.0->Some_0.spans@) == bifrag::spans(r.pieces@)
            &&& s.0->Some_0.length == r.length
            &&& s.0->Some_0.layout == Layout::Reassembled
            &&& s.0->Some_0.source@ == origin(*c)
            &&& s.0->Some_0.note@ == text::dec(r.pieces@.len() as int)
                + " fragments; validated after reassembly"@
        } else {
            &&& s.1 is Some
            &&& s.1->Some_0@ == text::dec(c.offset as int) + ": "@ + r.detail@
            &&& include_partial ==> s.0 is Some && as_carved(s.0->Some_0, *c, not_validated(*c))
            &&& !include_partial ==> s.0 is None
        },
{
    if r.status == Status::Valid {
        let mut spans: Vec<(u64, u64)> = Vec::new();
        let mut i: usize = 0;
        while i < r.pieces.len()
            invariant
                i <= r.pieces@.len(),
                pairs(spans@) =~= bifrag::spans(r.pieces@).subrange(0, i as int),
            decreases r.pieces@.len() - i,
        {
            let ghost was = spans@;
            spans.push((r.pieces[i].offset, r.pieces[i].length));
            assert(pairs(spans@) =~= pairs(was).push(bifrag::spans(r.pieces@)[i as int]));
            i += 1;
        }
        assert(pairs(spans@) =~= bifrag::spans(r.pieces@));
        let o = Output {
            name: name_of(c),
            spans,
            length: r.length,
            layout: Layout::Reassembled,
            source: source_of(c),
            note: text::cat2(
                text::decimal(r.fragments() as u64).as_str(),
                " fragments; validated after reassembly",
            ),
        };
        (Some(o), None)
    } else {
        let why: String = text::cat3(text::decimal(c.offset).as_str(), ": ", r.detail.as_str());
        if include_partial {
            (Some(incomplete(c)), Some(why))
        } else {
            (None, Some(why))
        }
    }
}

/// What was extracted, in one line.
pub fn extracted_line(written: usize, into: &str, reassembled: usize, failed: usize) -> (r: String)
    ensures
        r@ == "wrote "@ + text::dec(written as int) + " files into "@ + into@ + " ("@ + text::dec(
            reassembled as int,
        ) + " reassembled; "@ + text::dec(failed as int)
            + " reassembly attempts did not validate)"@,
{
    let start: String = text::cat5(
        "wrote ",
        text::decimal(written as u64).as_str(),
        " files into ",
        into,
        " (",
    );
    text::cat5(
        start.as_str(),
        text::decimal(reassembled as u64).as_str(),
        " reassembled; ",
        text::decimal(failed as u64).as_str(),
        " reassembly attempts did not validate)",
    )
}

} // verus!
