//! Validators: structural decoding, not header matching.
//!
//! Each validator walks a format's own internal accounting - chunk lengths,
//! box trees, checksums, page counts - and answers two questions a signature
//! cannot: is this really that format, and how long is it?
//!
//! Validators are functions of a byte slice alone. Each states its answer in
//! full: a specification function gives the [`Verdict`] for every input, and
//! the executable function returns exactly that.

pub mod archive;
pub mod bmp;
pub mod complete;
pub mod gif;
pub mod ico;
pub mod jpeg;
pub mod jpeg_entropy;
pub mod lasting;
pub mod mp4;
pub mod pdf;
pub mod pe;
pub mod png;
pub mod riff;
pub mod sqlite;
pub mod sqlite_pages;
pub mod structured;
pub mod trailing;
pub mod zip;

use vstd::prelude::*;
use vstd::string::*;
use crate::text::{Shown, same_text};

verus! {

/// How much of the format's own structure held up.
#[derive(Clone, Copy, PartialEq, Eq, Debug, Structural)]
pub enum Status {
    /// Structurally complete: the format's internal accounting is consistent
    /// from the first byte to the last, and any checksums it carries pass.
    Valid,
    /// Unmistakably this format, but truncated or damaged.
    Partial,
    /// Not this format. The header matched by chance.
    Rejected,
}

impl Status {
    /// Should this candidate be emitted at all?
    pub fn is_accepted(self) -> (r: bool)
        ensures
            r == (self != Status::Rejected),
    {
        match self {
            Status::Valid => true,
            Status::Partial => true,
            Status::Rejected => false,
        }
    }
}

/// What a validator concluded.
#[derive(Clone, Debug)]
pub struct Outcome {
    pub status: Status,
    /// Bytes from the candidate start that belong to this file. Zero when
    /// rejected. For `Partial` this is what could be established, which may be
    /// short of the true original length.
    pub length: u64,
    /// Why. Always populated for `Partial` and `Rejected`; validators may also
    /// leave a note on a `Valid` result.
    pub detail: String,
    /// A more precise extension than the signature could give.
    pub refined_ext: Option<&'static str>,
    /// Structural facts worth keeping, so a rating can be explained later
    /// without parsing the file again.
    pub evidence: Vec<(&'static str, String)>,
    /// Whether `length` is the file's real size or merely a floor.
    ///
    /// A complete file establishes its own length. A damaged one usually does
    /// not, unless a header that survived states it. The scanner only lets an
    /// established length suppress overlapping candidates.
    pub length_established: bool,
    /// Whether the validator stopped because the data ended rather than
    /// because of anything in it.
    ///
    /// `true` means the structure held up as far as the bytes went, and more
    /// of them could extend `length` or complete the file. Independent of
    /// `status`: a PNG cut before its first IDAT is rejected, but only because
    /// the data ran out. Fragment reassembly is built on this.
    pub ran_out: bool,
}

/// The mathematical content of an [`Outcome`].
#[verifier::ext_equal]
pub struct Verdict {
    pub status: Status,
    pub length: int,
    pub detail: Seq<char>,
    pub refined_ext: Option<Seq<char>>,
    pub evidence: Seq<(Seq<char>, Seq<char>)>,
    pub length_established: bool,
    pub ran_out: bool,
}

/// One evidence entry as text.
pub open spec fn entry(e: (&'static str, String)) -> (Seq<char>, Seq<char>) {
    (e.0@, e.1@)
}

impl View for Outcome {
    type V = Verdict;

    open spec fn view(&self) -> Verdict {
        Verdict {
            status: self.status,
            length: self.length as int,
            detail: self.detail@,
            refined_ext: match self.refined_ext {
                Some(e) => Some(e@),
                None => None,
            },
            evidence: self.evidence@.map_values(|e: (&'static str, String)| entry(e)),
            length_established: self.length_established,
            ran_out: self.ran_out,
        }
    }
}

impl Verdict {
    /// A complete file of `length` bytes.
    pub open spec fn valid(length: int) -> Verdict {
        Verdict {
            status: Status::Valid,
            length,
            detail: Seq::empty(),
            refined_ext: None,
            evidence: Seq::empty(),
            length_established: true,
            ran_out: false,
        }
    }

    /// A damaged file, `length` bytes of which stand.
    pub open spec fn partial(length: int, detail: Seq<char>) -> Verdict {
        Verdict {
            status: Status::Partial,
            length,
            detail,
            refined_ext: None,
            evidence: Seq::empty(),
            length_established: false,
            ran_out: false,
        }
    }

    /// Not this format.
    pub open spec fn reject(detail: Seq<char>) -> Verdict {
        Verdict {
            status: Status::Rejected,
            length: 0,
            detail,
            refined_ext: None,
            evidence: Seq::empty(),
            length_established: false,
            ran_out: false,
        }
    }

    pub open spec fn truncated(self) -> Verdict {
        Verdict {
            ran_out: true,
            evidence: self.evidence.push(("truncated"@, "true"@)),
            ..self
        }
    }

    /// This verdict, stopped by the end of the data where `ended` says so.
    pub open spec fn cut_if(self, ended: bool) -> Verdict {
        if ended {
            self.truncated()
        } else {
            self
        }
    }

    /// Whether the validator found something that cannot belong.
    pub open spec fn contradicts(self) -> bool {
        self.status != Status::Valid && !self.ran_out
    }

    pub open spec fn established(self) -> Verdict {
        Verdict { length_established: true, ..self }
    }

    pub open spec fn with_ext(self, ext: Seq<char>) -> Verdict {
        Verdict { refined_ext: Some(ext), ..self }
    }

    pub open spec fn note(self, detail: Seq<char>) -> Verdict {
        Verdict { detail, ..self }
    }

    pub open spec fn with(self, key: Seq<char>, value: Seq<char>) -> Verdict {
        Verdict { evidence: self.evidence.push((key, value)), ..self }
    }

    /// Whether `value` is the first that is recorded under `key`.
    pub open spec fn tells(self, key: Seq<char>, value: Seq<char>) -> bool {
        exists|i: int|
            {
                &&& 0 <= i < self.evidence.len()
                &&& #[trigger] self.evidence[i] == (key, value)
                &&& forall|j: int| 0 <= j < i ==> (#[trigger] self.evidence[j]).0 != key
            }
    }

    /// What every validator owes, whatever bytes it was handed: a rejection
    /// claims no length; a complete file establishes its own length, which is
    /// all there; and a damaged one claims no more than was there unless its
    /// own header states how long it was.
    pub open spec fn sound_for(self, available: int) -> bool {
        &&& self.length >= 0
        &&& self.status == Status::Rejected ==> self.length == 0 && !self.length_established
        &&& self.status == Status::Valid ==> self.length_established && !self.ran_out
            && self.length <= available
        &&& !self.length_established ==> self.length <= available
    }
}

impl Outcome {
    pub fn valid(length: u64) -> (r: Outcome)
        ensures
            r@ == Verdict::valid(length as int),
    {
        Outcome {
            status: Status::Valid,
            length,
            detail: String::new(),
            refined_ext: None,
            evidence: Vec::new(),
            length_established: true,
            ran_out: false,
        }
    }

    pub fn partial(length: u64, detail: &str) -> (r: Outcome)
        ensures
            r@ == Verdict::partial(length as int, detail@),
    {
        Outcome {
            status: Status::Partial,
            length,
            detail: detail.to_owned(),
            refined_ext: None,
            evidence: Vec::new(),
            length_established: false,
            ran_out: false,
        }
    }

    pub fn reject(detail: &str) -> (r: Outcome)
        ensures
            r@ == Verdict::reject(detail@),
    {
        Outcome {
            status: Status::Rejected,
            length: 0,
            detail: detail.to_owned(),
            refined_ext: None,
            evidence: Vec::new(),
            length_established: false,
            ran_out: false,
        }
    }

    /// Mark this outcome as stopped by the end of the data rather than by
    /// anything in it. Also recorded as evidence, so the reason survives into
    /// scoring.
    pub fn truncated(self) -> (r: Outcome)
        ensures
            r@ == self@.truncated(),
    {
        let mut out = self.with("truncated", true);
        out.ran_out = true;
        out
    }

    /// Mark this outcome as stopped by the end of the data where `ended` says
    /// so.
    pub fn cut_if(self, ended: bool) -> (r: Outcome)
        ensures
            r@ == self@.cut_if(ended),
    {
        if ended {
            self.truncated()
        } else {
            self
        }
    }

    /// Mark a `Partial` length as the file's real size, known from a header
    /// that survived even though the data did not.
    pub fn established(self) -> (r: Outcome)
        ensures
            r@ == self@.established(),
    {
        let mut out = self;
        out.length_established = true;
        out
    }

    pub fn with_ext(self, ext: &'static str) -> (r: Outcome)
        ensures
            r@ == self@.with_ext(ext@),
    {
        let mut out = self;
        out.refined_ext = Some(ext);
        out
    }

    pub fn note(self, detail: &str) -> (r: Outcome)
        ensures
            r@ == self@.note(detail@),
    {
        let mut out = self;
        out.detail = detail.to_owned();
        out
    }

    pub fn with<V: Shown>(self, key: &'static str, value: V) -> (r: Outcome)
        ensures
            r@ == self@.with(key@, value.shown()),
    {
        let mut out = self;
        let shown = value.show();
        out.evidence.push((key, shown));
        assert(out@.evidence =~= self@.evidence.push((key@, value.shown())));
        out
    }

    pub fn is_valid(&self) -> (r: bool)
        ensures
            r == (self.status == Status::Valid),
    {
        self.status == Status::Valid
    }

    pub fn is_accepted(&self) -> (r: bool)
        ensures
            r == (self.status != Status::Rejected),
    {
        self.status.is_accepted()
    }

    /// The first evidence value recorded under `key`.
    pub fn evidence_of(&self, key: &str) -> (r: Option<&str>)
        ensures
            match r {
                Some(v) => self@.tells(key@, v@),
                None => forall|j: int|
                    0 <= j < self@.evidence.len() ==> (#[trigger] self@.evidence[j]).0 != key@,
            },
    {
        let mut i: usize = 0;
        while i < self.evidence.len()
            invariant
                i <= self.evidence@.len(),
                forall|j: int| 0 <= j < i ==> (#[trigger] self@.evidence[j]).0 != key@,
            decreases self.evidence@.len() - i,
        {
            assert(self@.evidence[i as int] == entry(self.evidence@[i as int]));
            if same_text(self.evidence[i].0, key) {
                return Some(self.evidence[i].1.as_str());
            }
            i += 1;
        }
        None
    }
}

/// Every validator id, next to the dispatcher so that the two cannot drift
/// apart.
pub const VALIDATOR_IDS: [&'static str; 23] = [
    "7z",
    "bmp",
    "cab",
    "elf",
    "evtx",
    "gif",
    "ico",
    "jpeg",
    "mp4",
    "pdf",
    "pe",
    "png",
    "psd",
    "rar",
    "reg_hive",
    "riff_aiff",
    "riff_avi",
    "riff_wav",
    "riff_webp",
    "rtf",
    "sqlite",
    "tiff",
    "zip",
];

/// Whether `id` is the id of a validator.
pub open spec fn known(id: Seq<char>) -> bool {
    exists|i: int| 0 <= i < VALIDATOR_IDS@.len() && (#[trigger] VALIDATOR_IDS@[i])@ == id
}

/// What the validator `id` says of `d`; `None` for an unknown id.
#[verifier::opaque]
pub open spec fn verdict_of(id: Seq<char>, d: Seq<u8>) -> Option<Verdict> {
    if id == "7z"@ {
        Some(archive::sevenz_verdict(d))
    } else if id == "bmp"@ {
        Some(bmp::verdict(d))
    } else if id == "cab"@ {
        Some(archive::cab_verdict(d))
    } else if id == "elf"@ {
        Some(structured::elf_verdict(d))
    } else if id == "evtx"@ {
        Some(structured::evtx_verdict(d))
    } else if id == "gif"@ {
        Some(gif::verdict(d))
    } else if id == "ico"@ {
        Some(ico::verdict(d))
    } else if id == "jpeg"@ {
        Some(jpeg::verdict(d))
    } else if id == "mp4"@ {
        Some(mp4::verdict(d))
    } else if id == "pdf"@ {
        Some(pdf::verdict(d))
    } else if id == "pe"@ {
        Some(pe::verdict(d))
    } else if id == "png"@ {
        Some(png::verdict(d))
    } else if id == "psd"@ {
        Some(structured::psd_verdict(d))
    } else if id == "rar"@ {
        Some(archive::rar_verdict(d))
    } else if id == "reg_hive"@ {
        Some(structured::hive_verdict(d))
    } else if id == "riff_aiff"@ {
        Some(riff::aiff_verdict(d))
    } else if id == "riff_avi"@ {
        Some(riff::riff_verdict(d, riff::avi_form()))
    } else if id == "riff_wav"@ {
        Some(riff::riff_verdict(d, riff::wav_form()))
    } else if id == "riff_webp"@ {
        Some(riff::riff_verdict(d, riff::webp_form()))
    } else if id == "rtf"@ {
        Some(structured::rtf_verdict(d))
    } else if id == "sqlite"@ {
        Some(sqlite::verdict(d))
    } else if id == "tiff"@ {
        Some(structured::tiff_verdict(d))
    } else if id == "zip"@ {
        Some(zip::verdict(d))
    } else {
        None
    }
}

/// Run the validator named by `id` over a candidate.
///
/// `data` must start at the candidate's first byte. Returns `None` for an
/// unknown id, which the caller should treat as "no validator" rather than as
/// a failure: most signatures are header-match-only by design.
pub fn validate(id: &str, data: &[u8]) -> (r: Option<Outcome>)
    ensures
        match r {
            Some(o) => verdict_of(id@, data@) == Some(o@),
            None => verdict_of(id@, data@) is None,
        },
{
    proof {
        reveal(verdict_of);
    }
    if same_text(id, "7z") {
        Some(archive::validate_7z(data))
    } else if same_text(id, "bmp") {
        Some(bmp::validate(data))
    } else if same_text(id, "cab") {
        Some(archive::validate_cab(data))
    } else if same_text(id, "elf") {
        Some(structured::validate_elf(data))
    } else if same_text(id, "evtx") {
        Some(structured::validate_evtx(data))
    } else if same_text(id, "gif") {
        Some(gif::validate(data))
    } else if same_text(id, "ico") {
        Some(ico::validate(data))
    } else if same_text(id, "jpeg") {
        Some(jpeg::validate(data))
    } else if same_text(id, "mp4") {
        Some(mp4::validate(data))
    } else if same_text(id, "pdf") {
        Some(pdf::validate(data))
    } else if same_text(id, "pe") {
        Some(pe::validate(data))
    } else if same_text(id, "png") {
        Some(png::validate(data))
    } else if same_text(id, "psd") {
        Some(structured::validate_psd(data))
    } else if same_text(id, "rar") {
        Some(archive::validate_rar(data))
    } else if same_text(id, "reg_hive") {
        Some(structured::validate_reg_hive(data))
    } else if same_text(id, "riff_aiff") {
        Some(riff::validate_aiff(data))
    } else if same_text(id, "riff_avi") {
        Some(riff::validate_avi(data))
    } else if same_text(id, "riff_wav") {
        Some(riff::validate_wav(data))
    } else if same_text(id, "riff_webp") {
        Some(riff::validate_webp(data))
    } else if same_text(id, "rtf") {
        Some(structured::validate_rtf(data))
    } else if same_text(id, "sqlite") {
        Some(sqlite::validate(data))
    } else if same_text(id, "tiff") {
        Some(structured::validate_tiff(data))
    } else if same_text(id, "zip") {
        Some(zip::validate(data))
    } else {
        None
    }
}

pub fn has_validator(id: &str) -> (r: bool)
    ensures
        r == known(id@),
{
    let ids: [&'static str; 23] = VALIDATOR_IDS;
    let mut i: usize = 0;
    while i < 23
        invariant
            i <= 23,
            ids@ == VALIDATOR_IDS@,
            forall|j: int| 0 <= j < i ==> (#[trigger] VALIDATOR_IDS@[j])@ != id@,
        decreases 23 - i,
    {
        if same_text(ids[i], id) {
            assert(VALIDATOR_IDS@[i as int]@ == id@);
            return true;
        }
        i += 1;
    }
    false
}

proof fn list_spelled_out(id: Seq<char>)
    ensures
        known(id) <==> (id == "7z"@ || id == "bmp"@ || id == "cab"@ || id == "elf"@ || id == "evtx"@ || id == "gif"@ || id == "ico"@ || id == "jpeg"@ || id == "mp4"@ || id == "pdf"@ || id == "pe"@ || id == "png"@ || id == "psd"@ || id == "rar"@ || id == "reg_hive"@ || id == "riff_aiff"@ || id == "riff_avi"@ || id == "riff_wav"@ || id == "riff_webp"@ || id == "rtf"@ || id == "sqlite"@ || id == "tiff"@ || id == "zip"@),
{
    assert(VALIDATOR_IDS@[0]@ == "7z"@);
    assert(VALIDATOR_IDS@[1]@ == "bmp"@);
    assert(VALIDATOR_IDS@[2]@ == "cab"@);
    assert(VALIDATOR_IDS@[3]@ == "elf"@);
    assert(VALIDATOR_IDS@[4]@ == "evtx"@);
    assert(VALIDATOR_IDS@[5]@ == "gif"@);
    assert(VALIDATOR_IDS@[6]@ == "ico"@);
    assert(VALIDATOR_IDS@[7]@ == "jpeg"@);
    assert(VALIDATOR_IDS@[8]@ == "mp4"@);
    assert(VALIDATOR_IDS@[9]@ == "pdf"@);
    assert(VALIDATOR_IDS@[10]@ == "pe"@);
    assert(VALIDATOR_IDS@[11]@ == "png"@);
    assert(VALIDATOR_IDS@[12]@ == "psd"@);
    assert(VALIDATOR_IDS@[13]@ == "rar"@);
    assert(VALIDATOR_IDS@[14]@ == "reg_hive"@);
    assert(VALIDATOR_IDS@[15]@ == "riff_aiff"@);
    assert(VALIDATOR_IDS@[16]@ == "riff_avi"@);
    assert(VALIDATOR_IDS@[17]@ == "riff_wav"@);
    assert(VALIDATOR_IDS@[18]@ == "riff_webp"@);
    assert(VALIDATOR_IDS@[19]@ == "rtf"@);
    assert(VALIDATOR_IDS@[20]@ == "sqlite"@);
    assert(VALIDATOR_IDS@[21]@ == "tiff"@);
    assert(VALIDATOR_IDS@[22]@ == "zip"@);
}

/// The ids that are listed are the ids that can be dispatched, no more and no
/// fewer.
#[verifier::rlimit(50)]
pub proof fn every_listed_id_is_dispatched(id: Seq<char>, d: Seq<u8>)
    ensures
        known(id) <==> verdict_of(id, d) is Some,
{
    reveal(verdict_of);
    list_spelled_out(id);
}

/// Whatever bytes a validator is handed, it claims no length for a rejection
/// and none past the data for an acceptance, unless the file itself states it.
#[verifier::rlimit(50)]
pub proof fn every_validator_is_sound(id: Seq<char>, d: Seq<u8>)
    ensures
        verdict_of(id, d) matches Some(v) ==> v.sound_for(d.len() as int),
{
    reveal(verdict_of);
    archive::sevenz_is_sound(d);
    archive::cab_is_sound(d);
    archive::rar_is_sound(d);
    bmp::is_sound(d);
    gif::is_sound(d);
    ico::is_sound(d);
    jpeg::is_sound(d);
    mp4::is_sound(d);
    pdf::is_sound(d);
    pe::is_sound(d);
    png::is_sound(d);
    riff::aiff_is_sound(d);
    riff::riff_is_sound(d, riff::avi_form());
    riff::riff_is_sound(d, riff::wav_form());
    riff::riff_is_sound(d, riff::webp_form());
    sqlite::is_sound(d);
    structured::elf_is_sound(d);
    structured::evtx_is_sound(d);
    structured::hive_is_sound(d);
    structured::psd_is_sound(d);
    structured::rtf_is_sound(d);
    structured::tiff_is_sound(d);
    zip::is_sound(d);
}

} // verus!
