//! Checking an image against the manifest written with it.

use vstd::prelude::*;
use vstd::string::*;
use crate::output;
use crate::output::human_bytes;
use crate::text;

verus! {

/// What comparing an image with its manifest found.
#[derive(Clone, Debug)]
pub struct VerifyReport {
    pub passed: bool,
    pub size_ok: bool,
    pub sha256_ok: bool,
    pub md5_ok: bool,
    pub expected_bytes: u64,
    pub actual_bytes: u64,
    pub expected_sha256: String,
    pub actual_sha256: String,
    pub expected_md5: String,
    pub actual_md5: String,
    pub source_was_incomplete: bool,
}

/// Four columns that say whether a check passed.
pub open spec fn mark_text(ok: bool) -> Seq<char> {
    if ok {
        "OK  "@
    } else {
        "FAIL"@
    }
}

/// Four columns that say whether a check passed.
pub fn mark(ok: bool) -> (r: &'static str)
    ensures
        r@ == mark_text(ok),
{
    if ok {
        "OK  "
    } else {
        "FAIL"
    }
}

/// A digest's line, and the one expected where they differ.
pub open spec fn digest_text(
    label: Seq<char>,
    ok: bool,
    actual: Seq<char>,
    expected: Seq<char>,
) -> Seq<Seq<char>> {
    seq![label + mark_text(ok) + "  "@ + actual] + (if ok {
        Seq::<Seq<char>>::empty()
    } else {
        seq!["        expected "@ + expected]
    })
}

/// What comparing an image with its manifest found, as lines of text.
pub open spec fn verify_text(r: VerifyReport) -> Seq<Seq<char>> {
    seq![
        "size    "@ + mark_text(r.size_ok) + "  expected "@ + output::size_text(
            r.expected_bytes as int,
        ) + "  actual "@ + output::size_text(r.actual_bytes as int),
    ] + digest_text("sha256  "@, r.sha256_ok, r.actual_sha256@, r.expected_sha256@) + digest_text(
        "md5     "@,
        r.md5_ok,
        r.actual_md5@,
        r.expected_md5@,
    ) + seq![
        ""@,
        if r.passed {
            "VERIFIED: the image matches its manifest."@
        } else {
            "FAILED: the image does not match its manifest."@
        },
    ] + (if r.source_was_incomplete {
        seq![
            "note: the manifest records an incomplete clone (the source had unreadable regions), so this image is not a faithful copy of the original device even when it verifies against the manifest."@,
        ]
    } else {
        Seq::<Seq<char>>::empty()
    })
}

fn say_digest(lines: &mut Vec<String>, label: &str, ok: bool, actual: &str, expected: &str)
    ensures
        text::texts(final(lines)@) == text::texts(old(lines)@) + digest_text(
            label@,
            ok,
            actual@,
            expected@,
        ),
{
    let ghost was = text::texts(lines@);
    text::say(lines, text::cat4(label, mark(ok), "  ", actual));
    if !ok {
        text::say(lines, text::cat2("        expected ", expected));
    }
    assert(text::texts(lines@) =~= was + digest_text(label@, ok, actual@, expected@));
}

/// What comparing an image with its manifest found, as lines of text.
pub fn verify_lines(r: &VerifyReport) -> (v: Vec<String>)
    ensures
        text::texts(v@) == verify_text(*r),
{
    let mut out: Vec<String> = Vec::new();
    text::say(
        &mut out,
        text::cat6(
            "size    ",
            mark(r.size_ok),
            "  expected ",
            human_bytes(r.expected_bytes).as_str(),
            "  actual ",
            human_bytes(r.actual_bytes).as_str(),
        ),
    );
    say_digest(
        &mut out,
        "sha256  ",
        r.sha256_ok,
        r.actual_sha256.as_str(),
        r.expected_sha256.as_str(),
    );
    say_digest(
        &mut out,
        "md5     ",
        r.md5_ok,
        r.actual_md5.as_str(),
        r.expected_md5.as_str(),
    );
    text::say(&mut out, "".to_owned());
    if r.passed {
        text::say(&mut out, "VERIFIED: the image matches its manifest.".to_owned());
    } else {
        text::say(&mut out, "FAILED: the image does not match its manifest.".to_owned());
    }
    if r.source_was_incomplete {
        text::say(
            &mut out,
            "note: the manifest records an incomplete clone (the source had unreadable regions), so this image is not a faithful copy of the original device even when it verifies against the manifest.".to_owned(),
        );
    }
    assert(text::texts(out@) =~= verify_text(*r));
    out
}

} // verus!
