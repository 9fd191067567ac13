use memchr::memmem;
use rc_carve::validate::pdf::validate;
use rc_carve::Status;

/// Build a PDF whose startxref genuinely points at its xref table.
fn pdf(revisions: usize) -> Vec<u8> {
    let mut v = b"%PDF-1.7\n".to_vec();
    v.extend_from_slice(b"1 0 obj\n<< /Type /Catalog >>\nendobj\n");
    for _ in 0..revisions {
        let xref_at = v.len();
        v.extend_from_slice(b"xref\n0 1\n0000000000 65535 f \n");
        v.extend_from_slice(b"trailer\n<< /Size 1 /Root 1 0 R >>\nstartxref\n");
        v.extend_from_slice(format!("{xref_at}\n").as_bytes());
        v.extend_from_slice(b"%%EOF\n");
    }
    v
}

#[test]
fn accepts_a_single_revision_pdf() {
    let p = pdf(1);
    let out = validate(&p);
    assert_eq!(out.status, Status::Valid, "{}", out.detail);
    assert_eq!(out.length, p.len() as u64);
    assert_eq!(out.evidence_of("version"), Some("1.7"));
    assert_eq!(out.evidence_of("incremental_updates"), Some("0"));
}

/// The failure that produces a file which opens and is quietly wrong.
#[test]
fn takes_the_last_eof_so_incremental_updates_are_not_discarded() {
    let p = pdf(3);
    let out = validate(&p);
    assert_eq!(out.status, Status::Valid, "{}", out.detail);
    assert_eq!(out.length, p.len() as u64);
    assert_eq!(out.evidence_of("eof_markers"), Some("3"));
    assert_eq!(out.evidence_of("incremental_updates"), Some("2"));
}

/// The opposite failure: two PDFs adjacent on disk, and the carve of the
/// first swallows the second.
#[test]
fn stops_at_the_next_pdf_header_rather_than_absorbing_it() {
    let first = pdf(1);
    let second = pdf(2);
    let mut both = first.clone();
    both.extend_from_slice(&second);
    let out = validate(&both);
    assert_eq!(out.status, Status::Valid, "{}", out.detail);
    assert_eq!(out.length, first.len() as u64);
}

#[test]
fn pdf_trailing_disk_content_does_not_extend_the_length() {
    let mut p = pdf(1);
    let real = p.len();
    p.extend_from_slice(&[0x00; 8192]);
    assert_eq!(validate(&p).length, real as u64);
}

#[test]
fn a_pdf_with_objects_but_no_trailer_is_partial() {
    let mut v = b"%PDF-1.4\n".to_vec();
    v.extend_from_slice(b"1 0 obj\n<< /Type /Catalog >>\nendobj\n");
    let out = validate(&v);
    assert_eq!(out.status, Status::Partial, "{}", out.detail);
    assert!(out.detail.contains("truncated"), "{}", out.detail);
}

#[test]
fn a_startxref_pointing_nowhere_is_partial_rather_than_valid() {
    let mut p = pdf(1);
    let at = memmem::rfind(&p, b"startxref\n").unwrap() + b"startxref\n".len();
    // Point it into the middle of the catalog object instead.
    p[at..at + 2].copy_from_slice(b"12");
    let out = validate(&p);
    assert_eq!(out.status, Status::Partial, "{}", out.detail);
    assert!(out.detail.contains("not an xref"), "{}", out.detail);
}

#[test]
fn rejects_a_chance_header() {
    assert_eq!(validate(b"%PDF-XY nonsense here").status, Status::Rejected);
    let mut v = b"%PDF-1.4".to_vec();
    v.extend((0u8..200).map(|n| n.wrapping_mul(53)));
    assert_eq!(validate(&v).status, Status::Rejected);
}

#[test]
fn accepts_a_cross_reference_stream_target() {
    let mut v = b"%PDF-2.0\n".to_vec();
    v.extend_from_slice(b"1 0 obj\n<< >>\nendobj\n");
    let xref_at = v.len();
    v.extend_from_slice(b"2 0 obj\n<< /Type /XRef >>\nstream\nendstream\nendobj\n");
    v.extend_from_slice(b"startxref\n");
    v.extend_from_slice(format!("{xref_at}\n").as_bytes());
    v.extend_from_slice(b"%%EOF");
    let out = validate(&v);
    assert_eq!(out.status, Status::Valid, "{}", out.detail);
}

#[test]
fn a_pdf_without_objects_ran_out_unless_another_follows() {
    let mut p = b"%PDF-1.4\nnothing of note".to_vec();
    let cut = validate(&p);
    assert_eq!(cut.status, Status::Rejected, "{}", cut.detail);
    assert!(cut.ran_out);
    p.extend(pdf(1));
    let out = validate(&p);
    assert_eq!(out.status, Status::Rejected, "{}", out.detail);
    assert!(!out.ran_out);
}

#[test]
fn an_index_that_points_astray_does_so_whatever_follows() {
    let mut p = b"%PDF-1.4\n1 0 obj\nendobj\nstartxref\n4\n%%EOF\n".to_vec();
    let len = p.len() as u64;
    for more in [0usize, 600] {
        p.extend(vec![b'.'; more]);
        let out = validate(&p);
        assert_eq!(out.status, Status::Partial, "{}", out.detail);
        assert!(!out.ran_out);
        assert_eq!(out.length, len);
        assert_eq!(out.evidence_of("startxref"), Some("4"));
    }
}

/// Up to the next file's header all of the data is this file's, and nothing past
/// that header completes it.
#[test]
fn a_pdf_cut_by_the_next_one_ends_at_its_header() {
    let mut p = b"%PDF-1.4\n1 0 obj\n<< >>\nendobj\nand some more".to_vec();
    let cut = validate(&p);
    assert_eq!(cut.status, Status::Partial, "{}", cut.detail);
    assert!(cut.ran_out);
    assert_eq!(cut.length, 29);
    let bound = p.len() as u64;
    p.extend(pdf(1));
    for more in [0usize, 300] {
        p.extend(vec![b'.'; more]);
        let out = validate(&p);
        assert_eq!(out.status, Status::Partial, "{}", out.detail);
        assert_eq!(out.length, bound);
        assert!(!out.ran_out);
        assert!(!out.length_established);
        assert_eq!(out.evidence_of("version"), Some("1.4"));
        assert_eq!(out.evidence_of("truncated"), Some("true"));
    }
}

#[test]
fn a_short_pdf_with_a_wrong_version_did_not_run_out() {
    assert!(validate(b"%PDF-1.").ran_out);
    assert!(!validate(b"%PDF-X").ran_out);
    assert!(!validate(b"%PDF-1X").ran_out);
}
