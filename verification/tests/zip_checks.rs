use memchr::memmem;
use rc_carve::crc32::crc32;
use rc_carve::validate::zip::validate;
use rc_carve::Status;

const LOCAL: &[u8; 4] = b"PK\x03\x04";
const CENTRAL: &[u8; 4] = b"PK\x01\x02";
const EOCD: &[u8; 4] = b"PK\x05\x06";

/// Minimal stored-method ZIP writer, so the tests do not depend on a
/// compression library to build their fixtures.
fn zip(members: &[(&str, &[u8])]) -> Vec<u8> {
    let mut out = Vec::new();
    let mut central = Vec::new();
    for (name, data) in members {
        let offset = out.len() as u32;
        let crc = crc32(data);
        out.extend_from_slice(LOCAL);
        out.extend_from_slice(&[20, 0, 0, 0, 0, 0, 0, 0, 0, 0]); // ver/flags/method/time
        out.extend_from_slice(&crc.to_le_bytes());
        out.extend_from_slice(&(data.len() as u32).to_le_bytes());
        out.extend_from_slice(&(data.len() as u32).to_le_bytes());
        out.extend_from_slice(&(name.len() as u16).to_le_bytes());
        out.extend_from_slice(&0u16.to_le_bytes());
        out.extend_from_slice(name.as_bytes());
        out.extend_from_slice(data);

        central.extend_from_slice(CENTRAL);
        central.extend_from_slice(&[20, 0, 20, 0, 0, 0, 0, 0, 0, 0, 0, 0]);
        central.extend_from_slice(&crc.to_le_bytes());
        central.extend_from_slice(&(data.len() as u32).to_le_bytes());
        central.extend_from_slice(&(data.len() as u32).to_le_bytes());
        central.extend_from_slice(&(name.len() as u16).to_le_bytes());
        central.extend_from_slice(&0u16.to_le_bytes()); // extra
        central.extend_from_slice(&0u16.to_le_bytes()); // comment
        central.extend_from_slice(&0u16.to_le_bytes()); // disk
        central.extend_from_slice(&0u16.to_le_bytes()); // internal attrs
        central.extend_from_slice(&0u32.to_le_bytes()); // external attrs
        central.extend_from_slice(&offset.to_le_bytes());
        central.extend_from_slice(name.as_bytes());
    }
    let cd_offset = out.len() as u32;
    let cd_size = central.len() as u32;
    out.extend_from_slice(&central);
    out.extend_from_slice(EOCD);
    out.extend_from_slice(&[0, 0, 0, 0]);
    out.extend_from_slice(&(members.len() as u16).to_le_bytes());
    out.extend_from_slice(&(members.len() as u16).to_le_bytes());
    out.extend_from_slice(&cd_size.to_le_bytes());
    out.extend_from_slice(&cd_offset.to_le_bytes());
    out.extend_from_slice(&0u16.to_le_bytes());
    out
}

fn docx() -> Vec<u8> {
    zip(&[
        ("[Content_Types].xml", b"<Types/>"),
        ("_rels/.rels", b"<Relationships/>"),
        ("word/document.xml", b"<document/>"),
    ])
}

#[test]
fn accepts_a_plain_zip() {
    let z = zip(&[("a.txt", b"hello"), ("b.txt", b"world")]);
    let out = validate(&z);
    assert_eq!(out.status, Status::Valid, "{}", out.detail);
    assert_eq!(out.length, z.len() as u64);
    assert_eq!(out.refined_ext, Some("zip"));
    assert_eq!(out.evidence_of("entries"), Some("2"));
}

/// The headline reason this validator exists.
#[test]
fn an_ooxml_package_is_reported_as_docx_not_zip() {
    let out = validate(&docx());
    assert_eq!(out.status, Status::Valid, "{}", out.detail);
    assert_eq!(out.refined_ext, Some("docx"));
}

#[test]
fn distinguishes_the_three_ooxml_applications() {
    for (dir, want) in [("word/", "docx"), ("xl/", "xlsx"), ("ppt/", "pptx")] {
        let part = format!("{dir}main.xml");
        let z = zip(&[("[Content_Types].xml", b"<Types/>"), (&part, b"<x/>")]);
        assert_eq!(validate(&z).refined_ext, Some(want), "for {dir}");
    }
}

#[test]
fn recognises_jar_apk_and_epub() {
    let jar = zip(&[("META-INF/MANIFEST.MF", b"Manifest-Version: 1.0")]);
    assert_eq!(validate(&jar).refined_ext, Some("jar"));

    let apk = zip(&[
        ("META-INF/MANIFEST.MF", b"Manifest-Version: 1.0"),
        ("AndroidManifest.xml", b"\x03\x00\x08\x00"),
    ]);
    assert_eq!(validate(&apk).refined_ext, Some("apk"));

    let epub = zip(&[
        ("mimetype", b"application/epub+zip"),
        ("META-INF/container.xml", b"<container/>"),
    ]);
    assert_eq!(validate(&epub).refined_ext, Some("epub"));
}

/// Two archives adjacent on disk. Taking the last EOCD in the window would
/// report one file spanning both.
#[test]
fn stops_at_its_own_eocd_rather_than_a_later_archive() {
    let first = docx();
    let mut both = first.clone();
    both.extend_from_slice(&zip(&[("other.txt", b"xx")]));
    let out = validate(&both);
    assert_eq!(out.status, Status::Valid, "{}", out.detail);
    assert_eq!(out.length, first.len() as u64);
    assert_eq!(out.refined_ext, Some("docx"));
}

#[test]
fn zip_trailing_bytes_do_not_extend_the_length() {
    let mut z = docx();
    let real = z.len();
    z.extend_from_slice(&[0x00; 2048]);
    assert_eq!(validate(&z).length, real as u64);
}

#[test]
fn a_zip_with_no_central_directory_is_partial() {
    let z = docx();
    let cut = memmem::find(&z, CENTRAL).unwrap();
    let out = validate(&z[..cut]);
    assert_eq!(out.status, Status::Partial, "{}", out.detail);
    assert!(out.detail.contains("truncated"), "{}", out.detail);
    // The length must come from the local-header chain, not from how much
    // data the caller happened to hand over.
    assert!(out.length > 0 && out.length <= cut as u64);
}

/// The bug that destroyed recall on the quick-formatted fixture: a
/// truncated archive reported the caller's buffer size as its length, so
/// one spurious PK\x03\x04 claimed the whole validation window.
#[test]
fn a_truncated_archive_does_not_report_the_buffer_size_as_its_length() {
    let z = docx();
    let cut = memmem::find(&z, CENTRAL).unwrap();
    let head = &z[..cut];

    // Same prefix, three different amounts of trailing padding. The
    // reported length must not move.
    let mut lengths = Vec::new();
    for pad in [0usize, 4096, 1 << 20] {
        let mut v = head.to_vec();
        v.resize(head.len() + pad, 0);
        let out = validate(&v);
        assert_eq!(out.status, Status::Partial, "{}", out.detail);
        lengths.push(out.length);
    }
    assert!(
        lengths.iter().all(|l| *l == lengths[0]),
        "length changed with the size of the buffer: {lengths:?}"
    );
    assert!(
        lengths[0] <= head.len() as u64,
        "claimed {} bytes from a {}-byte archive prefix",
        lengths[0],
        head.len()
    );
}

/// ZIP's per-member CRC is the only content-level check the format offers,
/// and it is the difference between "the index parses" and "the bytes are
/// intact". The test writer above stores everything uncompressed, so every
/// member is checkable.
#[test]
fn verifies_the_checksums_of_stored_members() {
    let z = zip(&[("a.txt", b"hello"), ("b.txt", b"world")]);
    let out = validate(&z);
    assert_eq!(out.status, Status::Valid, "{}", out.detail);
    assert_eq!(out.evidence_of("stored_members_verified"), Some("2"));
    assert_eq!(out.evidence_of("stored_members_failed"), Some("0"));
}

#[test]
fn a_member_whose_content_was_overwritten_is_partial() {
    let mut z = zip(&[("a.txt", b"hello there"), ("b.txt", b"world")]);
    // Corrupt a byte of the first member's payload, leaving every length
    // field and the whole central directory intact.
    let at = memmem::find(&z, b"hello there").unwrap();
    z[at + 2] ^= 0xFF;
    let out = validate(&z);
    assert_eq!(out.status, Status::Partial, "{}", out.detail);
    assert_eq!(out.evidence_of("stored_members_failed"), Some("1"));
    assert_eq!(out.evidence_of("stored_members_verified"), Some("1"));
    assert!(out.detail.contains("CRC-32"), "{}", out.detail);
}

#[test]
fn rejects_a_chance_pk_signature() {
    let mut v = LOCAL.to_vec();
    v.extend((0u8..200).map(|n| n.wrapping_mul(97).wrapping_add(3)));
    assert_eq!(validate(&v).status, Status::Rejected);
}

#[test]
fn a_central_directory_short_of_its_declared_members_is_partial() {
    let mut z = zip(&[("a.txt", b"1"), ("b.txt", b"2")]);
    let eocd = memmem::rfind(&z, EOCD).unwrap();
    // Claim four members where two exist.
    z[eocd + 10..eocd + 12].copy_from_slice(&4u16.to_le_bytes());
    let out = validate(&z);
    assert_eq!(out.status, Status::Partial, "{}", out.detail);
    assert_eq!(out.evidence_of("names_read"), Some("2"));
}

#[test]
fn a_local_header_cut_short_ran_out() {
    let z = zip(&[("a.txt", b"hello")]);
    for n in [20usize, 33] {
        let cut = validate(&z[..n]);
        assert_eq!(cut.status, Status::Rejected, "{}", cut.detail);
        assert!(cut.ran_out);
    }
    let mut wrong = z[..50].to_vec();
    wrong[8] = 10; // no such method
    let out = validate(&wrong[..40]);
    assert_eq!(out.status, Status::Rejected, "{}", out.detail);
    assert!(!out.ran_out);
}

#[test]
fn a_damaged_member_stays_damaged() {
    let mut z = zip(&[("a.txt", b"hello"), ("b.txt", b"world")]);
    let len = z.len() as u64;
    z[36] ^= 0xFF; // inside the first member
    for more in [0usize, 800] {
        z.extend(vec![0x77; more]);
        let out = validate(&z);
        assert_eq!(out.status, Status::Partial, "{}", out.detail);
        assert!(!out.ran_out);
        assert_eq!(out.length, len);
    }
}

/// A header whose extra field runs past the data counts for its fixed part.
#[test]
fn a_cut_extra_field_is_no_part_of_the_length() {
    let mut z = zip(&[("a.txt", b"hello")])[..35].to_vec();
    z[28..30].copy_from_slice(&500u16.to_le_bytes());
    for more in [0usize, 100] {
        z.extend(vec![0x2E; more]);
        let out = validate(&z);
        assert_eq!(out.status, Status::Partial, "{}", out.detail);
        assert!(out.ran_out);
        assert_eq!(out.length, 30);
    }
}

/// A header that ends early but already cannot be one did not run out.
#[test]
fn a_wrong_header_that_is_cut_short_is_wrong() {
    let z = zip(&[("a.txt", b"hello")]);
    let mut method = z[..33].to_vec();
    method[8] = 10;
    let mut name = z[..33].to_vec();
    name[31] = 0x01;
    let mut empty = z[..29].to_vec();
    empty[26] = 0;
    for d in [method, name, empty] {
        let out = validate(&d);
        assert_eq!(out.status, Status::Rejected, "{}", out.detail);
        assert!(!out.ran_out);
    }
}
