use rc_carve::crc32::crc32_parts;
use rc_carve::validate::png::{validate, SIGNATURE};
use rc_carve::Status;

fn chunk(ty: &[u8; 4], data: &[u8]) -> Vec<u8> {
    let mut v = (data.len() as u32).to_be_bytes().to_vec();
    v.extend_from_slice(ty);
    v.extend_from_slice(data);
    v.extend_from_slice(&crc32_parts(&[ty, data]).to_be_bytes());
    v
}

fn ihdr(w: u32, h: u32) -> Vec<u8> {
    let mut d = w.to_be_bytes().to_vec();
    d.extend_from_slice(&h.to_be_bytes());
    d.extend_from_slice(&[8, 2, 0, 0, 0]);
    chunk(b"IHDR", &d)
}

fn png(w: u32, h: u32) -> Vec<u8> {
    let mut v = SIGNATURE.to_vec();
    v.extend(ihdr(w, h));
    v.extend(chunk(
        b"IDAT",
        &[0x78, 0x9C, 0x63, 0x00, 0x00, 0x00, 0x01, 0x00, 0x01],
    ));
    v.extend(chunk(b"IEND", &[]));
    v
}

#[test]
fn accepts_a_well_formed_png() {
    let p = png(16, 9);
    let out = validate(&p);
    assert_eq!(out.status, Status::Valid, "{}", out.detail);
    assert_eq!(out.length, p.len() as u64);
    assert_eq!(out.evidence_of("width"), Some("16"));
    assert_eq!(out.evidence_of("height"), Some("9"));
    assert_eq!(out.evidence_of("crc_errors"), Some("0"));
}

/// Trailing bytes must not extend the reported length: a carved PNG is
/// followed by whatever was next on the disk.
#[test]
fn length_stops_at_iend_not_at_the_end_of_the_buffer() {
    let mut p = png(4, 4);
    let real = p.len();
    p.extend_from_slice(&[0xAB; 4096]);
    let out = validate(&p);
    assert_eq!(out.status, Status::Valid);
    assert_eq!(out.length, real as u64);
}

/// Whole, but overwritten.
#[test]
fn a_corrupt_idat_is_partial_and_names_the_chunk() {
    let mut p = png(4, 4);
    let idat_payload = 8 + 25 + 8;
    p[idat_payload] ^= 0xFF;
    let out = validate(&p);
    assert_eq!(out.status, Status::Partial, "{}", out.detail);
    assert_eq!(out.evidence_of("crc_errors"), Some("1"));
    assert!(out.detail.contains("IDAT"), "{}", out.detail);
}

#[test]
fn a_corrupt_ihdr_is_rejected_rather_than_trusted() {
    let mut p = png(4, 4);
    p[16] ^= 0xFF; // inside IHDR's width
    assert_eq!(validate(&p).status, Status::Rejected);
}

#[test]
fn rejects_a_bogus_first_chunk() {
    let mut v = SIGNATURE.to_vec();
    v.extend(chunk(b"IDAT", &[1, 2, 3]));
    v.extend(chunk(b"IEND", &[]));
    assert_eq!(validate(&v).status, Status::Rejected);
}

#[test]
fn rejects_an_absurd_chunk_length() {
    let mut v = SIGNATURE.to_vec();
    v.extend(ihdr(4, 4));
    v.extend_from_slice(&0xFFFF_FFFFu32.to_be_bytes());
    v.extend_from_slice(b"IDAT");
    assert_eq!(validate(&v).status, Status::Rejected);
}

#[test]
fn a_truncated_png_after_idat_is_partial() {
    let p = png(64, 64);
    let out = validate(&p[..p.len() - 6]);
    assert_eq!(out.status, Status::Partial, "{}", out.detail);
}

#[test]
fn rejects_invalid_ihdr_fields() {
    for (depth, colour) in [(3u8, 2u8), (8, 7), (0, 0)] {
        let mut d = 4u32.to_be_bytes().to_vec();
        d.extend_from_slice(&4u32.to_be_bytes());
        d.extend_from_slice(&[depth, colour, 0, 0, 0]);
        let mut v = SIGNATURE.to_vec();
        v.extend(chunk(b"IHDR", &d));
        v.extend(chunk(b"IEND", &[]));
        assert_eq!(
            validate(&v).status,
            Status::Rejected,
            "depth {depth} colour {colour} should be rejected"
        );
    }
}

#[test]
fn any_one_damaged_byte_is_named() {
    let mut p = SIGNATURE.to_vec();
    p.extend(ihdr(4, 4));
    let text_at = p.len();
    p.extend(chunk(b"tEXt", b"Comment\0hello"));
    p.extend(chunk(b"IDAT", &[0x78, 0x9C, 0x63, 0, 0, 0, 1, 0, 1]));
    p.extend(chunk(b"IEND", &[]));
    let whole = validate(&p);
    assert_eq!(whole.status, Status::Valid, "{}", whole.detail);
    let at = text_at.to_string();
    for i in text_at + 8..text_at + 8 + 13 {
        for flip in [0x01u8, 0x80, 0xFF] {
            let mut q = p.clone();
            q[i] ^= flip;
            let out = validate(&q);
            assert_eq!(out.status, Status::Partial, "{}", out.detail);
            assert_eq!(out.length, whole.length);
            assert!(!out.ran_out);
            assert_eq!(out.evidence_of("crc_errors"), Some("1"));
            assert_eq!(out.evidence_of("damage_at"), Some(at.as_str()));
            assert!(out.detail.contains(&format!("tEXt@{at}")), "{}", out.detail);
        }
    }
}
