use rc_carve::crc32::crc32;
use rc_carve::validate::archive::{validate_7z, validate_cab, validate_rar};
use rc_carve::Status;

const SEVENZ_MAGIC: &[u8; 6] = b"7z\xBC\xAF\x27\x1C";

fn sevenz(payload: usize) -> Vec<u8> {
    let next_offset = payload as u64;
    let next_size = 64u64;
    let mut start = next_offset.to_le_bytes().to_vec();
    start.extend_from_slice(&next_size.to_le_bytes());
    start.extend_from_slice(&0u32.to_le_bytes()); // next header CRC
    assert_eq!(start.len(), 20);

    let mut v = SEVENZ_MAGIC.to_vec();
    v.extend_from_slice(&[0, 4]);
    v.extend_from_slice(&crc32(&start).to_le_bytes());
    v.extend_from_slice(&start);
    v.resize(32 + payload + next_size as usize, 0x5A);
    v
}

fn cab(total: u32) -> Vec<u8> {
    let mut v = b"MSCF".to_vec();
    v.extend_from_slice(&0u32.to_le_bytes());
    v.extend_from_slice(&total.to_le_bytes());
    v.extend_from_slice(&0u32.to_le_bytes());
    v.extend_from_slice(&36u32.to_le_bytes());
    v.extend_from_slice(&0u32.to_le_bytes());
    v.extend_from_slice(&[3, 1]);
    v.extend_from_slice(&1u16.to_le_bytes());
    v.extend_from_slice(&1u16.to_le_bytes());
    v.extend_from_slice(&0u16.to_le_bytes());
    v.extend_from_slice(&0u16.to_le_bytes());
    v.extend_from_slice(&0u16.to_le_bytes());
    v.resize(total as usize, 0xC4);
    v
}

#[test]
fn seven_zip_length_comes_from_the_start_header() {
    let a = sevenz(4000);
    let out = validate_7z(&a);
    assert_eq!(out.status, Status::Valid, "{}", out.detail);
    assert_eq!(out.length, a.len() as u64);
}

#[test]
fn seven_zip_rejects_a_corrupt_start_header() {
    let mut a = sevenz(1000);
    a[13] ^= 0xFF; // inside the CRC-covered start header
    let out = validate_7z(&a);
    assert_eq!(out.status, Status::Rejected, "{}", out.detail);
    assert!(out.detail.contains("CRC"), "{}", out.detail);
}

#[test]
fn seven_zip_trailing_bytes_do_not_extend_the_length() {
    let mut a = sevenz(2000);
    let real = a.len();
    a.extend_from_slice(&[0; 8192]);
    assert_eq!(validate_7z(&a).length, real as u64);
}

#[test]
fn cab_length_is_the_declared_cabinet_size() {
    let c = cab(9000);
    let out = validate_cab(&c);
    assert_eq!(out.status, Status::Valid, "{}", out.detail);
    assert_eq!(out.length, 9000);
    assert_eq!(out.evidence_of("version"), Some("1.3"));
}

#[test]
fn cab_rejects_non_zero_reserved_fields() {
    let mut c = cab(9000);
    c[4..8].copy_from_slice(&1u32.to_le_bytes());
    assert_eq!(validate_cab(&c).status, Status::Rejected);
}

#[test]
fn cab_rejects_a_first_file_offset_outside_the_cabinet() {
    let mut c = cab(9000);
    c[16..20].copy_from_slice(&99_999u32.to_le_bytes());
    assert_eq!(validate_cab(&c).status, Status::Rejected);
}

#[test]
fn a_truncated_cab_keeps_its_declared_size() {
    let c = cab(9000);
    let out = validate_cab(&c[..4000]);
    assert_eq!(out.status, Status::Partial, "{}", out.detail);
    assert_eq!(out.length, 9000, "the header size is still trustworthy");
    assert!(out.length_established);
}

#[test]
fn rar_versions_are_told_apart() {
    let mut four = b"Rar!\x1A\x07\x00".to_vec();
    four.extend_from_slice(&[0x11; 64]);
    assert_eq!(validate_rar(&four).evidence_of("version"), Some("4"));

    let mut five = b"Rar!\x1A\x07\x01\x00".to_vec();
    five.extend_from_slice(&[0x11; 64]);
    assert_eq!(validate_rar(&five).evidence_of("version"), Some("5"));
}

/// RAR's length is not established, so it must never suppress a neighbour.
#[test]
fn rar_does_not_claim_an_established_length() {
    let mut v = b"Rar!\x1A\x07\x00".to_vec();
    v.extend_from_slice(&[0x11; 64]);
    let out = validate_rar(&v);
    assert_eq!(out.status, Status::Partial);
    assert!(!out.length_established);
}

#[test]
fn rejects_chance_signatures() {
    let mut state = 0x1357_9BDFu32;
    for _ in 0..500 {
        let mut v = SEVENZ_MAGIC.to_vec();
        for _ in 0..64 {
            state ^= state << 13;
            state ^= state >> 17;
            state ^= state << 5;
            v.push(state as u8);
        }
        assert_eq!(validate_7z(&v).status, Status::Rejected);

        let mut v = b"MSCF".to_vec();
        for _ in 0..64 {
            state ^= state << 13;
            state ^= state >> 17;
            state ^= state << 5;
            v.push(state as u8);
        }
        assert_eq!(validate_cab(&v).status, Status::Rejected);
    }
}

#[test]
fn cab_trailing_bytes_change_nothing() {
    let mut c = cab(9000);
    let alone = validate_cab(&c);
    c.extend_from_slice(b"MSCF and more");
    let followed = validate_cab(&c);
    assert_eq!(followed.status, Status::Valid);
    assert_eq!(followed.length, alone.length);
    assert_eq!(followed.evidence, alone.evidence);
}

#[test]
fn a_rar_marker_cut_short_ran_out() {
    let cut = validate_rar(b"Rar!\x1A\x07");
    assert_eq!(cut.status, Status::Rejected, "{}", cut.detail);
    assert!(cut.ran_out);
    for d in [&b"Rar!\x1A\x08"[..], &b"Rar!\x1A\x08 and more of it"[..]] {
        let out = validate_rar(d);
        assert_eq!(out.status, Status::Rejected, "{}", out.detail);
        assert!(!out.ran_out);
    }
}
