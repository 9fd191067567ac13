use rc_carve::validate::ico::validate;
use rc_carve::Status;

const HEADER: usize = 6;
const ENTRY: usize = 16;

fn dib(w: u8, h: u8) -> Vec<u8> {
    let mut v = 40u32.to_le_bytes().to_vec();
    v.extend_from_slice(&(w as i32).to_le_bytes());
    v.extend_from_slice(&((h as i32) * 2).to_le_bytes());
    v.extend_from_slice(&1u16.to_le_bytes());
    v.extend_from_slice(&32u16.to_le_bytes());
    v.resize(40 + (w as usize * h as usize * 4), 0x40);
    v
}

fn ico(images: &[Vec<u8>]) -> Vec<u8> {
    let n = images.len() as u16;
    let mut v = 0u16.to_le_bytes().to_vec();
    v.extend_from_slice(&1u16.to_le_bytes());
    v.extend_from_slice(&n.to_le_bytes());
    let mut offset = HEADER + ENTRY * images.len();
    let mut dir = Vec::new();
    for img in images {
        dir.extend_from_slice(&[16, 16, 0, 0]);
        dir.extend_from_slice(&1u16.to_le_bytes());
        dir.extend_from_slice(&32u16.to_le_bytes());
        dir.extend_from_slice(&(img.len() as u32).to_le_bytes());
        dir.extend_from_slice(&(offset as u32).to_le_bytes());
        offset += img.len();
    }
    v.extend_from_slice(&dir);
    for img in images {
        v.extend_from_slice(img);
    }
    v
}

#[test]
fn accepts_a_real_icon() {
    let f = ico(&[dib(16, 16)]);
    let out = validate(&f);
    assert_eq!(out.status, Status::Valid, "{}", out.detail);
    assert_eq!(out.length, f.len() as u64);
    assert_eq!(out.evidence_of("images"), Some("1"));
    assert_eq!(out.evidence_of("dib_images"), Some("1"));
}

#[test]
fn accepts_a_multi_image_icon_with_an_embedded_png() {
    let mut png = rc_carve::validate::png::SIGNATURE.to_vec();
    png.resize(64, 0);
    let f = ico(&[dib(16, 16), png]);
    let out = validate(&f);
    assert_eq!(out.status, Status::Valid, "{}", out.detail);
    assert_eq!(out.evidence_of("png_images"), Some("1"));
    assert_eq!(out.evidence_of("dib_images"), Some("1"));
}

/// The reason this validator exists: `00 00 01 00` inside a field of zeros
/// was 93% of the candidates on the quick-formatted fixture.
#[test]
fn rejects_the_signature_followed_by_zeros() {
    let mut v = vec![0x00, 0x00, 0x01, 0x00];
    v.resize(4096, 0);
    let out = validate(&v);
    assert_eq!(out.status, Status::Rejected, "{}", out.detail);
    assert!(out.detail.contains("zero images"), "{}", out.detail);
}

#[test]
fn rejects_chance_matches_in_pseudorandom_data() {
    let mut state = 0x1234_5678u32;
    let mut rejected = 0;
    let trials = 2000;
    for _ in 0..trials {
        let mut v = vec![0x00, 0x00, 0x01, 0x00];
        for _ in 0..512 {
            state ^= state << 13;
            state ^= state >> 17;
            state ^= state << 5;
            v.push(state as u8);
        }
        if validate(&v).status == Status::Rejected {
            rejected += 1;
        }
    }
    assert_eq!(rejected, trials, "every random match must be rejected");
}

#[test]
fn ico_trailing_bytes_do_not_extend_the_length() {
    let mut f = ico(&[dib(16, 16)]);
    let real = f.len();
    f.extend_from_slice(&[0xAA; 2048]);
    assert_eq!(validate(&f).length, real as u64);
}

#[test]
fn a_truncated_icon_reports_the_directory_it_could_read() {
    let f = ico(&[dib(32, 32)]);
    let out = validate(&f[..HEADER + ENTRY + 8]);
    assert_eq!(out.status, Status::Partial, "{}", out.detail);
    assert_eq!(out.length, (HEADER + ENTRY) as u64);
}

#[test]
fn rejects_an_image_pointing_into_its_own_directory() {
    let mut f = ico(&[dib(16, 16)]);
    f[HEADER + 12..HEADER + 16].copy_from_slice(&4u32.to_le_bytes());
    assert_eq!(validate(&f).status, Status::Rejected);
}

#[test]
fn rejects_a_payload_that_is_not_an_image() {
    let mut junk = vec![0xEEu8; 64];
    junk[0..4].copy_from_slice(&12u32.to_le_bytes());
    let f = ico(&[junk]);
    assert_eq!(validate(&f).status, Status::Rejected);
}
