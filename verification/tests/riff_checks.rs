use rc_carve::validate::riff::{validate_aiff, validate_avi, validate_wav, validate_webp};
use rc_carve::Status;

fn chunk(id: &[u8; 4], data: &[u8]) -> Vec<u8> {
    let mut v = id.to_vec();
    v.extend_from_slice(&(data.len() as u32).to_le_bytes());
    v.extend_from_slice(data);
    if data.len() % 2 == 1 {
        v.push(0); // pad byte, not counted in the size field
    }
    v
}

fn riff(form: &[u8; 4], body: Vec<u8>) -> Vec<u8> {
    let mut v = b"RIFF".to_vec();
    v.extend_from_slice(&((body.len() + 4) as u32).to_le_bytes());
    v.extend_from_slice(form);
    v.extend_from_slice(&body);
    v
}

fn wav() -> Vec<u8> {
    let mut body = chunk(
        b"fmt ",
        &[1, 0, 2, 0, 0x44, 0xAC, 0, 0, 0x10, 0xB1, 2, 0, 4, 0, 16, 0],
    );
    body.extend(chunk(b"data", &[0x00; 128]));
    riff(b"WAVE", body)
}

fn avi() -> Vec<u8> {
    let mut hdrl = b"hdrl".to_vec();
    hdrl.extend(chunk(b"avih", &[0x11; 56]));
    let mut movi = b"movi".to_vec();
    movi.extend(chunk(b"00dc", &[0x22; 64]));
    let mut body = chunk(b"LIST", &hdrl);
    body.extend(chunk(b"LIST", &movi));
    riff(b"AVI ", body)
}

fn aiff() -> Vec<u8> {
    fn bchunk(id: &[u8; 4], data: &[u8]) -> Vec<u8> {
        let mut v = id.to_vec();
        v.extend_from_slice(&(data.len() as u32).to_be_bytes());
        v.extend_from_slice(data);
        if data.len() % 2 == 1 {
            v.push(0);
        }
        v
    }
    let rate = [0x40u8, 0x0e, 0xac, 0x44, 0, 0, 0, 0, 0, 0];
    let frames = vec![0x33u8; 2048];
    let mut comm = (1u16).to_be_bytes().to_vec();
    comm.extend_from_slice(&((frames.len() / 2) as u32).to_be_bytes());
    comm.extend_from_slice(&16u16.to_be_bytes());
    comm.extend_from_slice(&rate);
    let mut ssnd = 0u32.to_be_bytes().to_vec();
    ssnd.extend_from_slice(&0u32.to_be_bytes());
    ssnd.extend_from_slice(&frames);

    let mut body = b"AIFF".to_vec();
    body.extend(bchunk(b"COMM", &comm));
    body.extend(bchunk(b"SSND", &ssnd));
    let mut v = b"FORM".to_vec();
    v.extend_from_slice(&(body.len() as u32).to_be_bytes());
    v.extend_from_slice(&body);
    v
}

#[test]
fn accepts_a_well_formed_aiff() {
    let a = aiff();
    let out = validate_aiff(&a);
    assert_eq!(out.status, Status::Valid, "{}", out.detail);
    assert_eq!(out.length, a.len() as u64);
    assert_eq!(out.refined_ext, Some("aiff"));
}

/// The byte order is the whole difference from RIFF, so a WAV must not
/// validate as an AIFF and vice versa.
#[test]
fn aiff_and_wav_do_not_accept_each_other() {
    assert_ne!(validate_aiff(&wav()).status, Status::Valid);
    assert_ne!(validate_wav(&aiff()).status, Status::Valid);
}

#[test]
fn aiff_trailing_bytes_do_not_extend_the_length() {
    let mut a = aiff();
    let real = a.len();
    a.extend_from_slice(&[0xEE; 4096]);
    assert_eq!(validate_aiff(&a).length, real as u64);
}

#[test]
fn accepts_a_well_formed_wav() {
    let w = wav();
    let out = validate_wav(&w);
    assert_eq!(out.status, Status::Valid, "{}", out.detail);
    assert_eq!(out.length, w.len() as u64);
    assert_eq!(out.refined_ext, Some("wav"));
}

#[test]
fn accepts_a_well_formed_avi_by_its_list_types() {
    let a = avi();
    let out = validate_avi(&a);
    assert_eq!(out.status, Status::Valid, "{}", out.detail);
    assert_eq!(out.length, a.len() as u64);
}

#[test]
fn accepts_a_webp_with_any_bitstream_chunk() {
    for id in [b"VP8 ", b"VP8L", b"VP8X"] {
        let w = riff(b"WEBP", chunk(id, &[0x33; 32]));
        let out = validate_webp(&w);
        assert_eq!(
            out.status,
            Status::Valid,
            "{:?}: {}",
            String::from_utf8_lossy(id),
            out.detail
        );
    }
}

/// The off-by-one that makes a naive parser drift for the rest of the
/// file: an odd-length chunk is padded, but the pad is not in the size.
#[test]
fn an_odd_length_chunk_is_padded_without_the_pad_being_counted() {
    let mut body = chunk(b"fmt ", &[0x01; 15]); // odd
    body.extend(chunk(b"data", &[0x02; 33])); // odd
    let w = riff(b"WAVE", body);
    let out = validate_wav(&w);
    assert_eq!(out.status, Status::Valid, "{}", out.detail);
    assert_eq!(out.length, w.len() as u64);
    assert_eq!(out.evidence_of("chunks"), Some("2"));
}

#[test]
fn riff_trailing_disk_content_does_not_extend_the_length() {
    let mut w = wav();
    let real = w.len();
    w.extend_from_slice(&[0xEE; 4096]);
    assert_eq!(validate_wav(&w).length, real as u64);
}

/// The same four header bytes, three different formats. Asking the wrong
/// validator must not produce a hit.
#[test]
fn the_three_forms_do_not_accept_each_other() {
    assert_eq!(validate_avi(&wav()).status, Status::Rejected);
    assert_eq!(validate_webp(&wav()).status, Status::Rejected);
    assert_eq!(validate_wav(&avi()).status, Status::Rejected);
}

#[test]
fn a_wav_without_a_data_chunk_is_partial() {
    let w = riff(b"WAVE", chunk(b"fmt ", &[0x01; 16]));
    let out = validate_wav(&w);
    assert_eq!(out.status, Status::Partial, "{}", out.detail);
    assert!(out.detail.contains("data"), "{}", out.detail);
}

#[test]
fn a_truncated_wav_is_partial() {
    let w = wav();
    let out = validate_wav(&w[..w.len() - 40]);
    assert_eq!(out.status, Status::Partial, "{}", out.detail);
    // The length is what the chunk walk justified, not the buffer size.
    assert!(out.length <= (w.len() - 40) as u64);
}

#[test]
fn rejects_a_chance_riff_in_noise() {
    let mut v = b"RIFF".to_vec();
    v.extend((0u8..120).map(|n| n.wrapping_mul(29).wrapping_add(7)));
    assert_eq!(validate_wav(&v).status, Status::Rejected);
}

#[test]
fn a_size_field_claiming_more_than_exists_does_not_overrun() {
    let mut w = wav();
    w[4..8].copy_from_slice(&0xFFFF_FFF0u32.to_le_bytes());
    let out = validate_wav(&w);
    assert!(out.length <= w.len() as u64);
    assert_ne!(out.status, Status::Valid);
}

#[test]
fn a_foreign_form_is_named_in_the_refusal() {
    let mut v = b"RIFF".to_vec();
    v.extend_from_slice(&100u32.to_le_bytes());
    v.extend_from_slice(b"A\xFF\"\n");
    v.extend_from_slice(&[0; 92]);
    let out = validate_wav(&v);
    assert_eq!(out.status, Status::Rejected);
    assert_eq!(
        out.detail,
        "form type is \"A\u{FFFD}\\\"\\n\", not \"WAVE\""
    );
    v[..4].copy_from_slice(b"FORM");
    assert_eq!(
        validate_aiff(&v).detail,
        "form type is \"A\u{FFFD}\\\"\\n\", not AIFF or AIFC"
    );
}

/// A file cut before its last chunk is missing it for want of data; a chunk
/// that is none is missing for what stands there.
#[test]
fn a_missing_chunk_ran_out_only_where_the_data_did() {
    let w = wav();
    let cut = validate_wav(&w[..36]);
    assert_ne!(cut.status, Status::Valid);
    assert!(cut.ran_out, "{}", cut.detail);

    let mut wrong = w;
    wrong[36..40].copy_from_slice(&[0, 1, 2, 3]);
    let out = validate_wav(&wrong);
    assert_ne!(out.status, Status::Valid);
    assert!(!out.ran_out, "{}", out.detail);
    wrong.extend([0x33; 200]);
    let after = validate_wav(&wrong);
    assert_ne!(after.status, Status::Valid);
    assert!(!after.ran_out, "{}", after.detail);
}

#[test]
fn a_wrong_aiff_stays_wrong() {
    let mut a = aiff();
    a[12..16].copy_from_slice(&[0, 1, 2, 3]);
    for more in [0usize, 500] {
        a.extend(vec![0x44; more]);
        let out = validate_aiff(&a);
        assert_ne!(out.status, Status::Valid);
        assert!(!out.ran_out, "{}", out.detail);
    }
}
