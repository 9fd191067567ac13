use rc_carve::validate::bmp::validate;
use rc_carve::Status;

fn bmp(width: i32, height: i32, bpp: u16) -> Vec<u8> {
    let row = ((width as u64) * bpp as u64).div_ceil(32) * 4;
    let pixels = row * height.unsigned_abs() as u64;
    let data_offset = 14u32 + 40;
    let file_size = data_offset as u64 + pixels;

    let mut v = b"BM".to_vec();
    v.extend_from_slice(&(file_size as u32).to_le_bytes());
    v.extend_from_slice(&0u32.to_le_bytes()); // reserved
    v.extend_from_slice(&data_offset.to_le_bytes());
    v.extend_from_slice(&40u32.to_le_bytes()); // BITMAPINFOHEADER
    v.extend_from_slice(&width.to_le_bytes());
    v.extend_from_slice(&height.to_le_bytes());
    v.extend_from_slice(&1u16.to_le_bytes()); // planes
    v.extend_from_slice(&bpp.to_le_bytes());
    v.extend_from_slice(&0u32.to_le_bytes()); // BI_RGB
    v.extend_from_slice(&(pixels as u32).to_le_bytes());
    v.extend_from_slice(&[0u8; 16]); // ppm, palette counts
    v.resize(file_size as usize, 0x7F);
    v
}

#[test]
fn accepts_a_well_formed_bmp_and_reports_the_declared_size() {
    let b = bmp(8, 8, 24);
    let out = validate(&b);
    assert_eq!(out.status, Status::Valid, "{}", out.detail);
    assert_eq!(out.length, b.len() as u64);
    assert_eq!(out.evidence_of("width"), Some("8"));
    assert_eq!(out.evidence_of("bits_per_pixel"), Some("24"));
}

#[test]
fn a_negative_height_is_a_legal_top_down_bitmap() {
    let out = validate(&bmp(4, -4, 32));
    assert_eq!(out.status, Status::Valid, "{}", out.detail);
    assert_eq!(out.evidence_of("top_down"), Some("true"));
    assert_eq!(out.evidence_of("height"), Some("4"));
}

#[test]
fn bmp_trailing_bytes_do_not_extend_the_length() {
    let mut b = bmp(4, 4, 24);
    let real = b.len();
    b.extend_from_slice(&[0xEE; 1024]);
    assert_eq!(validate(&b).length, real as u64);
}

/// The point of the validator: two matching bytes are not evidence.
#[test]
fn rejects_chance_bm_pairs_in_pseudorandom_data() {
    let mut rejected = 0;
    let mut total = 0;
    let mut state = 0x1234_5678u32;
    for _ in 0..2000 {
        let mut v = b"BM".to_vec();
        for _ in 0..64 {
            state = state.wrapping_mul(1_103_515_245).wrapping_add(12345);
            v.push((state >> 16) as u8);
        }
        total += 1;
        if validate(&v).status == Status::Rejected {
            rejected += 1;
        }
    }
    assert_eq!(rejected, total, "every random BM must be rejected");
}

#[test]
fn rejects_a_pixel_array_too_small_for_the_geometry() {
    let mut b = bmp(64, 64, 24);
    // Claim the same geometry in a file the size of a 4x4 image.
    let shrunk = 54u32 + 48;
    b[2..6].copy_from_slice(&shrunk.to_le_bytes());
    b.truncate(shrunk as usize);
    assert_eq!(validate(&b).status, Status::Rejected);
}

#[test]
fn a_bmp_cut_short_keeps_the_size_its_header_declares() {
    let b = bmp(32, 32, 24);
    let out = validate(&b[..b.len() / 2]);
    assert_eq!(out.status, Status::Partial, "{}", out.detail);
    // Unlike the other formats, a truncated BMP still knows how big it was.
    assert_eq!(out.length, b.len() as u64);
    assert!(out.length_established, "the header size is trustworthy");
}

#[test]
fn rejects_undefined_bit_depths_and_plane_counts() {
    let mut b = bmp(8, 8, 24);
    b[28..30].copy_from_slice(&7u16.to_le_bytes());
    assert_eq!(validate(&b).status, Status::Rejected);

    let mut b = bmp(8, 8, 24);
    b[26..28].copy_from_slice(&3u16.to_le_bytes());
    assert_eq!(validate(&b).status, Status::Rejected);
}

/// A header cut before its planes is cut short, not contradicted.
#[test]
fn a_bmp_header_cut_short_ran_out() {
    let b = bmp(8, 8, 24);
    let cut = validate(&b[..26]);
    assert_eq!(cut.status, Status::Rejected, "{}", cut.detail);
    assert!(cut.ran_out);
    let mut wrong = b;
    wrong[26] = 7;
    let out = validate(&wrong);
    assert_eq!(out.status, Status::Rejected, "{}", out.detail);
    assert!(!out.ran_out);
    wrong.extend([0x11; 64]);
    assert!(!validate(&wrong).ran_out);
}
