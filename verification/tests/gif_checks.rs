use rc_carve::validate::gif::validate;
use rc_carve::Status;

fn gif(version: &[u8; 3], payload_len: usize, extensions: usize) -> Vec<u8> {
    let mut v = b"GIF".to_vec();
    v.extend_from_slice(version);
    v.extend_from_slice(&64u16.to_le_bytes());
    v.extend_from_slice(&48u16.to_le_bytes());
    v.extend_from_slice(&[0xF1, 0x00, 0x00]);
    for rgb in [(0u8, 0u8, 0u8), (255, 0, 0), (0, 255, 0), (0, 0, 255)] {
        v.extend_from_slice(&[rgb.0, rgb.1, rgb.2]);
    }
    for _ in 0..extensions {
        v.extend_from_slice(&[0x21, 0xF9, 4, 0, 0, 0, 0, 0x00]);
    }
    v.push(0x2C);
    v.extend_from_slice(&0u16.to_le_bytes());
    v.extend_from_slice(&0u16.to_le_bytes());
    v.extend_from_slice(&64u16.to_le_bytes());
    v.extend_from_slice(&48u16.to_le_bytes());
    v.push(0x00);
    v.push(2); // LZW minimum code size
    let payload: Vec<u8> = (0..payload_len).map(|i| (i % 251) as u8).collect();
    for chunk in payload.chunks(255) {
        v.push(chunk.len() as u8);
        v.extend_from_slice(chunk);
    }
    v.push(0x00);
    v.push(0x3B);
    v
}

#[test]
fn accepts_a_well_formed_gif() {
    let g = gif(b"89a", 4000, 1);
    let out = validate(&g);
    assert_eq!(out.status, Status::Valid, "{}", out.detail);
    assert_eq!(out.length, g.len() as u64);
    assert_eq!(out.evidence_of("version"), Some("89a"));
    assert_eq!(out.evidence_of("images"), Some("1"));
    assert_eq!(out.evidence_of("extensions"), Some("1"));
}

#[test]
fn accepts_gif87a_too() {
    let g = gif(b"87a", 1000, 0);
    assert_eq!(validate(&g).status, Status::Valid);
}

/// The reason the walk exists: 0x3B occurs constantly inside LZW data, so a
/// carver that searched for the first one would truncate the file.
#[test]
fn a_trailer_byte_inside_the_image_data_does_not_end_the_file() {
    let g = gif(b"89a", 3000, 0);
    // The payload is 0..251 repeating, so it certainly contains 0x3B.
    let first = g.iter().position(|b| *b == 0x3B).expect("a 0x3B somewhere");
    assert!(
        first < g.len() - 1,
        "the test needs a 0x3B before the trailer to be meaningful"
    );
    let out = validate(&g);
    assert_eq!(out.status, Status::Valid, "{}", out.detail);
    assert_eq!(out.length, g.len() as u64, "stopped at an interior 0x3B");
}

#[test]
fn gif_trailing_bytes_do_not_extend_the_length() {
    let mut g = gif(b"89a", 2000, 0);
    let real = g.len();
    g.extend_from_slice(&[0xAB; 4096]);
    assert_eq!(validate(&g).length, real as u64);
}

#[test]
fn a_truncated_gif_is_partial() {
    let g = gif(b"89a", 6000, 0);
    let out = validate(&g[..g.len() - 2000]);
    assert_eq!(out.status, Status::Partial, "{}", out.detail);
}

#[test]
fn rejects_a_header_with_no_image_block() {
    let mut v = b"GIF89a".to_vec();
    v.extend_from_slice(&64u16.to_le_bytes());
    v.extend_from_slice(&48u16.to_le_bytes());
    v.extend_from_slice(&[0x00, 0x00, 0x00]);
    v.push(0x3B);
    assert_eq!(validate(&v).status, Status::Rejected);
}

#[test]
fn rejects_a_zero_dimension() {
    let mut g = gif(b"89a", 100, 0);
    g[6..8].copy_from_slice(&0u16.to_le_bytes());
    assert_eq!(validate(&g).status, Status::Rejected);
}

/// A local colour table past the data leaves what stands before its block.
#[test]
fn a_cut_colour_table_is_no_part_of_the_length() {
    let mut g = gif(b"89a", 100, 0);
    g.pop(); // the trailer
    let block = g.len() as u64;
    g.push(0x2C);
    g.extend([0, 0, 0, 0, 64, 0, 48, 0, 0x87]);
    g.extend([0u8; 100]);
    for more in [0usize, 200] {
        g.extend(vec![0u8; more]);
        let out = validate(&g);
        assert_eq!(out.status, Status::Partial, "{}", out.detail);
        assert!(out.ran_out);
        assert_eq!(out.length, block);
    }
}
