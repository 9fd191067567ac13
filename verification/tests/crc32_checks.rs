use rc_carve::crc32::{crc32, crc32_parts};

// The check value every CRC catalogue lists for CRC-32/ISO-HDLC.
#[test]
fn matches_the_published_check_value() {
    assert_eq!(crc32(b"123456789"), 0xCBF4_3926);
}

#[test]
fn empty_input_is_zero() {
    assert_eq!(crc32(b""), 0);
}

#[test]
fn splitting_the_input_does_not_change_the_result() {
    let whole = crc32(b"123456789");
    assert_eq!(crc32_parts(&[b"1234", b"5678", b"9"]), whole);
    assert_eq!(crc32_parts(&[b"123456789"]), whole);
}

// A real PNG IHDR chunk: type bytes followed by 13 bytes of data, with the
// CRC the encoder wrote. Taken from a 1x1 8-bit RGB image.
#[test]
fn checks_a_real_png_ihdr_chunk() {
    let ty = b"IHDR";
    let data = [
        0, 0, 0, 1, // width 1
        0, 0, 0, 1, // height 1
        8, // bit depth
        2, // colour type: truecolour
        0, 0, 0, // compression, filter, interlace
    ];
    assert_eq!(crc32_parts(&[ty, &data]), 0x907753DE);
}

#[test]
fn one_changed_byte_changes_the_checksum() {
    let s: Vec<u8> = (0..64u8).collect();
    for i in 0..s.len() {
        for b in 0..=255u8 {
            let mut t = s.clone();
            t[i] = b;
            assert_eq!(crc32(&t) == crc32(&s), b == s[i]);
        }
    }
}
