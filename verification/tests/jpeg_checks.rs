use rc_carve::validate::jpeg::validate;
use rc_carve::Status;

/// A baseline frame header for a single-component image.
///
/// The declared length counts itself: 2 for the length field, then
/// precision(1) height(2) width(2) component-count(1), then three bytes
/// per component. For one component that is exactly 11.
fn sof(w: u16, h: u16) -> Vec<u8> {
    let mut v = vec![0xFF, 0xC0, 0x00, 0x0B, 0x08];
    v.extend_from_slice(&h.to_be_bytes());
    v.extend_from_slice(&w.to_be_bytes());
    v.extend_from_slice(&[0x01, 0x01, 0x11, 0x00]);
    assert_eq!(v.len(), 13, "SOF0 is the marker plus its declared 11 bytes");
    v
}

/// Scan header: length 8, one component, then the three spectral bytes.
fn sos() -> Vec<u8> {
    vec![0xFF, 0xDA, 0x00, 0x08, 0x01, 0x00, 0x00, 0x00, 0x3F, 0x00]
}

/// Smallest thing that is structurally a JPEG: SOI, a frame header, a scan
/// header, some entropy data, EOI.
fn minimal(entropy: &[u8]) -> Vec<u8> {
    let mut v = vec![0xFF, 0xD8];
    v.extend(sof(1, 1));
    v.extend(sos());
    v.extend_from_slice(entropy);
    v.extend_from_slice(&[0xFF, 0xD9]);
    v
}

/// A JPEG that declares a restart interval, with `intervals` restart
/// markers each preceded by `per` bytes of entropy data. Built field by
/// field so every segment length is right.
fn with_dri(intervals: usize, per: usize) -> Vec<u8> {
    let mut v = vec![0xFF, 0xD8];
    // DRI: length 4, interval 4 MCUs.
    v.extend_from_slice(&[0xFF, 0xDD, 0x00, 0x04, 0x00, 0x04]);
    // SOF0: length 11 = 2 + precision + height + width + ncomp + 3.
    v.extend_from_slice(&[0xFF, 0xC0, 0x00, 0x0B, 0x08]);
    v.extend_from_slice(&64u16.to_be_bytes()); // height
    v.extend_from_slice(&64u16.to_be_bytes()); // width
    v.extend_from_slice(&[0x01, 0x01, 0x11, 0x00]); // 1 component, 1x1
                                                    // SOS: length 8 = 2 + ncomp + 2 + 3.
    v.extend_from_slice(&[0xFF, 0xDA, 0x00, 0x08, 0x01, 0x01, 0x00, 0x00, 0x3F, 0x00]);
    for n in 0..intervals {
        // Entropy bytes that never contain 0xFF, so no stuffing is needed.
        v.extend((0..per).map(|i| (0x11 + (i * 7 + n) % 0xEE) as u8));
        v.extend_from_slice(&[0xFF, 0xD0 + (n % 8) as u8]);
    }
    v.extend_from_slice(&[0x22, 0x33, 0xFF, 0xD9]);
    v
}

/// The bound must not fire on a legitimate file, or it would turn every
/// photo with a restart interval into a false "spliced".
#[test]
fn a_normal_restart_interval_is_still_valid() {
    let j = with_dri(40, 64);
    let out = validate(&j);
    assert_eq!(out.status, Status::Valid, "{}", out.detail);
    assert_eq!(out.length, j.len() as u64);
    assert_eq!(out.evidence_of("restart_markers"), Some("40"));
}

/// The case the fragmented fixture exposed: a JPEG split around a 32 KiB
/// gap of constant fill came back Valid, because the fill has no 0xFF in it
/// and so never looks like a marker.
#[test]
fn a_long_gap_between_restart_markers_is_reported_as_a_splice() {
    let good = with_dri(10, 64);
    // Cut after the tenth restart marker, before the tail and EOI.
    let cut = good.len() - 4;
    let mut j = good[..cut].to_vec();
    let last_good = j.len();
    j.extend_from_slice(&vec![0xA5u8; 32 * 1024]);
    // The file continues on the far side of the gap, then ends normally.
    j.extend((0..64).map(|i| (0x11 + i * 3) as u8));
    j.extend_from_slice(&[0xFF, 0xD2, 0x44, 0xFF, 0xD9]);

    let out = validate(&j);
    assert_eq!(out.status, Status::Partial, "{}", out.detail);
    assert!(
        !out.length_established,
        "a splice point is a floor, not an end"
    );
    assert_eq!(
        out.length, last_good as u64,
        "should stop at the last restart marker before the gap"
    );
    assert_eq!(
        out.evidence_of("spliced_after"),
        Some(last_good.to_string().as_str())
    );
    assert!(out.detail.contains("spliced"), "{}", out.detail);
}

/// Without DRI there is no interval to bound, so the check must not
/// invent one. Constant fill still gets through in that case - a known gap
/// that only real Huffman decoding closes.
#[test]
fn without_a_restart_interval_there_is_no_bound() {
    let mut j = minimal(&[0x11; 64]);
    let eoi = j.len() - 2;
    j.splice(eoi..eoi, vec![0xA5u8; 32 * 1024]);
    let out = validate(&j);
    assert_eq!(
        out.status,
        Status::Valid,
        "no DRI means nothing to measure the gap against: {}",
        out.detail
    );
}

#[test]
fn accepts_a_minimal_jpeg_and_reports_its_length() {
    let j = minimal(&[0x12, 0x34]);
    let out = validate(&j);
    assert_eq!(out.status, Status::Valid, "{}", out.detail);
    assert_eq!(out.length, j.len() as u64);
    assert_eq!(out.evidence_of("width"), Some("1"));
    assert_eq!(out.evidence_of("height"), Some("1"));
}

#[test]
fn stuffed_ff_inside_entropy_data_is_not_a_marker() {
    // FF 00 is a literal FF in the scan, not the end of it.
    let j = minimal(&[0xFF, 0x00, 0x12, 0xFF, 0x00]);
    let out = validate(&j);
    assert_eq!(out.status, Status::Valid, "{}", out.detail);
    assert_eq!(out.length, j.len() as u64);
}

#[test]
fn counts_restart_markers_and_accepts_them_in_sequence() {
    let mut e = Vec::new();
    for n in 0..8u8 {
        e.extend_from_slice(&[0x11, 0x22]);
        e.extend_from_slice(&[0xFF, 0xD0 + n]);
    }
    let out = validate(&minimal(&e));
    assert_eq!(out.status, Status::Valid, "{}", out.detail);
    assert_eq!(out.evidence_of("restart_markers"), Some("8"));
}

/// The signal that matters for reassembly: restart markers that skip are
/// what a wrongly reassembled fragment looks like from the outside, and the
/// scan must stop at the last one in sequence rather than walking on.
#[test]
fn out_of_sequence_restart_markers_stop_the_scan_at_the_splice() {
    let head = minimal(&[]);
    let scan_start = head.len() - 2; // before the EOI minimal() appends
    let e = vec![0x11, 0xFF, 0xD0, 0x22, 0xFF, 0xD5, 0x33];
    let out = validate(&minimal(&e));
    assert_eq!(out.status, Status::Partial, "{}", out.detail);
    assert_eq!(out.evidence_of("restarts_out_of_order"), Some("1"));
    // The last in-sequence marker is the RST0, three bytes into the scan.
    assert_eq!(out.length, (scan_start + 3) as u64);
    assert!(!out.length_established);
}

#[test]
fn rejects_a_chance_header_in_random_looking_data() {
    let mut v = vec![0xFF, 0xD8, 0xFF];
    v.extend((0u8..250).map(|n| n.wrapping_mul(37).wrapping_add(11)));
    let out = validate(&v);
    assert_eq!(out.status, Status::Rejected, "{}", out.detail);
    assert_eq!(out.length, 0);
}

#[test]
fn rejects_soi_eoi_with_no_frame() {
    let out = validate(&[0xFF, 0xD8, 0xFF, 0xD9]);
    assert_eq!(out.status, Status::Rejected);
}

#[test]
fn rejects_a_frame_header_with_a_zero_dimension() {
    let mut v = vec![0xFF, 0xD8];
    v.extend(sof(1, 0));
    v.extend(sos());
    v.extend_from_slice(&[0x11, 0x22]);
    v.extend_from_slice(&[0xFF, 0xD9]);
    let out = validate(&v);
    assert_eq!(out.status, Status::Rejected);
    // Specifically for the dimension, not because the walk fell apart.
    assert!(out.detail.contains("zero dimension"), "{}", out.detail);
}

#[test]
fn rejects_a_frame_header_with_an_impossible_component_count() {
    let mut v = vec![0xFF, 0xD8];
    let mut f = sof(4, 4);
    f[9] = 7; // component count
    v.extend(f);
    v.extend(sos());
    v.extend_from_slice(&[0xFF, 0xD9]);
    let out = validate(&v);
    assert_eq!(out.status, Status::Rejected);
    assert!(out.detail.contains("components"), "{}", out.detail);
}

#[test]
fn a_truncated_jpeg_is_partial_not_rejected() {
    let full = minimal(&[0x11; 40]);
    let out = validate(&full[..full.len() - 10]);
    assert_eq!(out.status, Status::Partial, "{}", out.detail);
    assert!(out.length > 0);
    assert!(out.detail.contains("truncated"), "{}", out.detail);
}

/// An EXIF thumbnail is a whole JPEG inside APP1 of the outer one. Walking
/// APP1 by its declared length must step over it, so the outer file's
/// length is the outer file's, not the thumbnail's.
#[test]
fn steps_over_an_exif_thumbnail_rather_than_ending_at_its_eoi() {
    let thumb = minimal(&[0xAB, 0xCD]);
    let mut v = vec![0xFF, 0xD8];
    let app1_len = thumb.len() + 2;
    v.extend_from_slice(&[0xFF, 0xE1]);
    v.extend_from_slice(&(app1_len as u16).to_be_bytes());
    v.extend_from_slice(&thumb);
    v.extend(sof(2, 2));
    v.extend(sos());
    v.extend_from_slice(&[0x55, 0x66]);
    v.extend_from_slice(&[0xFF, 0xD9]);

    let out = validate(&v);
    assert_eq!(out.status, Status::Valid, "{}", out.detail);
    assert_eq!(out.length, v.len() as u64, "ended at the thumbnail's EOI");
    assert_eq!(out.evidence_of("width"), Some("2"));
}

#[test]
fn what_follows_a_jpeg_changes_nothing() {
    let file = minimal(&[1, 2, 3, 4]);
    let alone = validate(&file);
    assert!(alone.is_valid());
    let mut more = file.clone();
    more.extend_from_slice(&minimal(&[9; 40]));
    let followed = validate(&more);
    assert!(followed.is_valid());
    assert_eq!(followed.length, file.len() as u64);
    assert_eq!(followed.evidence, alone.evidence);
}

#[test]
fn a_restart_marker_out_of_sequence_stays_so() {
    let mut j = with_dri(4, 40);
    let at = j.windows(2).position(|w| w == [0xFF, 0xD2]).expect("marker");
    j[at + 1] = 0xD5;
    for more in [0usize, 300] {
        j.extend(vec![0x12; more]);
        let out = validate(&j);
        assert_eq!(out.status, Status::Partial, "{}", out.detail);
        assert!(!out.ran_out);
    }
}
