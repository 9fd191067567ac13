use rc_carve::validate::mp4::validate;
use rc_carve::Status;

fn boxed(ty: &[u8; 4], payload: &[u8]) -> Vec<u8> {
    let mut v = ((payload.len() + 8) as u32).to_be_bytes().to_vec();
    v.extend_from_slice(ty);
    v.extend_from_slice(payload);
    v
}

fn ftyp() -> Vec<u8> {
    boxed(b"ftyp", b"isom\x00\x00\x02\x00isomiso2avc1mp41")
}

fn mp4() -> Vec<u8> {
    let mut v = ftyp();
    v.extend(boxed(b"moov", &[0x11; 64]));
    v.extend(boxed(b"mdat", &[0x22; 256]));
    v
}

/// A minimal but correctly structured H.264 MP4: ftyp, mdat, moov, with an
/// avc1 sample entry carrying avcC and samples that tile as 4-byte
/// length-prefixed NAL units. mdat precedes moov so the chunk offsets are
/// known before the index is written.
fn avc_mp4(samples: usize, nals_per_sample: usize, nal_len: usize) -> (Vec<u8>, Vec<u64>) {
    fn b(ty: &[u8; 4], body: &[u8]) -> Vec<u8> {
        let mut v = ((body.len() + 8) as u32).to_be_bytes().to_vec();
        v.extend_from_slice(ty);
        v.extend_from_slice(body);
        v
    }
    fn full(ty: &[u8; 4], body: &[u8]) -> Vec<u8> {
        let mut v = vec![0u8; 4];
        v.extend_from_slice(body);
        b(ty, &v)
    }

    let ftyp = b(b"ftyp", b"isom\x00\x00\x02\x00isomavc1");
    let mdat_data_at = (ftyp.len() + 8) as u64;

    let mut data = Vec::new();
    let mut offsets = Vec::new();
    let mut sizes = Vec::new();
    for s in 0..samples {
        offsets.push(mdat_data_at + data.len() as u64);
        let start = data.len();
        for n in 0..nals_per_sample {
            data.extend_from_slice(&(nal_len as u32).to_be_bytes());
            data.push(0x65); // nal_ref_idc 3, type 5: forbidden bit clear
            data.extend((1..nal_len).map(|i| ((i * 13 + s + n) % 251) as u8));
        }
        sizes.push((data.len() - start) as u32);
    }
    let mdat = b(b"mdat", &data);

    let mut avcc = vec![1u8, 0x42, 0x00, 0x1E, 0xFF, 0xE0, 0x00];
    avcc.truncate(7);
    let mut entry = vec![0u8; 6];
    entry.extend_from_slice(&1u16.to_be_bytes()); // data_reference_index
    entry.extend_from_slice(&[0u8; 70]); // visual sample entry fields
    entry.extend(b(b"avcC", &avcc));
    let mut stsd_body = 1u32.to_be_bytes().to_vec();
    stsd_body.extend(b(b"avc1", &entry));
    let stsd = full(b"stsd", &stsd_body);

    let mut stsz_body = 0u32.to_be_bytes().to_vec();
    stsz_body.extend_from_slice(&(samples as u32).to_be_bytes());
    for sz in &sizes {
        stsz_body.extend_from_slice(&sz.to_be_bytes());
    }
    let stsz = full(b"stsz", &stsz_body);

    let mut stsc_body = 1u32.to_be_bytes().to_vec();
    stsc_body.extend_from_slice(&1u32.to_be_bytes());
    stsc_body.extend_from_slice(&1u32.to_be_bytes());
    stsc_body.extend_from_slice(&1u32.to_be_bytes());
    let stsc = full(b"stsc", &stsc_body);

    let mut stco_body = (samples as u32).to_be_bytes().to_vec();
    for o in &offsets {
        stco_body.extend_from_slice(&(*o as u32).to_be_bytes());
    }
    let stco = full(b"stco", &stco_body);

    let mut stbl = stsd;
    stbl.extend(stsz);
    stbl.extend(stsc);
    stbl.extend(stco);
    let moov = b(
        b"moov",
        &b(b"trak", &b(b"mdia", &b(b"minf", &b(b"stbl", &stbl)))),
    );

    let mut v = ftyp;
    v.extend(mdat);
    v.extend(moov);
    (v, offsets)
}

/// Real H.264 media divides into NAL units, and the validator checks it.
#[test]
fn well_formed_h264_samples_are_checked_and_accepted() {
    let (m, _) = avc_mp4(12, 3, 200);
    let out = validate(&m);
    assert_eq!(out.status, Status::Valid, "{}", out.detail);
    assert_eq!(out.length, m.len() as u64);
    assert_eq!(out.evidence_of("avc_samples_checked"), Some("12"));
}

/// The case the fragmented fixture exposed. The box headers all sit in the
/// first fragment and add up to the right length, so without looking at
/// the samples the file validated as complete. A sample that does not
/// divide into NAL units is where the media stops being this file.
#[test]
fn a_sample_that_does_not_tile_is_reported_as_a_splice() {
    let (mut m, offsets) = avc_mp4(12, 3, 200);
    // Overwrite sample 7 with bytes from somewhere else entirely.
    let at = offsets[7] as usize;
    for (i, byte) in m[at..at + 600].iter_mut().enumerate() {
        *byte = (i as u8).wrapping_mul(97).wrapping_add(0xA3);
    }
    let out = validate(&m);
    assert_eq!(out.status, Status::Partial, "{}", out.detail);
    assert!(!out.length_established, "a splice point is a floor, not an end");
    assert_eq!(out.evidence_of("bad_sample"), Some("7"));
    assert_eq!(out.length, offsets[7], "should stop where the bad sample begins");
}

/// A NAL header with its forbidden bit set is not H.264, whatever the
/// length fields say.
#[test]
fn a_set_forbidden_bit_fails_the_sample() {
    let (mut m, offsets) = avc_mp4(4, 2, 100);
    m[offsets[2] as usize + 4] |= 0x80;
    let out = validate(&m);
    assert_eq!(out.status, Status::Partial, "{}", out.detail);
    assert_eq!(out.evidence_of("bad_sample"), Some("2"));
}

/// No avcC, no check - there is no length-field width to parse with. This
/// is what keeps the corpus generator's avc1-without-avcC files, and every
/// non-H.264 track, exactly as they were.
#[test]
fn without_avcc_the_samples_are_not_checked() {
    let m = mp4();
    let out = validate(&m);
    assert_eq!(out.status, Status::Valid, "{}", out.detail);
    assert_eq!(out.evidence_of("avc_samples_checked"), None);
}

#[test]
fn accepts_a_well_formed_mp4() {
    let m = mp4();
    let out = validate(&m);
    assert_eq!(out.status, Status::Valid, "{}", out.detail);
    assert_eq!(out.length, m.len() as u64);
    assert_eq!(out.evidence_of("major_brand"), Some("isom"));
    assert_eq!(out.evidence_of("has_moov"), Some("true"));
    assert_eq!(out.evidence_of("has_mdat"), Some("true"));
}

#[test]
fn mp4_trailing_disk_content_does_not_extend_the_length() {
    let mut m = mp4();
    let real = m.len();
    m.extend_from_slice(&[0x00; 4096]);
    assert_eq!(validate(&m).length, real as u64);
}

/// The bound that turns a chance `ftyp` into a rejection.
#[test]
fn rejects_an_ftyp_claiming_an_absurd_size() {
    let mut v = 0x4000_0000u32.to_be_bytes().to_vec();
    v.extend_from_slice(b"ftypisom");
    v.extend_from_slice(&[0u8; 32]);
    let out = validate(&v);
    assert_eq!(out.status, Status::Rejected, "{}", out.detail);
    assert!(out.detail.contains("tens of bytes"), "{}", out.detail);
}

#[test]
fn handles_a_64_bit_box_size() {
    let mut v = ftyp();
    v.extend(boxed(b"moov", &[0x11; 32]));
    // mdat with size==1 and a 64-bit largesize.
    let payload = [0x33u8; 128];
    let total = 16 + payload.len() as u64;
    v.extend_from_slice(&1u32.to_be_bytes());
    v.extend_from_slice(b"mdat");
    v.extend_from_slice(&total.to_be_bytes());
    v.extend_from_slice(&payload);
    let out = validate(&v);
    assert_eq!(out.status, Status::Valid, "{}", out.detail);
    assert_eq!(out.length, v.len() as u64);
}

/// `size == 0` means "to the end of the file", which is legal for the last
/// box and is how some muxers write a streaming mdat.
#[test]
fn a_zero_size_final_box_runs_to_the_end() {
    let mut v = ftyp();
    v.extend(boxed(b"moov", &[0x11; 32]));
    v.extend_from_slice(&0u32.to_be_bytes());
    v.extend_from_slice(b"mdat");
    v.extend_from_slice(&[0x44; 100]);
    let out = validate(&v);
    assert_eq!(out.status, Status::Valid, "{}", out.detail);
    assert_eq!(out.length, v.len() as u64);
}

/// A size field smaller than the box header would make a naive walk loop
/// forever rather than fail.
#[test]
fn a_box_size_below_its_own_header_terminates_the_walk() {
    let mut v = ftyp();
    v.extend(boxed(b"moov", &[0x11; 16]));
    v.extend_from_slice(&4u32.to_be_bytes());
    v.extend_from_slice(b"mdat");
    v.extend_from_slice(&[0x55; 64]);
    let out = validate(&v);
    // Must terminate and must not claim the bytes after the bad box.
    assert!(out.length < v.len() as u64);
    assert_ne!(out.status, Status::Valid);
}

#[test]
fn media_without_an_index_is_partial_and_says_so() {
    let mut v = ftyp();
    v.extend(boxed(b"mdat", &[0x22; 128]));
    let out = validate(&v);
    assert_eq!(out.status, Status::Partial, "{}", out.detail);
    assert!(out.detail.contains("moov"), "{}", out.detail);
}

#[test]
fn a_truncated_mp4_is_partial() {
    let m = mp4();
    let out = validate(&m[..m.len() - 100]);
    assert_eq!(out.status, Status::Partial, "{}", out.detail);
    assert!(out.length > 0);
}

#[test]
fn rejects_ftyp_alone() {
    assert_eq!(validate(&ftyp()).status, Status::Rejected);
}

/// At the end of the data the missing box may still come; after something that
/// is no box it cannot.
#[test]
fn a_missing_box_ran_out_only_where_the_data_did() {
    let cut = validate(&ftyp());
    assert_eq!(cut.status, Status::Rejected, "{}", cut.detail);
    assert!(cut.ran_out);

    let mut v = ftyp();
    v.extend(boxed(b"mdat", &[0x22; 128]));
    assert!(validate(&v).ran_out);
    v.extend([0u8; 32]);
    for more in [0usize, 900] {
        v.extend(vec![0x66; more]);
        let out = validate(&v);
        assert_eq!(out.status, Status::Partial, "{}", out.detail);
        assert!(!out.ran_out);
        assert_eq!(out.length, 32 + 136);
    }
}

#[test]
fn a_spliced_sample_stays_spliced() {
    let (mut m, at) = avc_mp4(4, 2, 100);
    m[at[2] as usize] = 0xEE;
    for more in [0usize, 700] {
        m.extend(vec![0; more]);
        let out = validate(&m);
        assert_eq!(out.status, Status::Partial, "{}", out.detail);
        assert!(!out.ran_out);
        assert_eq!(out.length, at[2]);
        assert_eq!(out.evidence_of("bad_sample"), Some("2"));
    }
}

/// A chunk offset past anything addressable leaves the last sample that divided.
#[test]
fn a_wild_chunk_offset_leaves_the_last_good_sample() {
    let (m, at) = avc_mp4(3, 1, 50);
    // One chunk to a sample; widen the offsets to 64 bits and send the last off.
    let moov_at = m.windows(4).position(|w| w == b"stco").expect("stco") - 4;
    let size = u32::from_be_bytes([m[moov_at], m[moov_at + 1], m[moov_at + 2], m[moov_at + 3]]);
    let old_end = moov_at + size as usize;
    let n = u32::from_be_bytes([m[moov_at + 12], m[moov_at + 13], m[moov_at + 14], m[moov_at + 15]]);
    let mut wide = Vec::new();
    wide.extend_from_slice(&(16 + 8 * n).to_be_bytes());
    wide.extend_from_slice(b"co64");
    wide.extend_from_slice(&[0; 4]);
    wide.extend_from_slice(&n.to_be_bytes());
    for k in 0..n as usize {
        let off = if k + 1 == n as usize { u64::MAX - 4 } else { at[k] };
        wide.extend_from_slice(&off.to_be_bytes());
    }
    let grown = 4 * n;
    let mut v = m[..moov_at].to_vec();
    v.extend(wide);
    v.extend_from_slice(&m[old_end..]);
    for ty in [b"moov", b"trak", b"mdia", b"minf", b"stbl"] {
        let p = v.windows(4).position(|w| w == &ty[..]).expect("box") - 4;
        let s = u32::from_be_bytes([v[p], v[p + 1], v[p + 2], v[p + 3]]) + grown;
        v[p..p + 4].copy_from_slice(&s.to_be_bytes());
    }
    let out = validate(&v);
    assert_eq!(out.status, Status::Partial, "{}", out.detail);
    assert!(!out.ran_out);
    let good = if n > 1 { at[n as usize - 2] + 54 } else { 24 };
    assert_eq!(out.length, good);
}
