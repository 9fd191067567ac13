use rc_carve::crc32::crc32_parts;
use rc_carve::scan::hits::{match_block, plan_block};
use rc_carve::scan::{
    judge, plan_read, prepare, scan, scan_segment, settle, Candidate, Carry, Judgement,
    ScanOptions, ScanResult,
};
use rc_carve::{SignatureDb, Status};

fn db() -> SignatureDb {
    SignatureDb::builtin().expect("builtin db")
}

/// Build an image with known content at known offsets.
fn image(parts: &[(u64, Vec<u8>)], total: usize) -> Vec<u8> {
    let mut data = vec![0u8; total];
    for (at, bytes) in parts {
        let at = *at as usize;
        data[at..at + bytes.len()].copy_from_slice(bytes);
    }
    data
}

fn png(w: u32, h: u32) -> Vec<u8> {
    let chunk = |ty: &[u8; 4], d: &[u8]| {
        let mut v = (d.len() as u32).to_be_bytes().to_vec();
        v.extend_from_slice(ty);
        v.extend_from_slice(d);
        v.extend_from_slice(&crc32_parts(&[ty, d]).to_be_bytes());
        v
    };
    let mut ihdr = w.to_be_bytes().to_vec();
    ihdr.extend_from_slice(&h.to_be_bytes());
    ihdr.extend_from_slice(&[8, 2, 0, 0, 0]);
    let mut v = vec![0x89, b'P', b'N', b'G', 0x0D, 0x0A, 0x1A, 0x0A];
    v.extend(chunk(b"IHDR", &ihdr));
    v.extend(chunk(
        b"IDAT",
        &[0x78, 0x9C, 0x63, 0x00, 0x00, 0x00, 0x01, 0x00, 0x01],
    ));
    v.extend(chunk(b"IEND", &[]));
    v
}

fn run(device: &[u8], opts: ScanOptions) -> ScanResult {
    scan(device, &db(), 0, device.len() as u64, &opts).expect("scan")
}

#[test]
fn finds_a_file_at_a_known_offset_with_its_real_length() {
    let p = png(8, 8);
    let want_len = p.len() as u64;
    let img = image(&[(100_000, p)], 1 << 20);
    let r = run(&img, ScanOptions::default());

    let found: Vec<_> = r
        .candidates
        .iter()
        .filter(|c| c.signature_id == "png")
        .collect();
    assert_eq!(found.len(), 1, "expected one png, got {found:?}");
    assert_eq!(found[0].offset, 100_000);
    assert_eq!(found[0].length, want_len);
    assert_eq!(found[0].status, Status::Valid);
}

/// A header landing exactly on a block boundary is the classic scanner
/// bug: found twice, or not at all.
#[test]
fn a_file_straddling_a_block_boundary_is_found_exactly_once() {
    let block = 64 * 1024;
    let p = png(4, 4);
    let want_len = p.len() as u64;
    // Put the signature two bytes before the boundary, so the 8-byte PNG
    // magic spans it.
    let at = block as u64 - 2;
    let img = image(&[(at, p)], 1 << 20);

    let opts = ScanOptions {
        block_bytes: block,
        threads: Some(4),
        ..Default::default()
    };
    let r = run(&img, opts);
    let found: Vec<_> = r
        .candidates
        .iter()
        .filter(|c| c.signature_id == "png")
        .collect();
    assert_eq!(found.len(), 1, "expected exactly one png, got {found:?}");
    assert_eq!(found[0].offset, at);
    assert_eq!(found[0].length, want_len);
}

#[test]
fn every_block_size_finds_the_same_files() {
    let mut parts = Vec::new();
    for i in 0..8u64 {
        parts.push((10_000 + i * 37_000, png(4 + i as u32, 4)));
    }
    let img = image(&parts, 1 << 20);

    let mut baseline: Option<Vec<(u64, u64)>> = None;
    for block in [8 * 1024usize, 64 * 1024, 256 * 1024, 1 << 20] {
        let r = run(
            &img,
            ScanOptions {
                block_bytes: block,
                threads: Some(3),
                ..Default::default()
            },
        );
        let mut got: Vec<(u64, u64)> = r
            .candidates
            .iter()
            .filter(|c| c.signature_id == "png")
            .map(|c| (c.offset, c.length))
            .collect();
        got.sort_unstable();
        match &baseline {
            None => baseline = Some(got),
            Some(b) => assert_eq!(&got, b, "block size {block} disagreed"),
        }
    }
    assert_eq!(baseline.as_ref().map(|b| b.len()), Some(8));
}

#[test]
fn stats_report_the_scanner_denominator_separately() {
    let img = image(&[(1000, png(8, 8))], 512 * 1024);
    let r = run(&img, ScanOptions::default());
    let s = &r.stats;
    assert!(s.prefilter_hits >= s.header_matches);
    assert_eq!(
        s.header_matches,
        s.validated + s.rejected + not_validated(&r)
    );
    assert!(s.bytes_scanned >= 512 * 1024);
    assert!(
        s.cache_warning().is_some(),
        "a 512 KiB image is cache-resident"
    );
}

fn not_validated(r: &ScanResult) -> u64 {
    r.candidates
        .iter()
        .filter(|c| c.detail.contains("no validator"))
        .count() as u64
        + r.stats.suppressed_contained
}

/// Restricting the scan should narrow the prefilter, which is where the
/// speed of a targeted carve comes from.
#[test]
fn restricting_to_one_format_takes_the_simd_path() {
    let img = image(&[(2048, png(8, 8))], 256 * 1024);
    let r = run(
        &img,
        ScanOptions {
            only: Some(vec!["png".into()]),
            ..Default::default()
        },
    );
    assert_eq!(r.stats.strategy, "memchr");
    assert_eq!(r.stats.signatures, 1);
    assert_eq!(r.candidates.len(), 1);
}

/// Two signatures describing the same bytes: the more specific one is the
/// one reported.
#[test]
fn the_more_specific_signature_wins_at_the_same_offset() {
    // An MP4 whose brand is M4A matches `ftyp` (4 bytes at offset 4) and
    // `ftypM4A ` (8 bytes at offset 4).
    let mut f = 24u32.to_be_bytes().to_vec();
    f.extend_from_slice(b"ftypM4A ");
    f.extend_from_slice(&512u32.to_be_bytes());
    f.extend_from_slice(b"M4A isom");
    let mut v = f.clone();
    v.extend_from_slice(&40u32.to_be_bytes());
    v.extend_from_slice(b"moov");
    v.extend_from_slice(&[0x11; 32]);
    v.extend_from_slice(&200u32.to_be_bytes());
    v.extend_from_slice(b"mdat");
    v.extend_from_slice(&[0x22; 192]);

    let img = image(&[(8192, v.clone())], 64 * 1024);
    let r = run(&img, ScanOptions::default());

    let at: Vec<&Candidate> = r.candidates.iter().filter(|c| c.offset == 8192).collect();
    assert_eq!(
        at.len(),
        1,
        "expected one candidate for one file, got {:?}",
        at.iter().map(|c| &c.signature_id).collect::<Vec<_>>()
    );
    assert_eq!(
        at[0].signature_id, "m4a",
        "the eight-byte ftypM4A match should beat the four-byte ftyp one"
    );
    assert_eq!(at[0].length, v.len() as u64);
}

/// Scan block by block, as a program does that reads a device: a block that
/// cannot be read is skipped.
#[test]
fn a_read_error_skips_the_block_rather_than_ending_the_scan() {
    // A device that fails one region but not the rest: the scan should
    // still find what lies beyond it.
    let p = png(8, 8);
    let img = image(&[(300_000, p)], 512 * 1024);
    let bad = 0u64..65_536u64;
    let read = |at: u64, n: usize| -> Option<&[u8]> {
        if at < bad.end && bad.start < at + n as u64 {
            return None;
        }
        let end = (at as usize + n).min(img.len());
        Some(&img[at as usize..end])
    };

    let opts = ScanOptions {
        block_bytes: 64 * 1024,
        ..Default::default()
    };
    let db = db();
    let end = 512 * 1024u64;
    let index = prepare(&db, &opts.only).expect("index");
    let overlap = index.max_header_span();
    let mut raw = Vec::new();
    let mut at = 0u64;
    while at < end {
        let plan = plan_block(at, end, end, opts.block_bytes, overlap);
        if let Some(block) = read(at, plan.want) {
            raw.extend(match_block(&index, block, at, plan.owned).hits);
        }
        at += plan.owned as u64;
    }
    let (hits, cut) = settle(raw, opts.max_candidates, 0);
    assert!(!cut);
    let mut found = Vec::new();
    for h in &hits {
        let sig = index.signature(h.sig);
        let Some(id) = &sig.validator else { continue };
        let plan = plan_read(sig, h.offset, end, opts.validation_window);
        let Some(data) = read(h.offset, plan.want) else { continue };
        if let Judgement::Kept { candidate, .. } =
            judge(sig, id, h.offset, data, plan.capped, opts.validation_window)
        {
            found.push(candidate);
        }
    }
    assert!(
        found.iter().any(|c| c.offset == 300_000),
        "the file past the bad region was not found"
    );
}

fn key(c: &Candidate) -> String {
    format!(
        "{} {} {} {} {:?} {} {} {:?}",
        c.offset,
        c.length,
        c.signature_id,
        c.ext,
        c.status,
        c.length_established,
        c.detail,
        c.evidence
    )
}

/// Headers straddling a boundary, files running on past the segment they start
/// in, and files suppressed by one that began in an earlier segment all have to
/// come out the same.
#[test]
fn segmented_scans_match_one_scan() {
    let mut parts = Vec::new();
    for i in 0..12u64 {
        parts.push((5_000 + i * 7_919, png(4 + i as u32, 4)));
    }
    // A PNG whole inside another format's file.
    let inner = png(9, 9);
    let mut outer = b"RIFF".to_vec();
    outer.extend_from_slice(&((inner.len() + inner.len() % 2 + 4 + 24 + 8) as u32).to_le_bytes());
    outer.extend_from_slice(b"WAVEfmt ");
    outer.extend_from_slice(&16u32.to_le_bytes());
    outer.extend_from_slice(&[1, 0, 2, 0, 0x44, 0xAC, 0, 0, 0x10, 0xB1, 2, 0, 4, 0, 16, 0]);
    outer.extend_from_slice(b"data");
    outer.extend_from_slice(&(inner.len() as u32).to_le_bytes());
    outer.extend_from_slice(&inner);
    if inner.len() % 2 == 1 {
        outer.push(0);
    }
    parts.push((120_001, outer));
    let img = image(&parts, 160_000);
    let end = img.len() as u64;
    let db = db();
    let opts = ScanOptions {
        block_bytes: 16 * 1024,
        ..Default::default()
    };

    let whole_scan = scan(&img, &db, 0, end, &opts).expect("scan");
    assert!(whole_scan.stats.suppressed_contained > 0);
    let whole: Vec<String> = whole_scan.candidates.iter().map(key).collect();
    assert!(whole.len() >= 13, "found only {}", whole.len());

    for seg in [7_654u64, 33_331, 120_005, 128 << 20] {
        let mut carry = Carry::default();
        let mut got = Vec::new();
        let mut at = 0;
        let mut n = 0;
        while at < end {
            let stop = (at + seg).min(end);
            let r =
                scan_segment(&img, &db, at, stop, end, &opts, &mut carry).expect("segment");
            got.extend(r.candidates.iter().map(key));
            at = stop;
            n += 1;
        }
        assert_eq!(got, whole, "{n} segments of {seg} bytes differ");
    }
}

/// The limit on candidates stops a scan and is reported.
#[test]
fn the_candidate_limit_is_reported() {
    let mut parts = Vec::new();
    for i in 0..5u64 {
        parts.push((1_000 + i * 4_000, png(4, 4)));
    }
    let img = image(&parts, 32_000);
    let r = run(
        &img,
        ScanOptions {
            only: Some(vec!["png".into()]),
            max_candidates: 3,
            ..Default::default()
        },
    );
    assert!(r.stats.truncated);
    let at: Vec<u64> = r.candidates.iter().map(|c| c.offset).collect();
    assert_eq!(at, vec![1_000, 5_000, 9_000]);
}

/// Asking for a format there is none of is an error, not an empty result.
#[test]
fn selecting_no_signature_is_an_error() {
    let opts = ScanOptions {
        only: Some(vec!["no_such_format".into()]),
        ..Default::default()
    };
    match scan(&[0u8; 4096], &db(), 0, 4096, &opts) {
        Ok(_) => panic!("nothing was selected"),
        Err(e) => assert!(
            e.message().contains("no signatures selected for the scan"),
            "{}",
            e.message()
        ),
    }
}

/// With validation off, what comes back is the raw header matches.
#[test]
fn without_validation_every_header_match_is_a_candidate() {
    let mut img = image(&[(1_000, png(4, 4))], 16_000);
    img[8_000..8_008].copy_from_slice(&[0x89, b'P', b'N', b'G', 0x0D, 0x0A, 0x1A, 0x0A]);
    let only = Some(vec!["png".to_string()]);
    let raw = run(
        &img,
        ScanOptions {
            only: only.clone(),
            validate: false,
            ..Default::default()
        },
    );
    let at: Vec<(u64, u64)> = raw.candidates.iter().map(|c| (c.offset, c.length)).collect();
    assert_eq!(at, vec![(1_000, 0), (8_000, 0)]);
    let judged = run(
        &img,
        ScanOptions {
            only,
            ..Default::default()
        },
    );
    assert_eq!(judged.candidates.len(), 1);
    assert_eq!(judged.stats.rejected, 1);
}
