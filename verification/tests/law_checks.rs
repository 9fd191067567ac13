use rc_carve::cmd::list_deleted::format_time;
use rc_carve::crc32::{crc32, crc32_parts};
use rc_carve::error::CarveError;
use rc_carve::output::Table;
use rc_carve::scan::contain::suppress_contained;
use rc_carve::scan::session::{describe, gather, resume, scan_on, Checkpoint};
use rc_carve::scan::{
    is_scannable, needs, scan, scan_checked, scan_segment, worker_count, Candidate, Carry, Examined, Looked, ScanOptions,
    ScanStats,
};
use rc_carve::sorting::order;
use rc_carve::validate::png::SIGNATURE;
use rc_carve::{Category, SignatureDb, Status};

fn chunk(ty: &[u8; 4], data: &[u8]) -> Vec<u8> {
    let mut v = (data.len() as u32).to_be_bytes().to_vec();
    v.extend_from_slice(ty);
    v.extend_from_slice(data);
    v.extend_from_slice(&crc32_parts(&[ty, data]).to_be_bytes());
    v
}

fn png() -> Vec<u8> {
    let mut v = SIGNATURE.to_vec();
    v.extend(chunk(b"IHDR", &[0, 0, 0, 4, 0, 0, 0, 4, 8, 2, 0, 0, 0]));
    v.extend(chunk(b"IDAT", &[0x78, 0x9C, 0x63, 0, 0, 0, 1, 0, 1]));
    v.extend(chunk(b"IEND", &[]));
    v
}

/// Three pictures, one of them inside a chunk of another.
fn disk() -> (Vec<u8>, Vec<u64>) {
    let mut d = vec![0u8; 700];
    let mut at = Vec::new();
    at.push(d.len() as u64);
    d.extend(png());
    d.extend(vec![0u8; 333]);
    let mut outer = SIGNATURE.to_vec();
    outer.extend(chunk(b"IHDR", &[0, 0, 0, 4, 0, 0, 0, 4, 8, 2, 0, 0, 0]));
    outer.extend(chunk(b"tEXt", &png()));
    outer.extend(chunk(b"IDAT", &[0x78, 0x9C, 0x63, 0, 0, 0, 1, 0, 1]));
    outer.extend(chunk(b"IEND", &[]));
    at.push(d.len() as u64);
    d.extend(outer);
    d.extend(vec![0u8; 900]);
    (d, at)
}

fn only_png() -> ScanOptions {
    ScanOptions {
        block_bytes: 64,
        only: Some(vec!["png".to_string()]),
        ..Default::default()
    }
}

#[test]
fn every_match_is_a_candidate_or_rejected_or_contained() {
    let db = SignatureDb::builtin().expect("builtin");
    let (d, at) = disk();
    for suppress in [true, false] {
        let opts = ScanOptions {
            suppress_contained: suppress,
            ..only_png()
        };
        let r = scan(&d, &db, 0, d.len() as u64, &opts).expect("scan");
        let s = &r.stats;
        assert_eq!(s.header_matches, 3);
        assert_eq!(
            r.candidates.len() as u64 + s.rejected + s.suppressed_contained,
            s.header_matches
        );
        // What stands on the disk is found, or what contains it is.
        assert_eq!(r.candidates.len(), if suppress { 2 } else { 3 });
        for a in &at {
            assert!(r
                .candidates
                .iter()
                .any(|c| c.offset == *a && c.status == Status::Valid));
        }
    }
}

#[test]
fn a_scan_may_be_split_anywhere() {
    let db = SignatureDb::builtin().expect("builtin");
    let (d, _) = disk();
    let end = d.len() as u64;
    let opts = only_png();
    let whole = scan(&d, &db, 0, end, &opts).expect("scan");
    for mid in (0..=end).step_by(37) {
        let mut carry = Carry::default();
        let mut a = scan_segment(&d, &db, 0, mid, end, &opts, &mut carry).expect("first");
        let b = scan_segment(&d, &db, mid, end, end, &opts, &mut carry).expect("second");
        a.candidates.extend(b.candidates);
        let key = |c: &Candidate| (c.offset, c.length, c.signature_id.clone(), c.detail.clone());
        assert_eq!(
            a.candidates.iter().map(key).collect::<Vec<_>>(),
            whole.candidates.iter().map(key).collect::<Vec<_>>(),
            "split at {mid}"
        );
    }
}

/// The pieces of a scan, put together by hand as a reader of a device would,
/// give what the scan of an image in memory gives.
#[test]
fn a_scan_is_its_parts() {
    let db = SignatureDb::builtin().expect("builtin");
    let opts = only_png();
    let file = png();
    let sig = db.get("png").expect("png");
    let n = needs(sig, 0, file.len() as u64, &opts);
    assert_eq!(n, file.len());
    let raw = ScanOptions {
        validate: false,
        ..only_png()
    };
    assert_eq!(needs(sig, 0, file.len() as u64, &raw), 0);

    let mut seen = Examined::new();
    seen.examine(sig, 0, &file, file.len() as u64, &opts);
    seen.examine(sig, 5, b"no picture", file.len() as u64, &opts);
    let looked = Looked {
        bytes: 100,
        prefilter_hits: 7,
        header_matches: 2,
        taken: 2,
        truncated: false,
        strategy: "table",
        threads: 1,
        signatures: 1,
    };
    let mut carry = Carry::default();
    let r = seen.conclude(looked, &opts, &mut carry);
    assert_eq!(r.candidates.len(), 1);
    assert_eq!(r.candidates[0].length, file.len() as u64);
    assert_eq!((r.stats.validated, r.stats.rejected), (1, 1));
    assert_eq!(carry.candidates, 2);
    assert_eq!(carry.cover_end, file.len() as u64);
}

#[test]
fn workers_are_between_one_and_eight() {
    assert_eq!(worker_count(Some(0), None), 1);
    assert_eq!(worker_count(Some(3), Some(7)), 3);
    assert_eq!(worker_count(None, Some(64)), 8);
    assert_eq!(worker_count(None, None), 4);
}

fn candidate(offset: u64, length: u64, span: usize, status: Status) -> Candidate {
    Candidate {
        offset,
        length,
        signature_id: format!("{span}"),
        ext: "x".to_string(),
        category: Category::Other,
        status,
        detail: String::new(),
        evidence: vec![],
        length_established: status == Status::Valid,
        header_span: span,
    }
}

#[test]
fn only_a_complete_file_may_suppress() {
    let mut cover = 0;
    let (kept, dropped) = suppress_contained(
        vec![
            candidate(50, 10, 4, Status::Valid),
            candidate(0, 100, 4, Status::Partial),
            candidate(200, 100, 4, Status::Valid),
            candidate(200, 100, 8, Status::Valid),
            candidate(250, 50, 4, Status::Valid),
            candidate(260, 0, 4, Status::Partial),
            candidate(290, 11, 4, Status::Partial),
        ],
        &mut cover,
    );
    let at: Vec<(u64, usize)> = kept.iter().map(|c| (c.offset, c.header_span)).collect();
    assert_eq!(at, vec![(0, 4), (50, 4), (200, 8), (260, 4), (290, 4)]);
    assert_eq!(dropped, 2);
    assert_eq!(cover, 300);
    // What ends inside what was covered before is dropped too.
    let (kept, dropped) = suppress_contained(vec![candidate(100, 200, 4, Status::Valid)], &mut cover);
    assert!(kept.is_empty());
    assert_eq!(dropped, 1);
}

#[test]
fn checksums_are_absorbed_in_parts() {
    let data = b"123456789";
    assert_eq!(crc32(data), 0xCBF4_3926);
    for cut in 0..=data.len() {
        assert_eq!(crc32_parts(&[&data[..cut], &data[cut..]]), 0xCBF4_3926);
    }
}

#[test]
fn an_order_keeps_ties_as_they_were() {
    let keys: Vec<String> = ["b", "a", "b", "a"].iter().map(|s| s.to_string()).collect();
    assert_eq!(order(&vec![1, 1, 1, 1], &keys), vec![1, 3, 0, 2]);
    assert_eq!(order(&vec![9, 1, 2, 1], &keys), vec![1, 3, 2, 0]);
}

#[test]
fn columns_start_where_the_widest_cells_end() {
    let mut t = Table::new(&["a", "b"]);
    t.row(vec!["xyz".to_string(), "1".to_string()]);
    t.row(vec!["w".to_string(), "22".to_string()]);
    assert_eq!(t.lines(), vec!["a    b", "---  --", "xyz  1", "w    22"]);
}

#[test]
fn dates_before_the_epoch_and_in_leap_years() {
    let day = 86_400_000_000_000i64;
    assert_eq!(format_time(Some(-1), true), "1969-12-31 23:59");
    assert_eq!(format_time(Some(11_016 * day), true), "2000-02-29 00:00");
    assert_eq!(format_time(Some(47_540 * day), true), "2100-02-28 00:00");
    assert_eq!(format_time(Some(47_541 * day), true), "2100-03-01 00:00");
}

#[test]
fn errors_say_what_went_wrong() {
    let e = |e: CarveError| e.message();
    assert_eq!(
        e(CarveError::SignatureDb {
            detail: "x".to_string()
        }),
        "signature database: x"
    );
    assert_eq!(
        e(CarveError::UnknownValidator {
            id: "a\"b".to_string()
        }),
        "no validator registered for id \"a\\\"b\""
    );
    assert_eq!(
        e(CarveError::Aborted {
            detail: "y".to_string()
        }),
        "scan aborted: y"
    );
}

fn point(d: &[u8]) -> Checkpoint {
    let source = describe(d.len() as u64, &d[..100], b"table");
    Checkpoint::begin(source, 0, d.len() as u64)
}

#[test]
fn a_scan_taken_up_again_finds_the_rest() {
    let db = SignatureDb::builtin().expect("builtin");
    let (d, _) = disk();
    let opts = only_png();
    let whole = scan(&d, &db, 0, d.len() as u64, &opts).expect("scan");
    let key = |c: &Candidate| (c.offset, c.length, c.detail.clone());
    let want: Vec<_> = whole.candidates.iter().map(key).collect();
    for most in [1u64, 50, 333, 1 << 40] {
        // Stop after a few segments, and go on with others.
        for stop in [0usize, 1, 3, 10] {
            let mut c = point(&d);
            let mut got = Vec::new();
            for _ in 0..stop {
                if let Some((from, to)) = c.next_segment(most) {
                    let mut carry = c.carry;
                    let part = scan_segment(&d, &db, from, to, c.range_end, &opts, &mut carry)
                        .expect("segment");
                    c.commit(to, carry, part.candidates.len());
                    got.extend(part.candidates);
                }
            }
            assert_eq!(c.rows, got.len() as u64);
            let mut kept = c.clone();
            let keep = resume(&kept, &point(&d).source, got.len() as u64 + 2).expect("same source");
            assert_eq!(keep, got.len() as u64);
            got.extend(scan_on(&d, &db, &mut kept, 77, &opts).expect("rest"));
            assert!(kept.is_complete());
            assert_eq!(kept.rows, got.len() as u64);
            assert_eq!(got.iter().map(key).collect::<Vec<_>>(), want);
        }
    }
}

#[test]
fn a_checkpoint_of_another_source_is_refused() {
    let (d, _) = disk();
    let c = point(&d);
    let refused = |s, have| resume(&c, &s, have).expect_err("refused");
    assert_eq!(
        refused(describe(5, &d[..100], b"table"), 0),
        format!(
            "refusing to resume: the checkpoint is of a source of {} bytes, and this one has 5",
            d.len()
        )
    );
    assert_eq!(
        refused(describe(d.len() as u64, b"other", b"table"), 0),
        "refusing to resume: the checkpoint is of a source that begins otherwise"
    );
    assert_eq!(
        refused(describe(d.len() as u64, &d[..100], b"tables"), 0),
        "refusing to resume: the checkpoint was made with other signatures"
    );
    let mut far = c.clone();
    far.commit(100, Carry::default(), 7);
    assert_eq!(
        resume(&far, &c.source, 6).expect_err("rows are missing"),
        "refusing to resume: 7 candidates were found, and the index holds 6"
    );
    assert_eq!(resume(&far, &c.source, 7), Ok(7));
}

#[test]
fn numbers_of_segments_are_gathered() {
    let mut total = ScanStats::default();
    let more = ScanStats {
        bytes_scanned: 10,
        validated: u64::MAX,
        truncated: true,
        threads: 3,
        ..Default::default()
    };
    gather(&mut total, &more);
    gather(&mut total, &more);
    assert_eq!(total.bytes_scanned, 20);
    assert_eq!(total.validated, u64::MAX);
    assert!(total.truncated);
    assert_eq!(total.threads, 3);
}

#[test]
fn signatures_that_cannot_be_counted_are_refused() {
    let (d, _) = disk();
    let db = SignatureDb::builtin().expect("builtin");
    let opts = only_png();
    assert!(is_scannable(&db, &None, opts.block_bytes));
    assert!(!is_scannable(&db, &None, 0));
    assert!(!is_scannable(&db, &None, usize::MAX));
    let a = scan_checked(&d, &db, 0, d.len() as u64, &opts).expect("scan");
    assert_eq!(a.stats.header_matches, 3);
    assert_eq!(a.stats.signatures, 1);
    assert_eq!(a.stats.strategy, "memchr");
    assert_eq!(a.stats.bytes_scanned, d.len() as u64);
    assert_eq!(a.stats.threads, worker_count(None, None));
    assert_eq!(a.stats.elapsed_nanos, 0);
    assert!(a.stats.prefilter_hits >= 3);

    let far = SignatureDb::from_json(
        r#"{"signatures":[{"id":"x","ext":"x","header":"AABB","header_off":18446744073709551615,"max_size":10}]}"#,
    )
    .expect("loads");
    assert!(!far.is_countable());
    // A signature that is not chosen does not matter.
    let mixed = SignatureDb::from_json(
        r#"{"signatures":[{"id":"x","ext":"x","header":"AABB","header_off":18446744073709551615,"max_size":10},{"id":"png","ext":"png","header":"89504E470D0A1A0A","max_size":1000000,"validator":"png"}]}"#,
    )
    .expect("loads");
    assert!(!mixed.is_countable());
    assert!(!is_scannable(&mixed, &None, 64));
    assert!(is_scannable(&mixed, &opts.only, 64));
    let b = scan_checked(&d, &mixed, 0, d.len() as u64, &opts).expect("scan");
    assert_eq!(b.stats.header_matches, 3);
    let e = scan_checked(&d, &far, 0, d.len() as u64, &ScanOptions::default())
        .err()
        .expect("refused");
    assert_eq!(
        e.message(),
        "signature database: no scan can go by these signatures in blocks of this size"
    );
}
