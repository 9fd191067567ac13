use std::time::Instant;

use rc_carve::prefilter::MEMCHR_MAX_NEEDLES;
use rc_carve::{Prefilter, ScanIndex, SignatureDb};

/// Hit order is unspecified (the multi-pass strategy groups by needle), so
/// every comparison here sorts first.
fn hits(p: &Prefilter, hay: &[u8]) -> Vec<usize> {
    let mut v = p.for_each_hit(hay);
    v.sort_unstable();
    v
}

fn noise(n: usize) -> Vec<u8> {
    let mut hay = Vec::with_capacity(n);
    let mut state = 0x2545_F491u32;
    for _ in 0..n {
        state ^= state << 13;
        state ^= state >> 17;
        state ^= state << 5;
        hay.push(state as u8);
    }
    hay
}

/// Every strategy must find exactly the same positions. They are chosen
/// for speed, so a difference in *results* between them would be a bug
/// that only shows up once a signature set crosses the threshold.
#[test]
fn all_strategies_agree_on_which_offsets_hit() {
    let hay = noise(8192);

    // Spans every strategy: memchr, memchr2, memchr3, the multi-pass tier,
    // and the table beyond MEMCHR_MAX_NEEDLES.
    for n in 1..=(MEMCHR_MAX_NEEDLES + 4) {
        let needles: Vec<u8> = (0..n).map(|i| (i as u8).wrapping_mul(31)).collect();
        let p = Prefilter::for_bytes(&needles);
        let got = hits(&p, &hay);
        let want: Vec<usize> = hay
            .iter()
            .enumerate()
            .filter(|(_, b)| needles.contains(b))
            .map(|(i, _)| i)
            .collect();
        assert_eq!(got, want, "strategy {} disagreed for {n} needles", p.strategy());
    }
}

#[test]
fn strategy_is_chosen_by_needle_count() {
    assert_eq!(Prefilter::for_bytes(&[1]).strategy(), "memchr");
    assert_eq!(Prefilter::for_bytes(&[1, 2]).strategy(), "memchr2");
    assert_eq!(Prefilter::for_bytes(&[1, 2, 3]).strategy(), "memchr3");
    assert_eq!(
        Prefilter::for_bytes(&[1, 2, 3, 4]).strategy(),
        "memchr3-multipass"
    );

    let at_limit: Vec<u8> = (1..=MEMCHR_MAX_NEEDLES as u8).collect();
    assert_eq!(Prefilter::for_bytes(&at_limit).strategy(), "memchr3-multipass");
    let past_limit: Vec<u8> = (1..=MEMCHR_MAX_NEEDLES as u8 + 1).collect();
    assert_eq!(Prefilter::for_bytes(&past_limit).strategy(), "byte-table");

    // Duplicates collapse: a set of one distinct byte is still memchr.
    assert_eq!(Prefilter::for_bytes(&[7, 7, 7, 7]).strategy(), "memchr");
    assert_eq!(Prefilter::for_bytes(&[]).strategy(), "every-offset");
}

/// The multi-pass tier must not report a position twice, even though it
/// makes several passes over the same buffer. Overlapping needle chunks
/// would double-count, and a duplicated hit becomes a duplicated candidate.
#[test]
fn the_multipass_tier_reports_each_position_once() {
    let hay = noise(4096);
    for n in 4..=MEMCHR_MAX_NEEDLES {
        let needles: Vec<u8> = (0..n as u8).map(|i| i.wrapping_mul(17)).collect();
        let got = hits(&Prefilter::for_bytes(&needles), &hay);
        let mut dedup = got.clone();
        dedup.dedup();
        assert_eq!(got, dedup, "{n} needles produced a duplicate hit");
    }
}

#[test]
fn matches_agrees_with_for_each_hit() {
    let needles = [0x00u8, 0x42, 0xFF, 0x89, 0x25];
    let p = Prefilter::for_bytes(&needles);
    for b in 0..=255u8 {
        assert_eq!(p.matches(b), needles.contains(&b), "byte {b:#04X}");
    }
}

/// A container format's leading byte is not at the start of the file, so a
/// hit has to be translated back. MP4's `ftyp` is at offset 4.
#[test]
fn a_hit_resolves_to_the_candidate_start_not_the_hit_offset() {
    let db = SignatureDb::builtin().expect("builtin db");
    let idx = ScanIndex::new(&db);

    // 4-byte size, then ftyp, then a brand.
    let mut buf = 0x20u32.to_be_bytes().to_vec();
    buf.extend_from_slice(b"ftypisom");
    buf.extend_from_slice(&[0u8; 16]);

    let found: Vec<_> = idx
        .candidates_at(&buf, 4)
        .into_iter()
        .map(|(s, start, _)| (s.id.clone(), start))
        .collect();
    assert!(
        found.iter().any(|(id, start)| id == "mp4" && *start == 0),
        "mp4 should resolve to offset 0 from a hit at 4, got {found:?}"
    );
}

/// A leading byte at an offset that would put the candidate before the
/// start of the buffer must not underflow.
#[test]
fn a_hit_too_close_to_the_start_is_dropped_not_wrapped() {
    let db = SignatureDb::builtin().expect("builtin db");
    let idx = ScanIndex::new(&db);
    let buf = b"ftypisom".to_vec();
    // A hit at 0 for a signature whose header_offset is 4 would need the
    // candidate to start at -4.
    let n = idx.candidates_at(&buf, 0).len();
    assert_eq!(n, 0, "should have found nothing rather than panicking");
}

#[test]
fn the_builtin_database_uses_the_table_strategy() {
    let db = SignatureDb::builtin().expect("builtin db");
    let idx = ScanIndex::new(&db);
    // 44 signatures span far more than three distinct leading bytes, so a
    // full-database scan is expected to take the table path. If this ever
    // flips, the throughput characteristics change and the benchmark
    // numbers stop being comparable.
    assert_eq!(idx.strategy(), "byte-table");
    assert!(idx.max_header_span() >= 8);
}

/// Scanning for a single format should take the SIMD path - this is the one
/// users hit when they ask for one file type.
#[test]
fn a_single_format_scan_takes_the_simd_path() {
    let db = SignatureDb::builtin().expect("builtin db");
    let jpeg: Vec<_> = db.signatures.iter().filter(|s| s.id == "jpeg").collect();
    let idx = ScanIndex::from_signatures(jpeg, db.max_header_span());
    assert_eq!(idx.strategy(), "memchr");
    assert!(idx.prefilter.is_simd());
}

/// `MEMCHR_MAX_NEEDLES` is a performance claim, so measure it.
///
/// Sweeps needle counts across the threshold, timing the multi-pass SIMD
/// path against one table pass over the same buffer, and reports which of them
/// won. The two must always count the same hits. Which one wins depends on how
/// the build was optimised, so that is reported and not asserted.
#[test]
fn crossover_is_where_the_threshold_says_it_is() {
    let hay = noise(4 << 20);
    let best_of = |p: &Prefilter| {
        let mut best = std::time::Duration::MAX;
        let mut hits = 0usize;
        for _ in 0..2 {
            let t = Instant::now();
            let n = p.for_each_hit(&hay).len();
            best = best.min(t.elapsed());
            hits = n;
        }
        (best, hits)
    };

    let _ = best_of(&Prefilter::for_bytes(&[1])); // warm up

    for n in 1..=16usize {
        let needles: Vec<u8> = (0..n as u8).map(|i| i.wrapping_mul(37)).collect();

        // Force each strategy rather than letting for_bytes choose, so the
        // two are compared at the same needle count.
        let simd = if n <= MEMCHR_MAX_NEEDLES {
            Prefilter::for_bytes(&needles)
        } else {
            Prefilter::Multi(needles.clone())
        };
        let table = {
            let mut t = Box::new([false; 256]);
            for b in &needles {
                t[*b as usize] = true;
            }
            Prefilter::Table(t)
        };

        let (ts, hs) = best_of(&simd);
        let (tt, ht) = best_of(&table);
        assert_eq!(hs, ht, "strategies disagreed on hit count at {n} needles");

        let simd_wins = ts < tt;
        let we_pick_simd = n <= MEMCHR_MAX_NEEDLES;
        println!(
            "  {n:>2} needles  simd {ts:>10.3?}  table {tt:>10.3?}  winner {:<5}  we pick {}",
            if simd_wins { "simd" } else { "table" },
            if we_pick_simd { "simd" } else { "table" },
        );
    }
}
