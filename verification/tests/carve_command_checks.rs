use rc_carve::cmd::carve::{
    by_extension, candidate_line, extension_lines, first_lines, index_name, options,
    produced_lines, range_end, speed_note, status_text,
};
use rc_carve::scan::{Candidate, ScanStats, DEFAULT_BLOCK, DEFAULT_VALIDATION_WINDOW};
use rc_carve::{Category, Status};

fn candidate(offset: u64, length: u64, ext: &str, status: Status, detail: &str) -> Candidate {
    Candidate {
        offset,
        length,
        signature_id: ext.to_string(),
        ext: ext.to_string(),
        category: Category::Image,
        status,
        detail: detail.to_string(),
        evidence: vec![],
        length_established: true,
        header_span: 4,
    }
}

#[test]
fn a_range_stops_at_the_end_of_the_device() {
    assert_eq!(range_end(0, None, 100), Ok(100));
    assert_eq!(range_end(5, Some(50), 100), Ok(50));
    assert_eq!(range_end(5, Some(500), 100), Ok(100));
    assert_eq!(
        range_end(100, None, 100),
        Err("nothing to scan: start 100 is not before end 100".to_string())
    );
    assert_eq!(
        range_end(7, Some(6), 100),
        Err("nothing to scan: start 7 is not before end 6".to_string())
    );
}

#[test]
fn an_index_is_named_after_its_source() {
    assert_eq!(index_name(Some("card.img")), "card.img.rcindex");
    assert_eq!(index_name(None), "carve.rcindex");
}

#[test]
fn flags_become_options() {
    let o = options(DEFAULT_BLOCK, Some(3), false, DEFAULT_VALIDATION_WINDOW, vec![], false);
    assert_eq!(o.threads, Some(3));
    assert!(o.validate);
    assert!(o.only.is_none());
    assert!(o.suppress_contained);
    assert_eq!(o.max_candidates, 5_000_000);
    let o = options(4096, None, true, 8192, vec!["png".to_string()], true);
    assert_eq!(o.block_bytes, 4096);
    assert!(!o.validate);
    assert_eq!(o.validation_window, 8192);
    assert_eq!(o.only, Some(vec!["png".to_string()]));
    assert!(!o.suppress_contained);
}

#[test]
fn extensions_are_counted_in_order() {
    let c = vec![
        candidate(0, 1, "png", Status::Valid, ""),
        candidate(1, 1, "jpg", Status::Valid, ""),
        candidate(2, 1, "png", Status::Partial, ""),
        candidate(3, 1, "zip", Status::Valid, ""),
        candidate(4, 1, "avi", Status::Valid, ""),
    ];
    let counts = by_extension(&c);
    assert_eq!(
        counts,
        vec![
            ("avi".to_string(), 1),
            ("jpg".to_string(), 1),
            ("png".to_string(), 2),
            ("zip".to_string(), 1),
        ]
    );
    assert_eq!(
        extension_lines(&counts),
        vec![
            "  avi                 1",
            "  jpg                 1",
            "  png                 2",
            "  zip                 1",
        ]
    );
    assert_eq!(by_extension(&vec![]), vec![]);
}

#[test]
fn a_status_is_one_word() {
    assert_eq!(status_text(Status::Valid), "valid");
    assert_eq!(status_text(Status::Partial), "partial");
    assert_eq!(status_text(Status::Rejected), "rejected");
}

#[test]
fn a_speed_from_the_page_cache_is_not_left_standing() {
    let mut s = ScanStats {
        bytes_scanned: 4096,
        ..Default::default()
    };
    assert_eq!(
        speed_note(false, &s).as_deref(),
        Some(
            "note: the scanned region is small enough to be served from the page cache; this \
             MB/s figure is not a device throughput (pass --unbuffered to measure the disk instead)"
        )
    );
    assert_eq!(
        speed_note(true, &s).as_deref(),
        Some(
            "note: read unbuffered - this figure describes the storage device, not the page cache"
        )
    );
    s.bytes_scanned = 1 << 40;
    assert_eq!(speed_note(false, &s), None);
}

#[test]
fn what_was_produced_is_laid_out_in_columns() {
    let mut s = ScanStats {
        prefilter_hits: 1234,
        header_matches: 56,
        rejected: 40,
        suppressed_contained: 3,
        ..Default::default()
    };
    assert_eq!(
        produced_lines(&s, "700", "28.6", 0x400_0000, 13),
        vec![
            "what the scanner produced, before and after validation:",
            "  prefilter hits                    1234",
            "  header matches                      56   = 700 per GB scanned",
            "  rejected by a validator             40   (28.6% of header matches survived)",
            "  suppressed as contained              3   (thumbnails, images inside documents)",
            "  candidates emitted                  13",
        ]
    );
    s.window_capped = 2;
    s.window_artifact_lengths = 1;
    s.truncated = true;
    let all = produced_lines(&s, "700", "28.6", 0x400_0000, 13);
    assert_eq!(
        all[5..],
        [
            "  validated on a part view             2   (format allows more than the 64.0 MiB window)",
            "  length discarded                     1   (was the window size, not a file length)",
            "  candidates emitted                  13",
            "  WARNING: the candidate limit was reached; results are incomplete.",
        ]
    );
}

#[test]
fn candidates_are_shown_up_to_the_limit() {
    let long = "x".repeat(100);
    let c = vec![
        candidate(4096, 1000, "png", Status::Valid, "fine"),
        candidate(8192, 0, "jpg", Status::Partial, &long),
    ];
    assert_eq!(
        candidate_line(&c[0]),
        "            4096          1000  png      valid    fine"
    );
    assert_eq!(
        candidate_line(&c[1]),
        format!("            8192             -  jpg      partial  {}", "x".repeat(60))
    );
    let lines = first_lines(&c, 1);
    assert_eq!(lines.len(), 3);
    assert_eq!(lines[0], "first 1 candidates:");
    assert_eq!(
        lines[1],
        "          offset        length  ext      status   detail"
    );
    assert_eq!(lines[2], candidate_line(&c[0]));
    assert_eq!(first_lines(&c, 20).len(), 4);
    assert!(first_lines(&c, 0).is_empty());
    assert!(first_lines(&vec![], 5).is_empty());
}
