use rc_carve::validate::sqlite::validate;
use rc_carve::Status;

const MAGIC: &[u8; 16] = b"SQLite format 3\0";
const HEADER_LEN: usize = 100;

/// Build a header-accurate SQLite file. Only the header and page 1's type
/// byte matter to this validator, so the page bodies are filler.
fn db(page_size: u32, pages: u32, freelist: u32, trunk: u32, valid_size: bool) -> Vec<u8> {
    let mut h = vec![0u8; HEADER_LEN];
    h[..16].copy_from_slice(MAGIC);
    let raw = if page_size == 65536 { 1u16 } else { page_size as u16 };
    h[16..18].copy_from_slice(&raw.to_be_bytes());
    h[18] = 1;
    h[19] = 1;
    h[20] = 0;
    h[21] = 64;
    h[22] = 32;
    h[23] = 32;
    h[24..28].copy_from_slice(&7u32.to_be_bytes()); // change counter
    h[28..32].copy_from_slice(&pages.to_be_bytes());
    h[32..36].copy_from_slice(&trunk.to_be_bytes());
    h[36..40].copy_from_slice(&freelist.to_be_bytes());
    h[44..48].copy_from_slice(&4u32.to_be_bytes()); // schema format
    h[56..60].copy_from_slice(&1u32.to_be_bytes()); // UTF-8
    let vvf: u32 = if valid_size { 7 } else { 6 };
    h[92..96].copy_from_slice(&vvf.to_be_bytes());
    h[96..100].copy_from_slice(&3_050_004u32.to_be_bytes());

    let mut v = h;
    v.push(0x0D); // page 1 is a leaf table b-tree
    v.resize((page_size * pages) as usize, 0x00);
    v
}

#[test]
fn accepts_a_well_formed_database_and_reports_its_declared_length() {
    let f = db(4096, 6, 1, 3, true);
    let out = validate(&f);
    assert_eq!(out.status, Status::Valid, "{}", out.detail);
    assert_eq!(out.length, 4096 * 6);
    assert_eq!(out.evidence_of("page_size"), Some("4096"));
    assert_eq!(out.evidence_of("page_count"), Some("6"));
    assert_eq!(out.evidence_of("freelist_pages"), Some("1"));
}

#[test]
fn sqlite_trailing_disk_content_does_not_extend_the_length() {
    let mut f = db(4096, 4, 0, 0, true);
    let real = f.len();
    f.extend_from_slice(&[0xAB; 8192]);
    assert_eq!(validate(&f).length, real as u64);
}

#[test]
fn rejects_page_sizes_that_are_not_powers_of_two_in_range() {
    for bad in [3000u16, 100, 5000, 0] {
        let mut f = db(4096, 4, 0, 0, true);
        f[16..18].copy_from_slice(&bad.to_be_bytes());
        assert_eq!(
            validate(&f).status,
            Status::Rejected,
            "page size {bad} should be rejected"
        );
    }
}

#[test]
fn accepts_the_65536_page_size_encoded_as_one() {
    let f = db(65536, 2, 0, 0, true);
    let out = validate(&f);
    assert_eq!(out.status, Status::Valid, "{}", out.detail);
    assert_eq!(out.evidence_of("page_size"), Some("65536"));
    assert_eq!(out.length, 65536 * 2);
}

#[test]
fn rejects_a_freelist_larger_than_the_database() {
    let f = db(4096, 6, 9, 3, true);
    let out = validate(&f);
    assert_eq!(out.status, Status::Rejected, "{}", out.detail);
    assert!(out.detail.contains("freelist"), "{}", out.detail);
}

#[test]
fn rejects_a_freelist_trunk_outside_the_database() {
    let f = db(4096, 6, 1, 99, true);
    assert_eq!(validate(&f).status, Status::Rejected);
}

#[test]
fn a_freelist_head_and_count_that_disagree_is_partial() {
    // Three free pages but no trunk page to reach them from.
    let f = db(4096, 6, 3, 0, true);
    let out = validate(&f);
    assert_eq!(out.status, Status::Partial, "{}", out.detail);
    assert!(out.detail.contains("disagree"), "{}", out.detail);
}

/// SQLite says the in-header size is only usable when these two counters
/// agree. Trusting it regardless is how a carve silently truncates.
#[test]
fn an_untrustworthy_page_count_falls_back_to_whole_pages() {
    let f = db(4096, 6, 0, 0, false);
    let out = validate(&f);
    assert_eq!(out.status, Status::Partial, "{}", out.detail);
    assert_eq!(out.evidence_of("size_in_header_valid"), Some("false"));
    assert_eq!(out.length, 4096 * 6, "should floor to whole pages");
}

#[test]
fn rejects_the_fixed_payload_fraction_bytes_being_wrong() {
    for at in [21usize, 22, 23] {
        let mut f = db(4096, 4, 0, 0, true);
        f[at] = f[at].wrapping_add(1);
        assert_eq!(validate(&f).status, Status::Rejected, "byte {at}");
    }
}

#[test]
fn rejects_a_page_one_that_is_not_a_btree_page() {
    let mut f = db(4096, 4, 0, 0, true);
    f[HEADER_LEN] = 0x77;
    assert_eq!(validate(&f).status, Status::Rejected);
}

#[test]
fn a_database_cut_short_is_partial_and_floors_to_whole_pages() {
    let f = db(4096, 8, 0, 0, true);
    let out = validate(&f[..4096 * 3 + 100]);
    assert_eq!(out.status, Status::Partial, "{}", out.detail);
    assert_eq!(out.length, 4096 * 3);
    assert!(out.detail.contains("truncated"), "{}", out.detail);
}

#[test]
fn rejects_a_nonzero_reserved_range() {
    let mut f = db(4096, 4, 0, 0, true);
    f[80] = 1;
    assert_eq!(validate(&f).status, Status::Rejected);
}

#[test]
fn a_wrong_header_stays_wrong() {
    let mut f = db(4096, 2, 0, 0, true);
    f[21] = 63;
    for more in [0usize, 9000] {
        f.extend(vec![0; more]);
        let out = validate(&f);
        assert_eq!(out.status, Status::Rejected, "{}", out.detail);
        assert!(!out.ran_out);
    }
}

#[test]
fn a_header_alone_ran_out_unless_it_is_wrong() {
    let f = db(4096, 2, 0, 0, true);
    let out = validate(&f[..100]);
    assert_eq!(out.status, Status::Rejected);
    assert!(out.ran_out, "{}", out.detail);
    let mut wrong = f[..100].to_vec();
    wrong[0] = b'X';
    let out = validate(&wrong);
    assert_eq!(out.detail, "magic mismatch");
    assert!(!out.ran_out);
    let out = validate(&f[..99]);
    assert_eq!(out.detail, "shorter than a SQLite header");
    assert!(out.ran_out);
}
