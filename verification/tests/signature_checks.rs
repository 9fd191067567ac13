use rc_carve::signature::parse_hex;
use rc_carve::SignatureDb;

#[test]
fn the_builtin_database_loads() {
    let db = SignatureDb::builtin().expect("builtin database must parse");
    assert!(
        db.len() >= 40,
        "too few formats to start with; found {}",
        db.len()
    );
}

/// Every footerless format is terminated only by max_size, so a missing or
/// absurd ceiling means one bad header eats the volume.
#[test]
fn every_signature_has_a_sane_max_size() {
    let db = SignatureDb::builtin().unwrap();
    for s in &db.signatures {
        assert!(s.max_size > 0, "{}: max_size must be positive", s.id);
        assert!(
            s.max_size <= 256 * 1024 * 1024 * 1024,
            "{}: max_size of {} is large enough to swallow a whole disk",
            s.id,
            s.max_size
        );
        if s.footer.is_none() {
            assert!(
                s.max_size <= 137 * 1024 * 1024 * 1024,
                "{}: footerless formats lean entirely on max_size",
                s.id
            );
        }
    }
}

#[test]
fn max_size_is_rejected_when_missing() {
    let json = r#"{"signatures":[{"id":"x","ext":"x","header":"AABB"}]}"#;
    let err = SignatureDb::from_json(json).unwrap_err();
    assert!(
        err.message().contains("max_size is mandatory"),
        "the error should explain why: {}",
        err.message()
    );
}

#[test]
fn duplicate_ids_are_rejected() {
    let json = r#"{"signatures":[
        {"id":"a","ext":"a","header":"AA","max_size":10},
        {"id":"a","ext":"b","header":"BB","max_size":10}]}"#;
    assert!(SignatureDb::from_json(json).is_err());
}

#[test]
fn malformed_hex_is_rejected() {
    for bad in ["ZZ", "A", ""] {
        let json = format!(
            r#"{{"signatures":[{{"id":"x","ext":"x","header":"{bad}","max_size":10}}]}}"#
        );
        assert!(
            SignatureDb::from_json(&json).is_err(),
            "header {bad:?} should be rejected"
        );
    }
}

#[test]
fn headers_match_at_their_declared_offset() {
    let db = SignatureDb::builtin().unwrap();
    let jpeg = db.get("jpeg").unwrap();
    assert!(jpeg.matches(&[0xFF, 0xD8, 0xFF, 0xE0, 0x00]));
    assert!(!jpeg.matches(&[0xFF, 0xD9, 0xFF]));

    // MP4's ftyp sits at offset 4, after the box size.
    let mp4 = db.get("mp4").unwrap();
    assert_eq!(mp4.header_offset, 4);
    let mut buf = vec![0u8; 16];
    buf[4..8].copy_from_slice(b"ftyp");
    assert!(mp4.matches(&buf));
    // The same bytes at offset 0 must not match.
    let mut wrong = vec![0u8; 16];
    wrong[0..4].copy_from_slice(b"ftyp");
    assert!(!mp4.matches(&wrong));
}

#[test]
fn masked_headers_ignore_masked_bits() {
    let json = r#"{"signatures":[{"id":"m","ext":"m","header":"AA00",
                    "header_mask":"FF00","max_size":100}]}"#;
    let db = SignatureDb::from_json(json).unwrap();
    let s = db.get("m").unwrap();
    assert!(s.matches(&[0xAA, 0x00]));
    assert!(s.matches(&[0xAA, 0xFF]), "the second byte is masked out");
    assert!(!s.matches(&[0xAB, 0x00]));
}

#[test]
fn a_mask_of_the_wrong_length_is_rejected() {
    let json = r#"{"signatures":[{"id":"m","ext":"m","header":"AABB",
                    "header_mask":"FF","max_size":100}]}"#;
    assert!(SignatureDb::from_json(json).is_err());
}

/// The SQLite WAL magic is 0x377f0682 or 0x377f0683 - the low bit selects
/// the checksum endianness - so the entry carries a mask that clears it.
/// Without the mask half of all real WAL files would be invisible, and a
/// mask that was too wide would match neighbouring magics as well.
#[test]
fn the_wal_signature_matches_both_endian_magics_and_nothing_else() {
    let db = SignatureDb::builtin().expect("builtin db");
    let wal = db.get("sqlite_wal").expect("sqlite_wal entry");
    assert!(wal.header_mask.is_some(), "the entry lost its mask");

    let mut body = vec![0u8; 32];
    for (magic, want) in [
        (0x377f_0682u32, true), // big-endian checksums; seen on this machine
        (0x377f_0683, true),    // little-endian checksums
        (0x377f_0680, false),
        (0x377f_0684, false),
        (0x367f_0682, false),
    ] {
        body[..4].copy_from_slice(&magic.to_be_bytes());
        assert_eq!(
            wal.matches(&body),
            want,
            "magic {magic:#010x} should {} match",
            if want { "" } else { "not" }
        );
    }
}

/// A header that is mostly ASCII is a string someone typed, and a typo in
/// one is invisible: the signature simply never fires. `vhd` read
/// "connecti" for a cookie that is actually "conectix" - one 'n', a quirk
/// of the format - and could never have matched anything.
#[test]
fn the_vhd_cookie_is_the_one_real_files_carry() {
    let db = SignatureDb::builtin().expect("builtin db");
    let vhd = db.get("vhd").expect("vhd entry");
    assert_eq!(
        vhd.header, b"conectix",
        "the VHD cookie has one 'n'; confirmed against real VHDs on disk"
    );
}

#[test]
fn prefilter_byte_reflects_the_header_offset() {
    let db = SignatureDb::builtin().unwrap();
    // MP4's header sits at offset 4 and is all printable ASCII, so the
    // anchor is its first byte at that offset.
    assert_eq!(db.get("mp4").unwrap().prefilter_byte(), Some((b'f', 4)));
}

/// No signature may anchor on a fill byte when it has anything better.
///
/// A zero or 0xFF anchor turns the prefilter into "check every byte" on a
/// formatted drive or erased flash - which is how the engine came to run at
/// 16 MiB/s on the quick-formatted fixture.
#[test]
fn no_signature_anchors_on_a_fill_byte_it_could_avoid() {
    let db = SignatureDb::builtin().unwrap();
    let mut bad = Vec::new();
    for s in &db.signatures {
        let Some((b, _)) = s.prefilter_byte() else {
            continue;
        };
        let has_alternative = s.header.iter().any(|x| *x != 0x00 && *x != 0xFF);
        if (b == 0x00 || b == 0xFF) && has_alternative {
            bad.push(format!("{} anchors on {b:#04x}", s.id));
        }
    }
    assert!(bad.is_empty(), "fill-byte anchors: {bad:?}");
}

/// The three signatures that start with a fill byte move to a rarer one.
#[test]
fn signatures_starting_with_a_fill_byte_anchor_further_in() {
    let db = SignatureDb::builtin().unwrap();
    assert_eq!(db.get("jpeg").unwrap().prefilter_byte(), Some((0xD8, 1)));
    assert_eq!(db.get("ico").unwrap().prefilter_byte(), Some((0x01, 2)));
    assert_eq!(db.get("mpeg_ps").unwrap().prefilter_byte(), Some((0xBA, 3)));
}

#[test]
fn header_span_bounds_the_scanner_lookahead() {
    let db = SignatureDb::builtin().unwrap();
    let span = db.max_header_span();
    assert!(
        span >= 16,
        "the SQLite header alone is 16 bytes, got {span}"
    );
    assert!(span < 256, "an implausibly long header: {span}");
}

/// OOXML and JARs are ZIPs. Emitting `.zip` for all of them would be
/// technically true and practically useless, so the ZIP entry carries a
/// validator that sniffs the archive's contents.
#[test]
fn zip_defers_to_a_validator_rather_than_emitting_bare_zip() {
    let db = SignatureDb::builtin().unwrap();
    let zip = db.get("zip").unwrap();
    assert_eq!(zip.validator.as_deref(), Some("zip"));
    assert!(zip
        .note
        .as_deref()
        .unwrap_or_default()
        .contains("Content_Types"));
}

/// A sign is no digit, in either place of a pair.
#[test]
fn a_sign_is_no_hexadecimal_digit() {
    assert_eq!(parse_hex("+A"), None);
    assert_eq!(parse_hex("A+"), None);
    assert_eq!(parse_hex("-A"), None);
    assert_eq!(parse_hex(" 0aF9 "), Some(vec![0x0A, 0xF9]));
}
