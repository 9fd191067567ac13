use rc_carve::validate::{has_validator, validate, VALIDATOR_IDS};
use rc_carve::{SignatureDb, Status};

/// A typo in the database would otherwise disable a validator
/// silently: the signature would still match, the lookup would return
/// `None`, and every candidate would be emitted unvalidated. That is a
/// precision collapse that no test of the validators themselves catches.
#[test]
fn every_validator_named_by_the_shipped_database_exists() {
    let db = SignatureDb::builtin().expect("builtin database must load");
    let mut missing = Vec::new();
    for sig in &db.signatures {
        if let Some(v) = &sig.validator {
            if v != "none" && !has_validator(v) {
                missing.push(format!("{} -> {v}", sig.id));
            }
        }
    }
    assert!(missing.is_empty(), "unimplemented validators: {missing:?}");
}

/// The other direction: a validator nothing references is dead code, and
/// usually means a signature was meant to name it and does not.
#[test]
fn every_implemented_validator_is_referenced_by_the_database() {
    let db = SignatureDb::builtin().expect("builtin database must load");
    let used: Vec<&str> = db
        .signatures
        .iter()
        .filter_map(|s| s.validator.as_deref())
        .collect();
    let unused: Vec<&&str> = VALIDATOR_IDS
        .iter()
        .filter(|id| !used.contains(&**id))
        .collect();
    assert!(
        unused.is_empty(),
        "validators nothing references: {unused:?}"
    );
}

#[test]
fn unknown_ids_are_none_rather_than_a_failure() {
    assert!(validate("no_such_validator", b"anything").is_none());
    assert!(validate("none", b"anything").is_none());
}

/// No validator may report a length that is really just the size of the
/// buffer it was handed.
///
/// This is the general form of a bug that destroyed recall on the
/// quick-formatted fixture. The ZIP validator, given a truncated archive,
/// returned `d.len()` as the length. Carving hands a validator a fixed
/// window, so that number was the window size - 16 MiB - and a candidate
/// carrying a length it had not earned suppressed every real file inside
/// that span. Recall went from 228 of 228 to 26.
///
/// The test: feed each validator a prefix of a real file with three
/// different amounts of trailing padding. Whatever the verdict, the
/// reported length must not move with the padding. A length that tracks
/// the buffer size is a fact about the caller, not about the file.
#[test]
fn no_validator_reports_the_buffer_size_as_a_length() {
    // Deliberately truncated samples: each is the front of something real,
    // cut so no validator can find a proper end.
    let cases: Vec<(&str, Vec<u8>)> = vec![
        ("jpeg", {
            let mut v = vec![0xFF, 0xD8];
            v.extend_from_slice(&[
                0xFF, 0xC0, 0x00, 0x0B, 0x08, 0x00, 0x10, 0x00, 0x10, 0x01, 0x01, 0x11, 0x00,
            ]);
            v.extend_from_slice(&[0xFF, 0xDA, 0x00, 0x08, 0x01, 0x00, 0x00, 0x00, 0x3F, 0x00]);
            v.extend_from_slice(&[0x11; 32]);
            v
        }),
        ("png", {
            let mut v = vec![0x89, b'P', b'N', b'G', 0x0D, 0x0A, 0x1A, 0x0A];
            let ihdr = [0, 0, 0, 8, 0, 0, 0, 8, 8, 2, 0, 0, 0];
            v.extend_from_slice(&13u32.to_be_bytes());
            v.extend_from_slice(b"IHDR");
            v.extend_from_slice(&ihdr);
            v.extend_from_slice(&rc_carve::crc32::crc32_parts(&[b"IHDR", &ihdr]).to_be_bytes());
            let idat = [0x78u8, 0x9C, 0x63, 0x00];
            v.extend_from_slice(&(idat.len() as u32).to_be_bytes());
            v.extend_from_slice(b"IDAT");
            v.extend_from_slice(&idat);
            v.extend_from_slice(&rc_carve::crc32::crc32_parts(&[b"IDAT", &idat]).to_be_bytes());
            v
        }),
        (
            "pdf",
            b"%PDF-1.7
1 0 obj
<< /Type /Catalog >>
endobj
"
            .to_vec(),
        ),
        ("zip", {
            let mut v = b"PK\x03\x04".to_vec();
            v.extend_from_slice(&[20, 0, 0, 0, 0, 0, 0, 0, 0, 0]);
            v.extend_from_slice(&0u32.to_le_bytes());
            v.extend_from_slice(&5u32.to_le_bytes());
            v.extend_from_slice(&5u32.to_le_bytes());
            v.extend_from_slice(&5u16.to_le_bytes());
            v.extend_from_slice(&0u16.to_le_bytes());
            v.extend_from_slice(b"a.txt");
            v.extend_from_slice(b"hello");
            v
        }),
        ("mp4", {
            let mut v = 24u32.to_be_bytes().to_vec();
            v.extend_from_slice(b"ftypisom\x00\x00\x02\x00isom");
            v.extend_from_slice(&64u32.to_be_bytes());
            v.extend_from_slice(b"moov");
            v.extend_from_slice(&[0x11; 56]);
            v
        }),
        ("riff_wav", {
            let mut v = b"RIFF".to_vec();
            v.extend_from_slice(&0xFFFF_0000u32.to_le_bytes());
            v.extend_from_slice(b"WAVE");
            v.extend_from_slice(b"fmt ");
            v.extend_from_slice(&16u32.to_le_bytes());
            v.extend_from_slice(&[1, 0, 2, 0, 0x44, 0xAC, 0, 0, 0x10, 0xB1, 2, 0, 4, 0, 16, 0]);
            v.extend_from_slice(b"data");
            v.extend_from_slice(&0x00FF_0000u32.to_le_bytes());
            v.extend_from_slice(&[0x22; 64]);
            v
        }),
    ];

    let mut offenders = Vec::new();
    for (id, head) in &cases {
        let mut seen: Vec<(usize, u64, Status)> = Vec::new();
        for pad in [0usize, 4096, 256 * 1024] {
            let mut v = head.clone();
            v.resize(head.len() + pad, 0);
            let out = validate(id, &v).expect("validator exists");
            seen.push((pad, out.length, out.status));
        }
        let first = seen[0].1;
        if seen.iter().any(|(_, l, _)| *l != first) {
            offenders.push(format!("{id}: length varies with padding: {seen:?}"));
        }
        // And it must never exceed the real prefix, which is all the file
        // there ever was.
        if first > head.len() as u64 {
            offenders.push(format!(
                "{id}: claimed {first} bytes from a {}-byte prefix",
                head.len()
            ));
        }
    }
    assert!(
        offenders.is_empty(),
        "{}",
        offenders.join(
            "
"
        )
    );
}

/// Every validator must survive arbitrary input without panicking. These
/// parse bytes off a damaged disk; a panic is a denial of service on the
/// whole scan.
#[test]
fn no_validator_panics_on_hostile_input() {
    let cases: Vec<Vec<u8>> = vec![
        vec![],
        vec![0u8; 1],
        vec![0u8; 3],
        vec![0xFF; 64],
        b"SQLite format 3\0".to_vec(),
        b"%PDF-".to_vec(),
        b"RIFF".to_vec(),
        b"PK\x03\x04".to_vec(),
        // Length fields claiming far more than exists.
        {
            let mut v = b"RIFF".to_vec();
            v.extend_from_slice(&u32::MAX.to_le_bytes());
            v.extend_from_slice(b"WAVE");
            v
        },
        {
            let mut v = vec![0x89, b'P', b'N', b'G', 0x0D, 0x0A, 0x1A, 0x0A];
            v.extend_from_slice(&u32::MAX.to_be_bytes());
            v.extend_from_slice(b"IHDR");
            v
        },
        // A box claiming a 64-bit size that would overflow a naive adder.
        {
            let mut v = 1u32.to_be_bytes().to_vec();
            v.extend_from_slice(b"ftyp");
            v.extend_from_slice(&u64::MAX.to_be_bytes());
            v
        },
    ];
    for id in VALIDATOR_IDS {
        for case in &cases {
            let out = validate(id, case).unwrap_or_else(|| panic!("{id} must be dispatchable"));
            // A rejected candidate must not claim a length.
            if out.status == Status::Rejected {
                assert_eq!(out.length, 0, "{id} gave a length for a rejection");
            }
            // An accepted candidate must never claim more than it was given.
            assert!(
                out.length <= case.len() as u64,
                "{id} claimed {} bytes from a {}-byte input",
                out.length,
                case.len()
            );
        }
    }
}

/// Data that ends inside the header ran out only as far as it agrees with the
/// header.
#[test]
fn short_data_ran_out_only_where_it_agrees() {
    let heads: Vec<(&str, &[u8])> = vec![
        ("7z", b"7z\xBC\xAF"),
        ("bmp", b"BM"),
        ("cab", b"MSCF"),
        ("elf", b"\x7FELF"),
        ("evtx", b"ElfFile\0"),
        ("gif", b"GIF89"),
        ("ico", b"\0\0\x01\0"),
        ("jpeg", b"\xFF\xD8"),
        ("mp4", b"\0\0\0\x18ftyp"),
        ("pdf", b"%PDF-"),
        ("pe", b"MZ"),
        ("png", b"\x89PNG"),
        ("psd", b"8BPS"),
        ("reg_hive", b"regf"),
        ("riff_aiff", b"FORM\0\0\0\0AI"),
        ("riff_wav", b"RIFF\0\0\0\0WA"),
        ("rtf", b"{\\rtf"),
        ("sqlite", b"SQLite format 3\0"),
        ("tiff", b"MM\0*"),
        ("zip", b"PK\x03"),
    ];
    for (id, head) in heads {
        let out = validate(id, head).expect("known");
        assert_eq!(out.status, Status::Rejected, "{id}: {}", out.detail);
        assert!(out.ran_out, "{id}");
        let mut wrong = head.to_vec();
        *wrong.last_mut().expect("byte") ^= 0x10;
        let out = validate(id, &wrong).expect("known");
        assert_eq!(out.status, Status::Rejected, "{id}: {}", out.detail);
        assert!(!out.ran_out, "{id}");
        wrong.extend([0x41; 300]);
        let out = validate(id, &wrong).expect("known");
        assert_eq!(out.status, Status::Rejected, "{id}: {}", out.detail);
        assert!(!out.ran_out, "{id}");
    }
}
