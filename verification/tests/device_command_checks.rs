use rc_carve::cmd::devices::{
    device_lines, notes, recovery_outlook, trim_notes, DeviceInfo, TrimSupport,
};
use rc_carve::cmd::image::{outcome_lines, parse_number, parse_size, progress, read_size, Parsed};
use rc_carve::cmd::preview::{check_length, header_mark, hex_lines, png_size};
use rc_carve::cmd::smoke::{
    compare, findings_lines, guard_system_drive, judge, lists, probe_line, probes, Reads,
};
use rc_carve::cmd::verify::{mark, verify_lines, VerifyReport};

fn drive(trim: TrimSupport, rotational: Option<bool>, removable: Option<bool>) -> DeviceInfo {
    DeviceInfo {
        path: "/dev/sdx".to_string(),
        kind: "disk".to_string(),
        model: None,
        serial: Some("S1".to_string()),
        total_bytes: 1 << 30,
        sector_size: 512,
        rotational,
        trim,
        trim_label: "no".to_string(),
        removable,
        readable: true,
        access_note: None,
    }
}

#[test]
fn the_outlook_follows_what_the_device_reports() {
    let of = |t, r, m| recovery_outlook(&drive(t, r, m)).to_string();
    assert!(of(TrimSupport::Yes, Some(true), None).starts_with("poor - "));
    assert!(of(TrimSupport::No, Some(true), None).starts_with("good - mechanical"));
    assert!(of(TrimSupport::Unknown, Some(false), Some(true)).starts_with("good - removable"));
    assert!(of(TrimSupport::No, Some(false), None).starts_with("uncertain - "));
    assert!(of(TrimSupport::No, Some(false), Some(false)).starts_with("uncertain - "));
    assert_eq!(
        of(TrimSupport::Unknown, None, Some(true)),
        "unknown - could not determine media characteristics"
    );
}

#[test]
fn notes_say_what_is_wrong() {
    let mut d = drive(TrimSupport::No, None, None);
    assert!(notes(false, false, &vec![d.clone()]).is_empty());
    d.readable = false;
    assert_eq!(
        notes(false, false, &vec![d.clone()]),
        vec!["Some devices need root before their sectors can be read."]
    );
    assert_eq!(
        notes(false, true, &vec![d.clone()]),
        vec!["Some devices need an Administrator shell before their sectors can be read."]
    );
    assert!(notes(true, false, &vec![d]).is_empty());
    assert_eq!(
        notes(false, false, &vec![]),
        vec!["No block devices were enumerated. Image files can still be scanned by path."]
    );
}

#[test]
fn devices_are_a_table() {
    let mut b = drive(TrimSupport::Yes, Some(false), None);
    b.readable = false;
    let a = drive(TrimSupport::No, Some(true), None);
    let all = device_lines(&vec![a.clone(), b.clone()], true);
    assert_eq!(
        all,
        vec![
            "path      kind  size      sector  model  serial  spin  trim  access",
            "--------  ----  --------  ------  -----  ------  ----  ----  ------",
            "/dev/sdx  disk  1.00 GiB  512     -      S1      hdd   no    ok",
            "/dev/sdx  disk  1.00 GiB  512     -      S1      ssd   no    denied",
        ]
    );
    assert_eq!(device_lines(&vec![a, b.clone()], false).len(), 3);
    assert_eq!(device_lines(&vec![], true), vec!["No devices found."]);
    assert_eq!(
        trim_notes(&vec![b]),
        vec![
            "note: /dev/sdx reports TRIM. poor - device reports TRIM; deleted data is usually \
             zeroed by the controller"
        ]
    );
}

#[test]
fn sizes_are_read_with_their_unit() {
    assert_eq!(parse_size("1MiB"), Ok(1 << 20));
    assert_eq!(parse_size(" 3 GiB "), Ok(3 << 30));
    assert_eq!(parse_size("+7KiB"), Ok(7 << 10));
    assert_eq!(parse_size("512"), Ok(512));
    assert_eq!(read_size("2KiB"), Ok((2, 1024)));
    assert_eq!(
        parse_size("many"),
        Err("invalid size \"many\": invalid digit found in string".to_string())
    );
    assert_eq!(
        parse_size("KiB"),
        Err("invalid size \"KiB\": cannot parse integer from empty string".to_string())
    );
    assert_eq!(
        parse_size("18446744073709551616"),
        Err(
            "invalid size \"18446744073709551616\": number too large to fit in target type"
                .to_string()
        )
    );
    assert_eq!(parse_size("-1"), Err("invalid size \"-1\": invalid digit found in string".to_string()));
}

#[test]
fn numbers_are_read_as_the_standard_library_reads_them() {
    for s in [
        "", "+", "-", "0", "+0", "007", "18446744073709551615", "18446744073709551616", "1x", "x1",
        "++1", "99999999999999999999x", " 1",
    ] {
        let want = s.parse::<u64>();
        match parse_number(s) {
            Parsed::Number(n) => assert_eq!(want, Ok(n), "{s:?}"),
            Parsed::Empty => assert_eq!(
                want.unwrap_err().to_string(),
                "cannot parse integer from empty string"
            ),
            Parsed::NoDigit => {
                assert_eq!(want.unwrap_err().to_string(), "invalid digit found in string", "{s:?}")
            }
            Parsed::TooLarge => assert_eq!(
                want.unwrap_err().to_string(),
                "number too large to fit in target type"
            ),
        }
    }
}

#[test]
fn a_clone_says_what_it_could_not_read() {
    assert_eq!(progress(1, 0), "pass 1");
    assert_eq!(progress(2, 2048), "pass 2 - 2.00 KiB unreadable");
    assert_eq!(
        outcome_lines(true, 0, 0, 0, "-", "x.map"),
        vec!["", "Clone is complete: every byte of the source was read."]
    );
    assert_eq!(
        outcome_lines(false, 512, 3, 0xAB, "-", "x.map"),
        vec![
            "",
            "Clone is INCOMPLETE: 512 B could not be read (3 read errors).",
            "Unreadable regions were filled with 0xAB. The image hash therefore does not match the \
             physical device.",
            "Unreadable ranges are the '-' entries in x.map",
        ]
    );
}

#[test]
fn previews_are_bounded() {
    assert_eq!(check_length(512 << 20), Ok(()));
    assert_eq!(
        check_length((512 << 20) + 1),
        Err("previews are limited to 512 MiB of input".to_string())
    );
    let mut png = vec![0u8; 24];
    png[18] = 1;
    png[23] = 9;
    assert_eq!(png_size(&png), (256, 9));
}

#[test]
fn hex_marks_what_lies_in_a_span() {
    let data = b"\x00ABC\x7f0123456789abcdef";
    let lines = hex_lines(0x1000, data, &vec![header_mark(0x1000, 2)]);
    assert_eq!(
        lines,
        vec![
            "        1000  [00][41] 42  43  7f  30  31  32  33  34  35  36  37  38  39  61   .ABC.0123456789a",
            "        1010   62  63  64  65  66   bcdef",
            "  Header 4096..4098: header",
        ]
    );
    assert!(hex_lines(0, &[], &vec![]).is_empty());
}

#[test]
fn the_system_drive_is_refused() {
    let refused = |p: &str, relaxed: bool, b: Option<&str>| {
        guard_system_drive(p, relaxed, &b.map(|s| s.to_string())).err()
    };
    for p in ["/dev/sda", "/DEV/disk0", "\\\\.\\PhysicalDrive0"] {
        assert_eq!(
            refused(p, false, None),
            Some(format!(
                "{p} looks like the system drive. Refusing.\nPoint this at a removable device instead."
            ))
        );
        assert_eq!(refused(p, true, None), None);
    }
    assert_eq!(refused("/dev/sdb", false, None), None);
    assert_eq!(refused("/dev/sdb", false, Some("/dev/sdc,/dev/sdd")), None);
    assert_eq!(
        refused(" /dev/sdD", true, Some("/dev/sdc, /dev/sdd ")),
        Some(" /dev/sdD is the device this program is running from. Refusing.".to_string())
    );
    assert!(lists("a,b", "B"));
    assert!(!lists("a,b", "a,b"));
}

#[test]
fn probes_cover_an_unaligned_offset() {
    let p = probes(8, 1000, 512);
    assert_eq!((p[0].offset, p[0].length), (0, 4096));
    assert_eq!((p[1].offset, p[1].length), (515, 1000));
    assert_eq!((p[2].offset, p[2].length), (256_000, 512));
    assert_eq!(p[1].label, "4K-unaligned byte offset");
    assert_eq!(probes(0, 1000, 512)[0].length, 512);
    assert_eq!(probes(8, 3, 512)[0].length, 1536);
}

/// What a device of two thousand bytes gives, read in every way.
fn reads() -> Reads {
    let dev: Vec<u8> = (0..2000u32).map(|i| (i % 251) as u8).collect();
    let probed = vec![b"a".to_vec(), b"bc".to_vec(), vec![]];
    Reads {
        first: probed.clone(),
        second: probed,
        wide: dev[..1024].to_vec(),
        narrow: dev[519..619].to_vec(),
        aligned: dev[..1024].to_vec(),
        misaligned: dev[..1024].to_vec(),
    }
}

#[test]
fn reads_must_agree() {
    let points = probes(8, 1000, 512);
    let f = compare(&points, &reads(), 512);
    assert_eq!(judge(&f), Ok(()));
    // The hash of "abc", and of nothing.
    let abc = "ba7816bf8f01cfea414140de5dae2223b00361a396177a9cb410ff61f20015ad";
    assert_eq!(f.before, abc);
    assert_eq!(f.after, abc);
    assert_eq!(
        f.probes[2].sha256,
        "e3b0c44298fc1c149afbf4c8996fb92427ae41e4649b934ca495991b7852b855"
    );
    assert_eq!((f.probes[1].got, f.probes[1].requested), (2, 1000));
    assert_eq!(
        probe_line(&f.probes[0]),
        "  LBA 0 (aligned)            offset            0  read     1 of  4096 bytes"
    );
    assert_eq!(
        findings_lines(&f, true),
        vec![
            "".to_string(),
            format!("range sha256 (1st read): {abc}"),
            format!("range sha256 (2nd read): {abc}"),
            "".to_string(),
            "unchanged across reads:      yes".to_string(),
            "unaligned offset matches:    yes".to_string(),
            "misaligned buffer matches:   yes   (bounce path exercised: yes)".to_string(),
        ]
    );

    let mut changed = reads();
    changed.second[0] = b"x".to_vec();
    let f = compare(&points, &changed, 512);
    assert!(judge(&f).unwrap_err().starts_with("the same byte range hashed"));
    assert_eq!(findings_lines(&f, true)[4], "unchanged across reads:      NO");

    let mut shifted = reads();
    shifted.narrow[0] ^= 1;
    let f = compare(&points, &shifted, 512);
    assert!(judge(&f).unwrap_err().starts_with("an unaligned read disagreed"));

    let mut bounced = reads();
    bounced.misaligned[1000] ^= 1;
    let f = compare(&points, &bounced, 512);
    assert!(judge(&f).unwrap_err().starts_with("an unaligned read disagreed"));
    assert_eq!(
        findings_lines(&f, false)[6],
        "misaligned buffer matches:   NO   (bounce path exercised: no - buffer happened to be aligned)"
    );

    let mut both = reads();
    both.misaligned[3] ^= 1;
    both.aligned[3] ^= 1;
    let f = compare(&points, &both, 512);
    assert!(f.buffer_consistent);
    assert!(judge(&f).unwrap_err().starts_with("an unaligned read disagreed"));
}

#[test]
fn verification_shows_both_hashes_where_they_differ() {
    assert_eq!(mark(true), "OK  ");
    assert_eq!(mark(false), "FAIL");
    let mut r = VerifyReport {
        passed: true,
        size_ok: true,
        sha256_ok: true,
        md5_ok: true,
        expected_bytes: 1024,
        actual_bytes: 1024,
        expected_sha256: "aa".to_string(),
        actual_sha256: "aa".to_string(),
        expected_md5: "bb".to_string(),
        actual_md5: "bb".to_string(),
        source_was_incomplete: false,
    };
    assert_eq!(
        verify_lines(&r),
        vec![
            "size    OK    expected 1.00 KiB  actual 1.00 KiB",
            "sha256  OK    aa",
            "md5     OK    bb",
            "",
            "VERIFIED: the image matches its manifest.",
        ]
    );
    r.passed = false;
    r.sha256_ok = false;
    r.md5_ok = false;
    r.actual_sha256 = "cc".to_string();
    r.actual_md5 = "dd".to_string();
    r.source_was_incomplete = true;
    let lines = verify_lines(&r);
    assert_eq!(
        lines[1..7],
        [
            "sha256  FAIL  cc",
            "        expected aa",
            "md5     FAIL  dd",
            "        expected bb",
            "",
            "FAILED: the image does not match its manifest.",
        ]
    );
    assert!(lines[7].starts_with("note: the manifest records an incomplete clone"));
}
