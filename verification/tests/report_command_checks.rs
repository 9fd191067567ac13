use rc_carve::bifrag::{Method, Piece, Reassembly};
use rc_carve::cmd::list_deleted::Partition;
use rc_carve::cmd::mobile::{
    asset_lines, backup_lines, checklist_lines, host_lines, pulled_line, survey_lines, Asset,
    BackupInfo, Checklist, HostBackup, PhoneFile,
};
use rc_carve::cmd::restore::{
    after, band_wanted, extracted_line, plan, rating_notes, restored_lines, Carved, Layout, Step,
};
use rc_carve::cmd::score::{
    parse_band, parse_bands, path_passes, report_lines, volumes, Band, Row,
};
use rc_carve::cmd::sqlite::{of_table, report_lines as database_lines, show, Recovered, TableInfo, Value};
use rc_carve::{SignatureDb, Status};

#[test]
fn bands_are_named_in_any_case() {
    assert_eq!(parse_band("Green"), Ok(Band::Green));
    assert_eq!(parse_band("YELLOW"), Ok(Band::Yellow));
    assert_eq!(parse_band("red"), Ok(Band::Red));
    assert_eq!(
        parse_band("Blue"),
        Err("--band must be green, yellow or red, not blue".to_string())
    );
    let names = |n: &[&str]| n.iter().map(|s| s.to_string()).collect::<Vec<_>>();
    assert_eq!(
        parse_bands(&names(&["red", "green"])),
        Ok(vec![Band::Red, Band::Green])
    );
    assert_eq!(
        parse_bands(&names(&["red", "X", "y"])),
        Err("--band must be green, yellow or red, not x".to_string())
    );
    assert!(band_wanted(&vec![], Band::Red));
    assert!(band_wanted(&vec![Band::Red], Band::Red));
    assert!(!band_wanted(&vec![Band::Red], Band::Green));
}

fn partition(offset: u64, supported: bool) -> Partition {
    Partition {
        index: 1,
        start: offset / 512,
        sectors: 100,
        offset,
        fs: "NTFS".to_string(),
        supported,
        origin: "MBR".to_string(),
        inferred: false,
        confidence: 100,
        label: None,
        evidence: vec![],
    }
}

#[test]
fn volumes_are_those_that_can_be_read() {
    let parts = vec![partition(512, true), partition(1024, false), partition(2048, true)];
    assert_eq!(volumes(Some(7), &parts), vec![7]);
    assert_eq!(volumes(None, &parts), vec![512, 2048]);
    assert_eq!(volumes(None, &vec![partition(512, false)]), vec![0]);
    assert_eq!(volumes(None, &vec![]), vec![0]);
}

#[test]
fn a_filter_ignores_case() {
    assert!(path_passes("/Photos/\u{c9}T\u{c9}.JPG", &Some("\u{e9}t\u{e9}".to_string())));
    assert!(!path_passes("/Photos/a.jpg", &Some("b.jpg".to_string())));
    assert!(path_passes("/x", &None));
}

fn row(path: &str, band: Band, label: &str, value: u64) -> Row {
    Row {
        path: path.to_string(),
        size: 1024,
        band,
        band_label: label.to_string(),
        value,
        reasons: vec![("rule".to_string(), "why".to_string())],
    }
}

#[test]
fn ratings_are_reported_lowest_first() {
    let rows = vec![
        row("/b", Band::Green, "GREEN", 90),
        row("/c", Band::Red, "RED", 5),
        row("/a", Band::Green, "GREEN", 90),
        row("/d", Band::Yellow, "YELLOW", 50),
    ];
    assert_eq!(
        report_lines(&rows, None, 0),
        vec![
            "2 GREEN, 1 YELLOW, 1 RED deleted files",
            "",
            "RED      5   1.00 KiB  /c",
            "         rule: why",
            "",
            "YELLOW  50   1.00 KiB  /d",
            "         rule: why",
            "",
            "GREEN   90   1.00 KiB  /a",
            "         rule: why",
            "",
            "GREEN   90   1.00 KiB  /b",
            "         rule: why",
        ]
    );
    assert_eq!(report_lines(&rows, None, 1).len(), 4);
    let green = report_lines(&rows, Some(Band::Green), 1);
    assert_eq!(green[0], "2 GREEN, 1 YELLOW, 1 RED deleted files");
    assert_eq!(green[2], "GREEN   90   1.00 KiB  /a");
    assert_eq!(green.len(), 4);
}

#[test]
fn a_restored_file_keeps_its_rating() {
    let reasons = vec![("rule".to_string(), "why".to_string())];
    assert_eq!(rating_notes("GREEN", 90, &reasons), vec!["GREEN 90", "rule: why"]);
    let skipped: Vec<(String, String)> =
        (0..25).map(|i| (format!("/f{i}"), "gone".to_string())).collect();
    let lines = restored_lines(3, "out", &skipped);
    assert_eq!(lines[0], "wrote 3 files into out (25 skipped)");
    assert_eq!(lines[1], "  skipped /f0: gone");
    assert_eq!(lines.len(), 21);
    assert_eq!(
        extracted_line(4, "out", 2, 1),
        "wrote 4 files into out (2 reassembled; 1 reassembly attempts did not validate)"
    );
}

fn carved(status: &str, ext: &str, id: &str) -> Carved {
    Carved {
        offset: 0xABC,
        length: 100,
        signature_id: id.to_string(),
        ext: ext.to_string(),
        status: status.to_string(),
        detail: "said".to_string(),
    }
}

#[test]
fn a_validated_candidate_is_written_as_carved() {
    let db = SignatureDb::builtin().expect("builtin");
    match plan(&carved("valid", "png", "png"), &vec![], false, false, &db) {
        Step::Write(o) => {
            assert_eq!(o.name, "png/000000000abc.png");
            assert_eq!(o.spans, vec![(0xABC, 100)]);
            assert_eq!(o.length, 100);
            assert_eq!(o.layout, Layout::Carved);
            assert_eq!(o.source, "carved at byte 2748 (png)");
            assert_eq!(o.note, "validated: said");
        }
        other => panic!("{other:?}"),
    }
    let exts = vec!["png".to_string()];
    assert!(matches!(
        plan(&carved("valid", "PNG", "png"), &exts, false, false, &db),
        Step::Write(_)
    ));
    assert!(matches!(
        plan(&carved("valid", "gif", "gif"), &exts, false, false, &db),
        Step::Skip
    ));
}

#[test]
fn an_incomplete_candidate_is_reassembled_or_written_only_on_request() {
    let db = SignatureDb::builtin().expect("builtin");
    let c = carved("partial", "png", "png");
    assert!(matches!(plan(&c, &vec![], false, false, &db), Step::Skip));
    match plan(&c, &vec![], true, true, &db) {
        Step::Reassemble(v) => assert_eq!(v, "png"),
        other => panic!("{other:?}"),
    }
    match plan(&c, &vec![], false, true, &db) {
        Step::Write(o) => assert_eq!(o.note, "NOT validated (partial): said"),
        other => panic!("{other:?}"),
    }
    // Nothing judges a format that the table does not know.
    assert!(matches!(
        plan(&carved("partial", "x", "no such id"), &vec![], true, false, &db),
        Step::Skip
    ));
}

#[test]
fn what_a_reassembly_comes_to() {
    let c = carved("partial", "png", "png");
    let mut r = Reassembly {
        pieces: vec![
            Piece { offset: 0xABC, length: 512 },
            Piece { offset: 4096, length: 300 },
        ],
        method: Method::Sequential { fragments: 2 },
        status: Status::Valid,
        length: 800,
        validator_calls: 3,
        backtracks: 0,
        validated_bytes: 9,
        prefiltered: 0,
        window: 16,
        detail: "because".to_string(),
    };
    let (out, failed) = after(&c, &r, false);
    let out = out.expect("written");
    assert_eq!(out.spans, vec![(0xABC, 512), (4096, 300)]);
    assert_eq!(out.length, 800);
    assert_eq!(out.layout, Layout::Reassembled);
    assert_eq!(out.note, "2 fragments; validated after reassembly");
    assert_eq!(failed, None);
    r.status = Status::Partial;
    let (out, failed) = after(&c, &r, false);
    assert!(out.is_none());
    assert_eq!(failed.as_deref(), Some("2748: because"));
    let (out, failed) = after(&c, &r, true);
    assert_eq!(out.expect("as carved").note, "NOT validated (partial): said");
    assert!(failed.is_some());
}

fn recovered(table: &str, rowid: Option<i64>, values: Vec<Value>) -> Recovered {
    Recovered {
        table: table.to_string(),
        rowid,
        source: "Freeblock".to_string(),
        file: "a.db".to_string(),
        offset: 77,
        values,
    }
}

#[test]
fn values_are_shown_by_kind() {
    assert_eq!(show(&Value::Null), "NULL");
    assert_eq!(show(&Value::Integer(-5)), "-5");
    assert_eq!(show(&Value::Real("1.5".to_string())), "1.5");
    assert_eq!(show(&Value::Text("a\"b\n".to_string())), "\"a\\\"b\\n\"");
    assert_eq!(
        show(&Value::Text("y".repeat(200))),
        format!("\"{}\"", "y".repeat(80))
    );
    assert_eq!(show(&Value::Blob(vec![1, 2])), "<blob 2 bytes>");
}

#[test]
fn recovered_rows_are_listed_by_table() {
    let tables = vec![TableInfo {
        name: "notes".to_string(),
        columns: vec!["id".to_string(), "body".to_string(), "extra".to_string()],
        live_rows: 4,
    }];
    let rows = vec![
        recovered(
            "notes",
            Some(9),
            vec![Value::Integer(9), Value::Null],
        ),
        recovered("other", None, vec![Value::Integer(1)]),
    ];
    assert_eq!(
        database_lines(&tables, &rows, &vec!["careful".to_string()], 0),
        vec![
            "  table notes                          4 live rows,      1 deleted rows recovered",
            "note: careful",
            "",
            "notes rowid=9 from Freeblock (a.db +77)",
            "    id                   9",
            "",
            "other rowid=? from Freeblock (a.db +77)",
        ]
    );
    assert_eq!(database_lines(&tables, &rows, &vec![], 1).len(), 4);
    let only = of_table(rows.clone(), &Some("other".to_string()));
    assert_eq!(only.len(), 1);
    assert_eq!(only[0].table, "other");
    assert_eq!(of_table(rows, &None).len(), 2);
}

#[test]
fn a_checklist_says_what_is_missing() {
    let mut c = Checklist {
        adb_found: true,
        device_connected: true,
        authorized: true,
        unlocked: None,
        serial: Some("S".to_string()),
        model: Some("M".to_string()),
        api_level: None,
        problems: vec!["unlock it".to_string()],
    };
    assert_eq!(
        checklist_lines(&c),
        vec![
            "[x] adb found",
            "[x] phone connected",
            "[x] USB debugging authorized for this computer",
            "[ ] phone unlocked (not reported by this Android version)",
            "    M (S), API ?",
            "  - unlock it",
        ]
    );
    c.unlocked = Some(true);
    c.authorized = false;
    c.api_level = Some(34);
    c.problems.clear();
    assert_eq!(
        checklist_lines(&c)[2..],
        [
            "[ ] USB debugging authorized for this computer",
            "[x] phone unlocked",
            "    M (S), API 34",
        ]
    );
    c.model = None;
    assert_eq!(checklist_lines(&c).len(), 4);
}

#[test]
fn phone_files_are_listed() {
    let files = vec![
        PhoneFile {
            category: "Trashed".to_string(),
            trashed: true,
            size: 10,
            path: "/sdcard/.trashed-1".to_string(),
            original_name: Some("a.jpg".to_string()),
        },
        PhoneFile {
            category: "Database".to_string(),
            trashed: false,
            size: 2000,
            path: "/sdcard/x.db".to_string(),
            original_name: None,
        },
    ];
    assert_eq!(
        survey_lines(&files, 3),
        vec![
            "2 files (1 trashed); MediaStore reports 3 trashed rows",
            "Trashed            10  /sdcard/.trashed-1  (was a.jpg)",
            "Database         2000  /sdcard/x.db",
        ]
    );
    assert_eq!(
        pulled_line(&vec![true, false, true], &Some("M".to_string()), "out"),
        "pulled 3 files from M into out (1 with a size different from the listing)"
    );
    assert_eq!(
        pulled_line(&vec![], &None, "out"),
        "pulled 0 files from  into out (0 with a size different from the listing)"
    );
}

#[test]
fn backups_are_listed() {
    let roots = vec!["/r1".to_string(), "/r2".to_string()];
    assert_eq!(
        backup_lines(&vec![], &roots),
        vec!["no iOS backups found in:", "  /r1", "  /r2"]
    );
    let b = BackupInfo {
        dir: "/r1/x".to_string(),
        device_name: Some("Phone".to_string()),
        product_type: None,
        product_version: Some("17".to_string()),
        encrypted: true,
    };
    assert_eq!(
        backup_lines(&vec![b], &roots),
        vec!["/r1/x  Phone ( iOS 17)  ENCRYPTED - not supported"]
    );
    let a = Asset {
        directory: Some("DCIM".to_string()),
        filename: None,
        original_filename: Some("IMG.HEIC".to_string()),
        original_present: false,
        derivatives: 2,
    };
    assert_eq!(
        asset_lines(&vec![a]),
        vec![
            "1 assets in Recently Deleted",
            "DCIM/?  (was IMG.HEIC)  original NOT in backup  2 derivative(s)",
        ]
    );
    assert_eq!(
        host_lines(&vec![]),
        vec!["no phone backups or sync caches found under this profile"]
    );
    let h = HostBackup {
        kind: "OneDrive".to_string(),
        files: 12,
        bytes: 3456,
        placeholders: 7,
        path: "/home/x".to_string(),
    };
    assert_eq!(
        host_lines(&vec![h]),
        vec!["OneDrive             12 files         3456 bytes      7 placeholders  /home/x"]
    );
}
