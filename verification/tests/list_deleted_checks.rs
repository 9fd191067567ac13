use rc_carve::cmd::list_deleted::{
    choose_partitions, describe_layout, format_time, list, partition_lines, unreadable, volume,
    volume_lines, DataLocation, Entry, EntryKind, EntryState, Extent, Partition, Selection,
};

#[test]
fn layout_description_separates_fact_from_guess() {
    let (s, exact, n) = describe_layout(&DataLocation::Runs(vec![
        Extent::new(10, 4),
        Extent::new(20, 4),
    ]));
    assert_eq!(s, "2 extents");
    assert!(exact);
    assert_eq!(n, 2);

    let (s, exact, _) = describe_layout(&DataLocation::FirstClusterOnly(42));
    assert!(s.contains("chain lost"));
    assert!(
        !exact,
        "a FAT deleted file's layout is a guess and must not read as exact"
    );
}

#[test]
fn layouts_are_described_to_the_letter() {
    assert_eq!(
        describe_layout(&DataLocation::Resident(vec![1, 2, 3])),
        ("resident (3 bytes)".to_string(), true, 0)
    );
    assert_eq!(
        describe_layout(&DataLocation::Runs(vec![Extent::new(1, 1)])),
        ("1 extent".to_string(), true, 1)
    );
    assert_eq!(
        describe_layout(&DataLocation::FirstClusterOnly(42)),
        (
            "first cluster 42 only (chain lost on delete)".to_string(),
            false,
            0
        )
    );
    assert_eq!(
        describe_layout(&DataLocation::Unknown),
        ("unknown".to_string(), false, 0)
    );
}

#[test]
fn timestamps_render_and_flag_missing_timezones() {
    // 2024-01-01T00:00:00Z
    let ns = 1_704_067_200i64 * 1_000_000_000;
    assert_eq!(format_time(Some(ns), true), "2024-01-01 00:00");
    assert_eq!(
        format_time(Some(ns), false),
        "2024-01-01 00:00?",
        "FAT timestamps must be visibly marked as timezone-less"
    );
    assert_eq!(format_time(None, true), "-");
}

#[test]
fn dates_follow_the_calendar() {
    let day = 86_400i64 * 1_000_000_000;
    assert_eq!(format_time(Some(0), true), "1970-01-01 00:00");
    assert_eq!(format_time(Some(-1), true), "1969-12-31 23:59");
    assert_eq!(format_time(Some(58 * day), true), "1970-02-28 00:00");
    assert_eq!(format_time(Some(59 * day), true), "1970-03-01 00:00");
    // 2000 has a leap day; 1900 had none.
    assert_eq!(format_time(Some(11_016 * day), true), "2000-02-29 00:00");
    assert_eq!(format_time(Some(-25_509 * day), true), "1900-02-28 00:00");
    assert_eq!(format_time(Some(-25_508 * day), true), "1900-03-01 00:00");
    assert_eq!(format_time(Some(i64::MAX), true), "2262-04-11 23:47");
    assert_eq!(format_time(Some(i64::MIN), true), "1677-09-21 00:12");
}

fn entry(name: &str, path: Option<&str>, kind: EntryKind, state: EntryState) -> Entry {
    Entry {
        name: name.to_string(),
        path: path.map(|p| p.to_string()),
        path_confidence: if path.is_some() { "exact" } else { "unknown" }.to_string(),
        kind,
        state,
        size: 2048,
        created: None,
        modified: Some(0),
        accessed: None,
        utc_known: true,
        location: DataLocation::Runs(vec![Extent::new(7, 1)]),
        notes: vec![],
    }
}

fn sample() -> Vec<Entry> {
    vec![
        entry("z.txt", Some("/b/z.txt"), EntryKind::File, EntryState::Deleted),
        entry("lost.jpg", None, EntryKind::File, EntryState::Deleted),
        entry("a.txt", Some("/b/a.txt"), EntryKind::File, EntryState::Deleted),
        entry("kept.txt", Some("/a/kept.txt"), EntryKind::File, EntryState::Allocated),
        entry("b", Some("/b"), EntryKind::Directory, EntryState::Deleted),
        entry("\u{c9}T\u{c9}.TXT", Some("/B/\u{c9}T\u{c9}.TXT"), EntryKind::File, EntryState::Deleted),
    ]
}

fn everything() -> Selection {
    Selection {
        include_allocated: true,
        include_dirs: true,
        filter: None,
    }
}

#[test]
fn a_listing_is_filtered_and_sorted_by_path() {
    let names = |s: &Selection| -> Vec<String> {
        list(&sample(), s).into_iter().map(|e| e.name).collect()
    };
    let deleted_files = Selection {
        include_allocated: false,
        include_dirs: false,
        filter: None,
    };
    assert_eq!(
        names(&deleted_files),
        vec!["\u{c9}T\u{c9}.TXT", "a.txt", "z.txt", "lost.jpg"]
    );
    assert_eq!(
        names(&everything()),
        vec!["\u{c9}T\u{c9}.TXT", "kept.txt", "b", "a.txt", "z.txt", "lost.jpg"]
    );
    // In any case, accents too, and by name where no path is known.
    let filtered = |f: &str| {
        names(&Selection {
            filter: Some(f.to_string()),
            ..everything()
        })
    };
    assert_eq!(filtered("\u{e9}t\u{e9}"), vec!["\u{c9}T\u{c9}.TXT"]);
    assert_eq!(filtered("LOST"), vec!["lost.jpg"]);
    assert_eq!(filtered("/b/"), vec!["\u{c9}T\u{c9}.TXT", "a.txt", "z.txt"]);
    assert!(filtered("nothing").is_empty());
}

#[test]
fn a_volume_is_reported_with_its_counts() {
    let damaged: Vec<String> = (0..25).map(|i| format!("record {i}")).collect();
    let v = volume(
        4096,
        "partition 1".to_string(),
        "NTFS".to_string(),
        &sample(),
        &vec!["a note".to_string()],
        &damaged,
        &everything(),
    );
    assert_eq!((v.deleted_count, v.allocated_count, v.damaged_count), (5, 1, 25));
    assert_eq!(v.damaged.len(), 20);
    let lines = volume_lines(&v, 2);
    assert_eq!(
        lines[0],
        "filesystem: NTFS  (5 deleted, 1 allocated, 25 damaged records)"
    );
    assert_eq!(lines[1], "");
    assert_eq!(lines[2], "state      size      modified          layout    path");
    assert_eq!(
        lines[5],
        "allocated  2.00 KiB  1970-01-01 00:00  1 extent  /a/kept.txt"
    );
    assert_eq!(lines[6], "");
    assert_eq!(lines[7], "(4 more entries; pass --limit 0 to show all)");
    assert_eq!(lines[8], "");
    assert_eq!(lines[9], "note: a note");
    assert_eq!(lines[10], "damaged: record 0");
    assert_eq!(lines.len(), 30);
    let all = volume_lines(&v, 0);
    assert!(all.iter().any(|l| l.ends_with("?/lost.jpg  [unknown]")), "{all:?}");

    let none = unreadable(0, "explicit --offset".to_string(), "no file system".to_string());
    assert_eq!(
        volume_lines(&none, 5),
        vec![
            "filesystem: unreadable  (0 deleted, 0 allocated, 0 damaged records)",
            "",
            "No matching entries.",
            "",
            "note: no file system",
        ]
    );
}

#[test]
fn partitions_are_chosen_and_inferred_ones_are_said_to_be() {
    let part = |index: usize, supported: bool, inferred: bool| Partition {
        index,
        start: 2048,
        sectors: 100,
        offset: 1_048_576 * index as u64,
        fs: if supported { "NTFS" } else { "APFS" }.to_string(),
        supported,
        origin: "GPT".to_string(),
        inferred,
        confidence: 90,
        label: None,
        evidence: vec!["a boot sector".to_string()],
    };
    let parts = vec![part(1, true, false), part(2, false, true)];
    assert_eq!(
        choose_partitions(&parts, None),
        vec![(1_048_576, "partition 1 (NTFS, GPT)".to_string())]
    );
    assert_eq!(
        choose_partitions(&parts, Some(2)),
        vec![(2_097_152, "partition 2 (APFS, GPT)".to_string())]
    );
    assert!(choose_partitions(&parts, Some(3)).is_empty());
    assert_eq!(
        partition_lines(&parts, &vec!["protective MBR".to_string()]),
        vec![
            "#  start LBA  sectors  fs    origin  conf  label",
            "-  ---------  -------  ----  ------  ----  -----",
            "1  2048       100      NTFS  GPT     90%   -",
            "2  2048       100      APFS  GPT     90%   -",
            "note: protective MBR",
            "note: partition 2 was inferred, not read from a partition table:",
            "        a boot sector",
            "",
        ]
    );
    assert_eq!(partition_lines(&vec![], &vec![]), vec!["No partitions found."]);
}
