use rc_carve::validate::structured::{
    validate_elf, validate_evtx, validate_psd, validate_reg_hive, validate_rtf, validate_tiff,
};
use rc_carve::Status;

// --- RTF ---------------------------------------------------------------

#[test]
fn rtf_ends_at_the_brace_that_closes_the_document() {
    let doc = b"{\\rtf1\\ansi{\\fonttbl{\\f0 Courier;}}Hello world.}".to_vec();
    let out = validate_rtf(&doc);
    assert_eq!(out.status, Status::Valid, "{}", out.detail);
    assert_eq!(out.length, doc.len() as u64);
}

/// The detail a naive brace counter gets wrong.
#[test]
fn rtf_ignores_escaped_braces() {
    let doc = b"{\\rtf1 a \\{ b \\} c }".to_vec();
    let out = validate_rtf(&doc);
    assert_eq!(out.status, Status::Valid, "{}", out.detail);
    assert_eq!(out.length, doc.len() as u64);
}

#[test]
fn rtf_stops_at_its_own_end_not_the_buffer_end() {
    let mut doc = b"{\\rtf1 body }".to_vec();
    let real = doc.len();
    doc.extend_from_slice(b"{\\rtf1 a following document }");
    assert_eq!(validate_rtf(&doc).length, real as u64);
}

#[test]
fn rtf_unclosed_is_partial() {
    let out = validate_rtf(b"{\\rtf1 this never closes");
    assert_eq!(out.status, Status::Partial, "{}", out.detail);
}

#[test]
fn rtf_rejects_a_chance_header() {
    assert_eq!(validate_rtf(b"{\\rtfX nope}").status, Status::Rejected);
}

// --- TIFF --------------------------------------------------------------

fn tiff(big: bool, w: u32, h: u32) -> Vec<u8> {
    let pack16 = |v: u16| {
        if big {
            v.to_be_bytes()
        } else {
            v.to_le_bytes()
        }
    };
    let pack32 = |v: u32| {
        if big {
            v.to_be_bytes()
        } else {
            v.to_le_bytes()
        }
    };
    let strip = (w * h) as usize;
    let entries: [(u16, u16, u32); 8] = [
        (256, 3, w),
        (257, 3, h),
        (258, 3, 8),
        (259, 3, 1),
        (262, 3, 1),
        (273, 4, 0),
        (278, 3, h),
        (279, 4, strip as u32),
    ];
    let ifd_at = 8usize;
    let ifd_size = 2 + 12 * entries.len() + 4;
    let data_at = (ifd_at + ifd_size) as u32;

    let mut v = Vec::new();
    v.extend_from_slice(if big { b"MM" } else { b"II" });
    v.extend_from_slice(&pack16(42));
    v.extend_from_slice(&pack32(ifd_at as u32));
    v.extend_from_slice(&pack16(entries.len() as u16));
    for (tag, typ, value) in entries {
        v.extend_from_slice(&pack16(tag));
        v.extend_from_slice(&pack16(typ));
        v.extend_from_slice(&pack32(1));
        let value = if tag == 273 { data_at } else { value };
        if typ == 3 {
            v.extend_from_slice(&pack16(value as u16));
            v.extend_from_slice(&[0, 0]);
        } else {
            v.extend_from_slice(&pack32(value));
        }
    }
    v.extend_from_slice(&pack32(0));
    v.resize(data_at as usize + strip, 0x7E);
    v
}

#[test]
fn tiff_length_comes_from_the_strip_table_in_both_byte_orders() {
    for big in [false, true] {
        let t = tiff(big, 64, 64);
        let out = validate_tiff(&t);
        assert_eq!(out.status, Status::Valid, "{}", out.detail);
        assert_eq!(out.length, t.len() as u64, "byte order big={big}");
        assert_eq!(
            out.evidence_of("byte_order"),
            Some(if big { "MM" } else { "II" })
        );
    }
}

#[test]
fn tiff_trailing_bytes_do_not_extend_the_length() {
    let mut t = tiff(false, 32, 32);
    let real = t.len();
    t.extend_from_slice(&[0; 4096]);
    assert_eq!(validate_tiff(&t).length, real as u64);
}

#[test]
fn tiff_rejects_a_wrong_magic_number() {
    let mut t = tiff(false, 16, 16);
    t[2..4].copy_from_slice(&43u16.to_le_bytes());
    assert_eq!(validate_tiff(&t).status, Status::Rejected);
}

// --- EVTX --------------------------------------------------------------

fn evtx(chunks: u16) -> Vec<u8> {
    let mut v = b"ElfFile\0".to_vec();
    // Three 8-byte counters, not four: first chunk, last chunk, next record
    // id. The fixed fields begin at offset 32.
    v.extend_from_slice(&0u64.to_le_bytes());
    v.extend_from_slice(&1u64.to_le_bytes());
    v.extend_from_slice(&1u64.to_le_bytes());
    v.extend_from_slice(&128u32.to_le_bytes());
    v.extend_from_slice(&1u16.to_le_bytes());
    v.extend_from_slice(&3u16.to_le_bytes());
    v.extend_from_slice(&4096u16.to_le_bytes());
    v.extend_from_slice(&chunks.to_le_bytes());
    v.resize(4096 + chunks as usize * 65536, 0);
    v
}

#[test]
fn evtx_length_is_the_header_plus_its_chunks() {
    let e = evtx(1);
    let out = validate_evtx(&e);
    assert_eq!(out.status, Status::Valid, "{}", out.detail);
    assert_eq!(out.length, 4096 + 65536);
    assert_eq!(out.evidence_of("chunks"), Some("1"));
}

#[test]
fn evtx_rejects_a_wrong_header_block_size() {
    let mut e = evtx(1);
    e[40..42].copy_from_slice(&512u16.to_le_bytes());
    assert_eq!(validate_evtx(&e).status, Status::Rejected);
}

// --- registry ----------------------------------------------------------

fn hive(bins: u32) -> Vec<u8> {
    let mut v = b"regf".to_vec();
    v.extend_from_slice(&1u32.to_le_bytes());
    v.extend_from_slice(&1u32.to_le_bytes());
    v.extend_from_slice(&0u64.to_le_bytes());
    v.extend_from_slice(&1u32.to_le_bytes()); // major
    v.extend_from_slice(&3u32.to_le_bytes()); // minor
    v.extend_from_slice(&0u32.to_le_bytes()); // file type
    v.extend_from_slice(&1u32.to_le_bytes()); // file format
    v.extend_from_slice(&0x20u32.to_le_bytes()); // root cell
    v.extend_from_slice(&bins.to_le_bytes());
    v.resize(4096 + bins as usize, 0);
    v
}

#[test]
fn hive_length_is_the_base_block_plus_its_bins() {
    let h = hive(4096);
    let out = validate_reg_hive(&h);
    assert_eq!(out.status, Status::Valid, "{}", out.detail);
    assert_eq!(out.length, 8192);
    assert_eq!(out.evidence_of("sequences_match"), Some("true"));
}

#[test]
fn hive_rejects_a_bins_size_that_is_not_a_multiple_of_the_block() {
    let mut h = hive(4096);
    h[40..44].copy_from_slice(&5000u32.to_le_bytes());
    assert_eq!(validate_reg_hive(&h).status, Status::Rejected);
}

// --- PSD ---------------------------------------------------------------

fn psd(w: u32, h: u32, channels: u16, compression: u16) -> Vec<u8> {
    let mut v = b"8BPS".to_vec();
    v.extend_from_slice(&1u16.to_be_bytes());
    v.extend_from_slice(&[0u8; 6]);
    v.extend_from_slice(&channels.to_be_bytes());
    v.extend_from_slice(&h.to_be_bytes());
    v.extend_from_slice(&w.to_be_bytes());
    v.extend_from_slice(&8u16.to_be_bytes()); // depth
    v.extend_from_slice(&3u16.to_be_bytes()); // RGB
    v.extend_from_slice(&0u32.to_be_bytes()); // colour mode data
    v.extend_from_slice(&0u32.to_be_bytes()); // image resources
    v.extend_from_slice(&0u32.to_be_bytes()); // layer and mask
    v.extend_from_slice(&compression.to_be_bytes());
    if compression == 0 {
        v.resize(v.len() + (w * h * channels as u32) as usize, 0x7F);
    }
    v
}

#[test]
fn psd_length_comes_from_its_geometry_when_stored_raw() {
    let p = psd(64, 64, 3, 0);
    let out = validate_psd(&p);
    assert_eq!(out.status, Status::Valid, "{}", out.detail);
    assert_eq!(out.length, p.len() as u64);
    assert_eq!(out.evidence_of("channels"), Some("3"));
}

#[test]
fn psd_trailing_bytes_do_not_extend_the_length() {
    let mut p = psd(32, 32, 3, 0);
    let real = p.len();
    p.extend_from_slice(&[0; 4096]);
    assert_eq!(validate_psd(&p).length, real as u64);
}

/// RLE storage has no length without a row-table walk, so the validator
/// must not invent one.
#[test]
fn psd_rle_does_not_claim_an_established_length() {
    let p = psd(64, 64, 3, 1);
    let out = validate_psd(&p);
    assert_eq!(out.status, Status::Partial, "{}", out.detail);
    assert!(!out.length_established);
}

#[test]
fn psd_rejects_implausible_headers() {
    let mut p = psd(64, 64, 3, 0);
    p[12..14].copy_from_slice(&99u16.to_be_bytes()); // 99 channels
    assert_eq!(validate_psd(&p).status, Status::Rejected);

    let mut p = psd(64, 64, 3, 0);
    p[6] = 1; // reserved byte
    assert_eq!(validate_psd(&p).status, Status::Rejected);
}

// --- ELF ---------------------------------------------------------------

fn elf64(payload: usize) -> Vec<u8> {
    let mut v = b"\x7FELF".to_vec();
    v.extend_from_slice(&[2, 1, 1, 0]);
    v.extend_from_slice(&[0u8; 8]);
    v.extend_from_slice(&2u16.to_le_bytes()); // ET_EXEC
    v.extend_from_slice(&0x3Eu16.to_le_bytes());
    v.extend_from_slice(&1u32.to_le_bytes());
    v.extend_from_slice(&0x400000u64.to_le_bytes()); // e_entry
    v.extend_from_slice(&64u64.to_le_bytes()); // e_phoff
    v.extend_from_slice(&0u64.to_le_bytes()); // e_shoff
    v.extend_from_slice(&0u32.to_le_bytes()); // e_flags
    v.extend_from_slice(&64u16.to_le_bytes()); // e_ehsize
    v.extend_from_slice(&56u16.to_le_bytes()); // e_phentsize
    v.extend_from_slice(&1u16.to_le_bytes()); // e_phnum
    v.extend_from_slice(&0u16.to_le_bytes()); // e_shentsize
    v.extend_from_slice(&0u16.to_le_bytes()); // e_shnum
    v.extend_from_slice(&0u16.to_le_bytes()); // e_shstrndx
    assert_eq!(v.len(), 64);
    // One PT_LOAD covering the whole file.
    let total = 64 + 56 + payload;
    v.extend_from_slice(&1u32.to_le_bytes()); // p_type
    v.extend_from_slice(&5u32.to_le_bytes()); // p_flags
    v.extend_from_slice(&0u64.to_le_bytes()); // p_offset
    v.extend_from_slice(&0x400000u64.to_le_bytes());
    v.extend_from_slice(&0x400000u64.to_le_bytes());
    v.extend_from_slice(&(total as u64).to_le_bytes()); // p_filesz
    v.extend_from_slice(&(total as u64).to_le_bytes());
    v.extend_from_slice(&0x1000u64.to_le_bytes());
    v.resize(total, 0x90);
    v
}

#[test]
fn elf_length_covers_its_segments() {
    let e = elf64(9000);
    let out = validate_elf(&e);
    assert_eq!(out.status, Status::Valid, "{}", out.detail);
    assert_eq!(out.length, e.len() as u64);
    assert_eq!(out.evidence_of("class"), Some("64"));
    assert_eq!(out.evidence_of("segments"), Some("1"));
}

#[test]
fn elf_trailing_bytes_do_not_extend_the_length() {
    let mut e = elf64(2000);
    let real = e.len();
    e.extend_from_slice(&[0; 4096]);
    assert_eq!(validate_elf(&e).length, real as u64);
}

#[test]
fn elf_rejects_a_bad_class_or_version() {
    let mut e = elf64(100);
    e[4] = 7;
    assert_eq!(validate_elf(&e).status, Status::Rejected);

    let mut e = elf64(100);
    e[6] = 2;
    assert_eq!(validate_elf(&e).status, Status::Rejected);
}

#[test]
fn all_of_these_reject_pseudorandom_data_behind_their_signature() {
    let mut state = 0x2468_ACE0u32;
    let mut next = |n: usize| -> Vec<u8> {
        (0..n)
            .map(|_| {
                state ^= state << 13;
                state ^= state >> 17;
                state ^= state << 5;
                state as u8
            })
            .collect()
    };
    for _ in 0..400 {
        let mut v = b"ElfFile\0".to_vec();
        v.extend(next(256));
        assert_eq!(validate_evtx(&v).status, Status::Rejected);

        let mut v = b"regf".to_vec();
        v.extend(next(256));
        assert_eq!(validate_reg_hive(&v).status, Status::Rejected);

        let mut v = b"\x7FELF".to_vec();
        v.extend(next(256));
        assert_ne!(validate_elf(&v).status, Status::Valid);
    }
}

#[test]
fn evtx_and_hive_trailing_bytes_change_nothing() {
    for (file, check) in [
        (evtx(2), validate_evtx as fn(&[u8]) -> rc_carve::Outcome),
        (hive(8192), validate_reg_hive as fn(&[u8]) -> rc_carve::Outcome),
    ] {
        let alone = check(&file);
        assert_eq!(alone.status, Status::Valid, "{}", alone.detail);
        let mut more = file.clone();
        more.extend_from_slice(&[0x7E; 5000]);
        let followed = check(&more);
        assert_eq!(followed.status, Status::Valid);
        assert_eq!(followed.length, alone.length);
        assert_eq!(followed.evidence, alone.evidence);
    }
}

// --- What cannot belong --------------------------------------------------

#[test]
fn a_wrong_tiff_or_elf_stays_wrong() {
    let mut t = tiff(false, 16, 16);
    t[2..4].copy_from_slice(&43u16.to_le_bytes());
    let mut e = elf64(500);
    e[4] = 9;
    for more in [0usize, 5000] {
        t.extend(vec![0x21; more]);
        e.extend(vec![0x21; more]);
        for out in [validate_tiff(&t), validate_elf(&e)] {
            assert_eq!(out.status, Status::Rejected, "{}", out.detail);
            assert!(!out.ran_out);
        }
    }
}

#[test]
fn a_tiff_whose_pixels_are_cut_off_ran_out() {
    let t = tiff(true, 64, 64);
    let out = validate_tiff(&t[..t.len() - 100]);
    assert_eq!(out.status, Status::Partial, "{}", out.detail);
    assert!(out.ran_out);
}

/// Where a value lies past the data, and no strip does, the directories are
/// what is left, and no more data brings strips.
#[test]
fn a_tiff_value_past_the_data_leaves_the_directories() {
    let mut t = tiff(false, 16, 16);
    let dir_end = 8 + 2 + 12 * 8 + 4;
    // The strip offsets become a text that is stored far off.
    let at = 8 + 2 + 12 * 5;
    t[at..at + 2].copy_from_slice(&270u16.to_le_bytes());
    t[at + 2..at + 4].copy_from_slice(&2u16.to_le_bytes());
    t[at + 4..at + 8].copy_from_slice(&50u32.to_le_bytes());
    t[at + 8..at + 12].copy_from_slice(&9000u32.to_le_bytes());
    for more in [0usize, 700] {
        t.extend(vec![0; more]);
        let out = validate_tiff(&t);
        assert_eq!(out.status, Status::Partial, "{}", out.detail);
        assert!(!out.ran_out);
        assert_eq!(out.length, dir_end as u64);
    }
}

/// The entry at `i` of a little-endian TIFF, rewritten.
fn rewrite(t: &mut [u8], i: usize, tag: u16, typ: u16, n: u32, value: u32) {
    let at = 8 + 2 + 12 * i;
    t[at..at + 2].copy_from_slice(&tag.to_le_bytes());
    t[at + 2..at + 4].copy_from_slice(&typ.to_le_bytes());
    t[at + 4..at + 8].copy_from_slice(&n.to_le_bytes());
    t[at + 8..at + 12].copy_from_slice(&value.to_le_bytes());
}

/// A missing width may still come only where an entry points at it.
#[test]
fn a_missing_tiff_dimension_ran_out_only_where_its_value_is_past_the_data() {
    // No width at all, and a text far off.
    let mut t = tiff(false, 16, 16);
    rewrite(&mut t, 0, 270, 2, 50, 9000);
    for more in [0usize, 700] {
        t.extend(vec![0; more]);
        let out = validate_tiff(&t);
        assert_eq!(out.status, Status::Rejected, "{}", out.detail);
        assert!(!out.ran_out);
    }
    // A width whose values are far off.
    let mut t = tiff(false, 16, 16);
    rewrite(&mut t, 0, 256, 4, 3, 9000);
    let out = validate_tiff(&t);
    assert_eq!(out.status, Status::Rejected, "{}", out.detail);
    assert!(out.ran_out);
    // The same, beside a height of zero, which no more data mends.
    rewrite(&mut t, 1, 257, 3, 1, 0);
    let out = validate_tiff(&t);
    assert_eq!(out.status, Status::Rejected, "{}", out.detail);
    assert!(!out.ran_out);
    // With the data there, the width is read.
    let mut t = tiff(false, 16, 16);
    rewrite(&mut t, 0, 256, 4, 3, 400);
    t.resize(500, 0);
    t[400..404].copy_from_slice(&16u32.to_le_bytes());
    let out = validate_tiff(&t);
    assert_eq!(out.status, Status::Valid, "{}", out.detail);
    assert_eq!(out.evidence_of("width"), Some("16"));
}

#[test]
fn tiff_strips_past_the_data_ran_out() {
    let mut t = tiff(false, 16, 16);
    rewrite(&mut t, 5, 273, 4, 3, 9000);
    let out = validate_tiff(&t);
    assert_eq!(out.status, Status::Partial, "{}", out.detail);
    assert!(out.ran_out);
    assert_eq!(out.length, (8 + 2 + 12 * 8 + 4) as u64);
}
