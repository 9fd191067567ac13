use rc_carve::validate::pe::validate;
use rc_carve::Status;

const LFANEW_AT: usize = 0x3C;
const PE_MAGIC: &[u8; 4] = b"PE\0\0";
const COFF: usize = 20;
const SECTION: usize = 40;

fn pe(sections: u16) -> Vec<u8> {
    let lfanew = 0x80usize;
    let opt_size = 224usize;
    let table = lfanew + 4 + COFF + opt_size;
    let data_at = table + SECTION * sections as usize;

    let mut v = vec![0u8; data_at];
    v[0] = b'M';
    v[1] = b'Z';
    v[LFANEW_AT..LFANEW_AT + 4].copy_from_slice(&(lfanew as u32).to_le_bytes());
    v[lfanew..lfanew + 4].copy_from_slice(PE_MAGIC);
    let coff = lfanew + 4;
    v[coff..coff + 2].copy_from_slice(&0x8664u16.to_le_bytes()); // x86-64
    v[coff + 2..coff + 4].copy_from_slice(&sections.to_le_bytes());
    v[coff + 16..coff + 18].copy_from_slice(&(opt_size as u16).to_le_bytes());

    let mut offset = data_at as u32;
    for i in 0..sections as usize {
        let at = table + i * SECTION;
        let size = 512u32;
        v[at + 16..at + 20].copy_from_slice(&size.to_le_bytes());
        v[at + 20..at + 24].copy_from_slice(&offset.to_le_bytes());
        offset += size;
    }
    v.resize(offset as usize, 0x90);
    v
}

#[test]
fn accepts_a_well_formed_pe() {
    let f = pe(3);
    let out = validate(&f);
    assert_eq!(out.status, Status::Valid, "{}", out.detail);
    assert_eq!(out.length, f.len() as u64);
    assert_eq!(out.evidence_of("sections"), Some("3"));
    // {:#X} writes a lowercase 0x prefix with uppercase digits.
    assert_eq!(out.evidence_of("machine"), Some("0x8664"));
}

#[test]
fn pe_trailing_bytes_do_not_extend_the_length() {
    let mut f = pe(2);
    let real = f.len();
    f.extend_from_slice(&[0xCC; 4096]);
    assert_eq!(validate(&f).length, real as u64);
}

/// The reason this validator exists: MZ is two bytes and the fixture has
/// no executables in it at all.
#[test]
fn rejects_chance_mz_pairs() {
    let mut state = 0x0BAD_C0DEu32;
    let mut rejected = 0;
    let trials = 2000;
    for _ in 0..trials {
        let mut v = b"MZ".to_vec();
        for _ in 0..512 {
            state ^= state << 13;
            state ^= state >> 17;
            state ^= state << 5;
            v.push(state as u8);
        }
        if validate(&v).status == Status::Rejected {
            rejected += 1;
        }
    }
    assert_eq!(rejected, trials, "every random MZ must be rejected");
}

#[test]
fn rejects_mz_followed_by_zeros() {
    let mut v = b"MZ".to_vec();
    v.resize(4096, 0);
    assert_eq!(validate(&v).status, Status::Rejected);
}

#[test]
fn rejects_a_pointer_that_does_not_land_on_pe() {
    let mut f = pe(1);
    f[LFANEW_AT..LFANEW_AT + 4].copy_from_slice(&0x40u32.to_le_bytes());
    assert_eq!(validate(&f).status, Status::Rejected);
}

/// A signed binary's certificate table lives past every section, so a
/// section-table walk alone under-reports the file by the size of the
/// signature. Found by the independent corpus on a real, signed
/// interpreter: 98816 reported for a 101477-byte file.
#[test]
fn a_signed_binary_includes_its_certificate_table() {
    let mut f = pe(2);
    let lfanew = 0x80usize;
    let opt = lfanew + 4 + COFF;
    f[opt..opt + 2].copy_from_slice(&0x10Bu16.to_le_bytes()); // PE32
    f[opt + 92..opt + 96].copy_from_slice(&16u32.to_le_bytes()); // 16 directories

    let sections_end = f.len() as u32;
    let cert_size = 2661u32;
    let entry = opt + 96 + 4 * 8;
    f[entry..entry + 4].copy_from_slice(&sections_end.to_le_bytes());
    f[entry + 4..entry + 8].copy_from_slice(&cert_size.to_le_bytes());
    f.resize((sections_end + cert_size) as usize, 0x00);

    let out = validate(&f);
    assert_eq!(out.status, Status::Valid, "{}", out.detail);
    assert_eq!(out.length, f.len() as u64, "the signature was not counted");
    assert_eq!(out.evidence_of("signed"), Some("true"));
}

#[test]
fn an_unsigned_binary_stops_at_the_last_section() {
    let f = pe(2);
    let out = validate(&f);
    assert_eq!(out.length, f.len() as u64);
    assert_eq!(out.evidence_of("signed"), Some("false"));
}

#[test]
fn a_truncated_pe_reports_the_headers_it_could_read() {
    let f = pe(4);
    let out = validate(&f[..f.len() / 2]);
    assert_eq!(out.status, Status::Partial, "{}", out.detail);
    assert!(out.length > 0 && out.length <= (f.len() / 2) as u64);
}

#[test]
fn a_pointer_off_the_mark_stays_off_it() {
    let mut f = pe(1);
    f[LFANEW_AT..LFANEW_AT + 4].copy_from_slice(&0x40u32.to_le_bytes());
    for more in [0usize, 900] {
        f.extend(vec![0x90; more]);
        let out = validate(&f);
        assert_eq!(out.status, Status::Rejected, "{}", out.detail);
        assert!(!out.ran_out);
    }
}

#[test]
fn a_header_past_the_data_leaves_the_dos_header() {
    let mut f = vec![0u8; 0x50];
    f[0] = b'M';
    f[1] = b'Z';
    f[LFANEW_AT..LFANEW_AT + 4].copy_from_slice(&0x400u32.to_le_bytes());
    for more in [0usize, 0x100] {
        f.extend(vec![0u8; more]);
        let out = validate(&f);
        assert_eq!(out.status, Status::Partial, "{}", out.detail);
        assert!(out.ran_out);
        assert_eq!(out.length, 0x40);
    }
    // The section table past the data leaves the COFF header.
    let p = pe(3);
    let out = validate(&p[..0x80 + 4 + COFF + 40]);
    assert_eq!(out.status, Status::Partial, "{}", out.detail);
    assert_eq!(out.length, (0x80 + 4 + COFF) as u64);
}
