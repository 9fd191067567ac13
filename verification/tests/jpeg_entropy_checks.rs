use rc_carve::validate::jpeg_entropy::{
    decode_scan, Component, Frame, Huffman, ScanComponent, ScanResult, Tables,
};

/// Bits, packed as a scan packs them.
struct Bits {
    out: Vec<u8>,
    byte: u8,
    n: u8,
}

impl Bits {
    fn new() -> Bits {
        Bits {
            out: vec![],
            byte: 0,
            n: 0,
        }
    }

    fn put(&mut self, bits: &str) {
        for b in bits.bytes() {
            self.byte = self.byte << 1 | (b - b'0');
            self.n += 1;
            if self.n == 8 {
                self.out.push(self.byte);
                if self.byte == 0xFF {
                    self.out.push(0);
                }
                self.byte = 0;
                self.n = 0;
            }
        }
    }

    fn pad(&mut self) {
        while self.n != 0 {
            self.put("1");
        }
    }

    fn marker(&mut self, m: u8) {
        self.pad();
        self.out.extend_from_slice(&[0xFF, m]);
    }
}

fn table(lengths: &[(usize, u8)], values: &[u8]) -> Option<Huffman> {
    let mut counts = [0u8; 16];
    for (len, n) in lengths {
        counts[len - 1] = *n;
    }
    Huffman::new(&counts, values)
}

/// Differences of no bits or two; ends of blocks, long runs, and ones.
fn tables() -> Tables {
    let mut t = Tables::default();
    t.dc[0] = table(&[(2, 2)], &[0, 2]);
    t.ac[0] = table(&[(2, 3)], &[0x00, 0xF0, 0x01]);
    assert!(t.dc[0].is_some() && t.ac[0].is_some());
    t
}

fn gray(width: u16, height: u16) -> Frame {
    Frame {
        precision: 8,
        width,
        height,
        components: vec![Component { id: 1, h: 1, v: 1 }],
        sequential_huffman: true,
    }
}

const ONE: [ScanComponent; 1] = [ScanComponent {
    id: 1,
    dc_table: 0,
    ac_table: 0,
}];

/// A difference of zero, a coefficient of one, and the end of the block.
const BLOCK: &str = "0010100";

#[test]
fn a_scan_decodes_to_the_blocks_of_its_frame() {
    let mut b = Bits::new();
    for _ in 0..4 {
        b.put(BLOCK);
    }
    b.marker(0xD9);
    let mut d = vec![9, 9, 9];
    d.extend_from_slice(&b.out);
    match decode_scan(&d, 3, &gray(16, 16), &ONE, &tables(), 0) {
        ScanResult::Complete { end, mcus, restarts } => {
            assert_eq!((end, mcus, restarts), (3 + 4, 4, 0));
        }
        other => panic!("{other:?}"),
    }
}

#[test]
fn differences_with_bits_and_long_runs_are_stepped_over() {
    let mut b = Bits::new();
    // Two bits of difference, three long runs, a one, and the end.
    b.put("0111");
    b.put("010101");
    b.put("101");
    b.put("00");
    b.marker(0xD9);
    match decode_scan(&b.out, 0, &gray(8, 8), &ONE, &tables(), 0) {
        ScanResult::Complete { end, mcus, .. } => assert_eq!((end, mcus), (b.out.len() - 2, 1)),
        other => panic!("{other:?}"),
    }
}

#[test]
fn restart_markers_arrive_after_their_interval() {
    let mut b = Bits::new();
    b.put(BLOCK);
    b.put(BLOCK);
    b.marker(0xD0);
    b.put(BLOCK);
    b.put(BLOCK);
    b.marker(0xD9);
    match decode_scan(&b.out, 0, &gray(16, 16), &ONE, &tables(), 2) {
        ScanResult::Complete { end, mcus, restarts } => {
            assert_eq!((end, mcus, restarts), (b.out.len() - 2, 4, 1));
        }
        other => panic!("{other:?}"),
    }
    // A marker after the wrong number of blocks is not this file's.
    match decode_scan(&b.out, 0, &gray(16, 16), &ONE, &tables(), 3) {
        ScanResult::Broken { mcus, .. } => assert_eq!(mcus, 2),
        other => panic!("{other:?}"),
    }
}

#[test]
fn data_that_ends_early_is_truncated_at_the_last_whole_block() {
    let mut b = Bits::new();
    for _ in 0..4 {
        b.put(BLOCK);
    }
    b.pad();
    match decode_scan(&b.out[..2], 0, &gray(16, 16), &ONE, &tables(), 0) {
        ScanResult::Truncated { verified_to, mcus } => assert_eq!((verified_to, mcus), (2, 2)),
        other => panic!("{other:?}"),
    }
}

#[test]
fn a_code_that_no_table_holds_breaks_the_scan() {
    let mut b = Bits::new();
    b.put(BLOCK);
    b.put("1101010101010101");
    b.marker(0xD9);
    match decode_scan(&b.out, 0, &gray(16, 16), &ONE, &tables(), 0) {
        ScanResult::Broken { mcus, .. } => assert_eq!(mcus, 1),
        other => panic!("{other:?}"),
    }
}

#[test]
fn a_run_past_the_last_coefficient_breaks_the_scan() {
    let mut b = Bits::new();
    b.put("00");
    b.put("01010101");
    b.put("00");
    b.marker(0xD9);
    assert!(matches!(
        decode_scan(&b.out, 0, &gray(8, 8), &ONE, &tables(), 0),
        ScanResult::Broken { mcus: 0, .. }
    ));
}

#[test]
fn what_is_not_sequential_is_not_decoded() {
    let mut f = gray(16, 16);
    f.sequential_huffman = false;
    assert!(matches!(
        decode_scan(&[0; 8], 0, &f, &ONE, &tables(), 0),
        ScanResult::NotApplicable
    ));
    assert!(matches!(
        decode_scan(&[0; 8], 0, &gray(8, 8), &[], &tables(), 0),
        ScanResult::NotApplicable
    ));
}

#[test]
fn a_table_whose_codes_do_not_fit_is_refused() {
    assert!(table(&[(1, 2)], &[1, 2]).is_some());
    assert!(table(&[(1, 3)], &[1, 2, 3]).is_none());
    assert!(table(&[(1, 2), (2, 1)], &[1, 2, 3]).is_none());
    assert!(table(&[(1, 1)], &[1, 2]).is_none());
    assert!(table(&[], &[]).is_none());
}
