use rc_carve::bifrag::search::{Search, Texture};
use rc_carve::bifrag::{assemble, windows, BifragError, Method, Options, Piece, Reassembly};
use rc_carve::crc32::crc32_parts;
use rc_carve::validate::png::SIGNATURE;
use rc_carve::Status;

#[test]
fn windows_deepen_by_sixteen_up_to_the_maximum() {
    assert_eq!(windows(4096), vec![16, 256, 4096]);
    assert_eq!(windows(1000), vec![16, 256, 1000]);
    assert_eq!(windows(16), vec![16]);
    assert_eq!(windows(8), vec![8]);
}

/// Bits per byte, as the byte histogram has it.
fn entropy(bytes: &[u8]) -> f32 {
    let mut counts = [0u32; 256];
    for &b in bytes {
        counts[b as usize] += 1;
    }
    let n = bytes.len() as f32;
    let mut h = 0.0;
    for &c in counts.iter() {
        if c > 0 {
            let p = c as f32 / n;
            h -= p * p.log2();
        }
    }
    h
}

fn textures(data: &[u8], cluster: usize) -> Vec<Texture> {
    data.chunks(cluster)
        .map(|c| Texture {
            high: entropy(c) > 7.0,
            uniform: entropy(c) < 1.0,
        })
        .collect()
}

fn drive(dev: &[u8], validator: &str, header: u64, opts: &Options) -> Reassembly {
    let mut s = Search::new(validator, header, dev.len() as u64, opts).expect("known validator");
    while let Some(q) = s.request() {
        let from = (q.offset as usize).min(dev.len());
        let to = (from + q.length as usize).min(dev.len());
        let data = &dev[from..to];
        s.feed(data, &textures(data, opts.cluster as usize));
    }
    s.result().expect("done").clone()
}

fn read_back(dev: &[u8], r: &Reassembly) -> Vec<u8> {
    let parts: Vec<Vec<u8>> = r
        .pieces
        .iter()
        .map(|p: &Piece| {
            let from = p.offset as usize;
            let to = (from + p.length as usize).min(dev.len());
            dev[from..to].to_vec()
        })
        .collect();
    assemble(&parts, r.length)
}

fn noise(n: usize, seed: u32) -> Vec<u8> {
    let mut x = seed;
    let mut v = Vec::new();
    for _ in 0..n {
        x = x.wrapping_mul(1664525).wrapping_add(1013904223);
        v.push((x >> 24) as u8);
    }
    v
}

fn chunk(ty: &[u8; 4], data: &[u8]) -> Vec<u8> {
    let mut v = (data.len() as u32).to_be_bytes().to_vec();
    v.extend_from_slice(ty);
    v.extend_from_slice(data);
    v.extend_from_slice(&crc32_parts(&[ty, data]).to_be_bytes());
    v
}

/// A picture of a few clusters, in chunks shorter than one.
fn picture(seed: u32) -> Vec<u8> {
    let mut v = SIGNATURE.to_vec();
    let mut head = 64u32.to_be_bytes().to_vec();
    head.extend_from_slice(&64u32.to_be_bytes());
    head.extend_from_slice(&[8, 2, 0, 0, 0]);
    v.extend(chunk(b"IHDR", &head));
    for i in 0..12 {
        v.extend(chunk(b"IDAT", &noise(300, seed + i)));
    }
    v.extend(chunk(b"IEND", &[]));
    v
}

const CLUSTER: usize = 512;

fn small() -> Options {
    Options {
        cluster: CLUSTER as u64,
        max_gap_clusters: 64,
        ..Default::default()
    }
}

/// The file's clusters laid out with `gap` after the first `cut` of them.
fn split(file: &[u8], cut: usize, gap: &[u8]) -> Vec<u8> {
    let mut dev = vec![0u8; CLUSTER];
    let at = cut * CLUSTER;
    dev.extend_from_slice(&file[..at]);
    dev.extend_from_slice(gap);
    dev.extend_from_slice(&file[at..]);
    while dev.len() % CLUSTER != 0 {
        dev.push(0);
    }
    dev.extend_from_slice(&noise(4 * CLUSTER, 77));
    dev
}

#[test]
fn a_file_in_one_run_needs_no_reassembly() {
    let file = picture(1);
    let dev = split(&file, 2, &[]);
    let r = drive(&dev, "png", CLUSTER as u64, &small());
    assert_eq!(r.status, Status::Valid, "{}", r.detail);
    assert_eq!(r.method, Method::Contiguous);
    assert_eq!(r.length, file.len() as u64);
    assert_eq!(r.fragments(), 1);
    assert_eq!(r.pieces[0].offset, CLUSTER as u64);
    assert_eq!(read_back(&dev, &r), file);
}

#[test]
fn a_file_in_two_pieces_is_put_together() {
    let file = picture(2);
    for gap in [1usize, 3, 20] {
        let dev = split(&file, 3, &noise(gap * CLUSTER, 5));
        let r = drive(&dev, "png", CLUSTER as u64, &small());
        assert_eq!(r.status, Status::Valid, "{}", r.detail);
        assert_eq!(r.method, Method::Sequential { fragments: 2 });
        assert_eq!(r.pieces.len(), 2);
        assert_eq!(r.pieces[0].offset, CLUSTER as u64);
        assert_eq!(r.pieces[0].length, 3 * CLUSTER as u64);
        assert_eq!(r.pieces[1].offset, ((4 + gap) * CLUSTER) as u64);
        assert_eq!(r.window, if gap < 16 { 16 } else { 64 });
        assert!(r.validator_calls > 0);
        assert!(r.validated_bytes > 0);
        assert_eq!(read_back(&dev, &r), file);
    }
}

#[test]
fn a_file_that_never_completes_is_reported_as_far_as_it_goes() {
    let file = picture(3);
    let mut dev = vec![0u8; CLUSTER];
    dev.extend_from_slice(&file[..4 * CLUSTER]);
    dev.extend_from_slice(&noise(40 * CLUSTER, 9));
    let r = drive(&dev, "png", CLUSTER as u64, &small());
    assert_ne!(r.status, Status::Valid);
    assert_eq!(r.length, 1905);
    assert_eq!(
        r.detail,
        "no path through windows up to 64 clusters led to a complete file; best path verified \
         1905 bytes (truncated: a chunk extends past the available data)"
    );
    let back = read_back(&dev, &r);
    assert_eq!(back[..], file[..back.len()]);
}

#[test]
fn the_budget_stops_a_search() {
    let file = picture(4);
    let dev = split(&file, 3, &noise(3 * CLUSTER, 5));
    let opts = Options {
        budget: 1,
        ..small()
    };
    let r = drive(&dev, "png", CLUSTER as u64, &opts);
    assert_ne!(r.status, Status::Valid);
    assert_eq!(r.validator_calls, 1);
    assert!(r.detail.starts_with("validator budget spent; best path verified "));
}

#[test]
fn a_splice_needs_a_validator_to_judge_it() {
    let e = match Search::new("no such \"thing\"", 0, 4096, &Options::default()) {
        Err(e) => e,
        Ok(_) => panic!("accepted"),
    };
    assert!(matches!(&e, BifragError::NoValidator(id) if id == "no such \"thing\""));
    assert_eq!(
        e.message(),
        "no validator named \"no such \\\"thing\\\"\"; reassembly needs one to judge each splice"
    );
}

#[test]
fn assembled_parts_stop_at_the_vouched_length() {
    let parts = vec![vec![1u8, 2, 3], vec![4, 5, 6]];
    assert_eq!(assemble(&parts, 4), vec![1, 2, 3, 4]);
    assert_eq!(assemble(&parts, 60), vec![1, 2, 3, 4, 5, 6]);
    assert_eq!(assemble(&parts, 0), Vec::<u8>::new());
}
