use rc_carve::validate::sqlite::validate;
use rc_carve::validate::sqlite_pages::{walk, Damage, Walked};
use rc_carve::Status;

const PAGES: usize = 10;

/// What a table with an index, a long row and a deleted one is stored as: every
/// run of bytes that is not zero.
const STORED: &[(usize, &[u8])] = &[
    (0, b"SQLite format 3\x00\x02\x00\x01\x01\x00@  \x00\x00\x00\x05\x00\x00\x00\x0a\x00\x00\x00\x0a\x00\x00\x00\x01\x00\x00\x00\x03\x00\x00\x00\x04"),
    (59, b"\x01"),
    (95, b"\x05\x00.c\x01\x0d\x00\x00\x00\x03\x01i\x00\x01\xc2\x01\x91\x01i"),
    (361, b"&\x03\x06\x17\x11\x0f\x01;indexbib\x04CREATE INDEX bi ON b(x)/\x02\x06\x17\x0f\x0f\x01Otablebb\x03CREATE TABLE b(x INTEGER, y TEXT)<\x01\x06\x17\x0f\x0f\x01itableaa\x02CREATE TABLE a(id INTEGER PRIMARY KEY, t TEXT)\x0d\x00\x00\x00\x01\x01\xd2\x00\x01\xd2\x00?"),
    (577, b"\x01\x93"),
    (978, b"\x8b`\x01\x04\x00\x97Ezzzzzzzzzzzzzzzzzzzzzzzzzzzzzzzzzzz\x00\x00\x00\x07\x05\x00\x00\x00\x01\x01\xfb\x00\x00\x00\x00\x06\x01\xfb"),
    (1534, b"\x05.\x0a\x00\x00\x00<\x00\x9b\x00\x01\xfc\x00\xfb\x01`\x01\xc6\x00\xc5\x01*\x01\x90\x01\xf6\x00\xf5\x01Z\x01\xc0\x00\xbf\x01$\x01\x8a\x01\xf0\x00\xef\x01T\x01\xba\x00\xb9\x01\x1e\x01\x84\x01\xea\x00\xe9\x01N\x01\xb4\x00\xb3\x01\x18\x01~\x01\xe4\x00\xe3\x01H\x01\xae\x00\xad\x01\x12\x01x\x01\xde\x00\xdd\x01B\x01\xa8\x00\xa7\x01\x0c\x01r\x01\xd8\x00\xd7\x01<\x01\xa2\x00\xa1\x01\x06\x01l\x01\xd2\x00\xd1\x016\x01\x9c\x00\x9b\x01\x00\x01f\x01\xcc\x00\xcb\x010\x01\x96"),
    (1691, b"\x05\x03\x01\x015<\x05\x03\x01\x01.;\x05\x03\x01\x01':\x05\x03\x01\x01 9\x05\x03\x01\x01\x198\x05\x03\x01\x01\x127\x05\x03\x01\x01\x0b6\x05\x03\x01\x01\x045\x05\x03\x01\x0194\x05\x03\x01\x0123\x05\x03\x01\x01+2\x05\x03\x01\x01$1\x05\x03\x01\x01\x1d0\x05\x03\x01\x01\x16/\x05\x03\x01\x01\x0f.\x05\x03\x01\x01\x08-\x04\x03\x09\x01,\x05\x03\x01\x016+\x05\x03\x01\x01/*\x05\x03\x01\x01()\x05\x03\x01\x01!(\x05\x03\x01\x01\x1a'\x05\x03\x01\x01\x13&\x05\x03\x01\x01\x0c%\x05\x03\x01\x01\x05$\x05\x03\x01\x01:#\x05\x03\x01\x013\x22\x05\x03\x01\x01,!\x05\x03\x01\x01% \x05\x03\x01\x01\x1e\x1f\x05\x03\x01\x01\x17\x1e\x05\x03\x01\x01\x10\x1d\x05\x03\x01\x01\x09\x1c\x05\x03\x01\x01\x02\x1b\x05\x03\x01\x017\x1a\x05\x03\x01\x010\x19\x05\x03\x01\x01)\x18\x05\x03\x01\x01\x22\x17\x05\x03\x01\x01\x1b\x16\x05\x03\x01\x01\x14\x15\x05\x03\x01\x01\x0d\x14\x05\x03\x01\x01\x06\x13\x05\x03\x01\x01;\x12\x05\x03\x01\x014\x11\x05\x03\x01\x01-\x10\x05\x03\x01\x01&\x0f\x05\x03\x01\x01\x1f\x0e\x05\x03\x01\x01\x18\x0d\x05\x03\x01\x01\x11\x0c\x05\x03\x01\x01\x0a\x0b\x05\x03\x01\x01\x03\x0a\x05\x03\x01\x018\x09\x05\x03\x01\x011\x08\x05\x03\x01\x01*\x07\x05\x03\x01\x01#\x06\x05\x03\x01\x01\x1c\x05\x05\x03\x01\x01\x15\x04\x05\x03\x01\x01\x0e\x03\x05\x03\x01\x01\x07\x02\x03\x03\x08\x09\x0d\x00\x00\x00.\x00n\x00\x01\xf9\x01\xf1\x01\xe9\x01\xe1\x01\xd9\x01\xd1\x01\xc9\x01\xc1\x01\xb9\x01\xb1\x01\xa8\x01\x9f\x01\x96\x01\x8d\x01\x84\x01{\x01r\x01i\x01`\x01W\x01N\x01E\x01<\x013\x01*\x01!\x01\x18\x01\x0f\x01\x06\x00\xfd\x00\xf4\x00\xeb\x00\xe2\x00\xd9\x00\xd0\x00\xc7\x00\xbe\x00\xb5\x00\xac\x00\xa3\x00\x9a\x00\x91\x00\x88\x00\x80\x00w\x00n"),
    (2158, b"\x07.\x03\x01\x13\x0fv45\x07-\x03\x01\x13\x08v44\x06,\x03\x09\x13v43\x07+\x03\x01\x136v42\x07*\x03\x01\x13/v41\x07)\x03\x01\x13(v40\x07(\x03\x01\x13!v39\x07'\x03\x01\x13\x1av38\x07&\x03\x01\x13\x13v37\x07%\x03\x01\x13\x0cv36\x07$\x03\x01\x13\x05v35\x07#\x03\x01\x13:v34\x07\x22\x03\x01\x133v33\x07!\x03\x01\x13,v32\x07 \x03\x01\x13%v31\x07\x1f\x03\x01\x13\x1ev30\x07\x1e\x03\x01\x13\x17v29\x07\x1d\x03\x01\x13\x10v28\x07\x1c\x03\x01\x13\x09v27\x07\x1b\x03\x01\x13\x02v26\x07\x1a\x03\x01\x137v25\x07\x19\x03\x01\x130v24\x07\x18\x03\x01\x13)v23\x07\x17\x03\x01\x13\x22v22\x07\x16\x03\x01\x13\x1bv21\x07\x15\x03\x01\x13\x14v20\x07\x14\x03\x01\x13\x0dv19\x07\x13\x03\x01\x13\x06v18\x07\x12\x03\x01\x13;v17\x07\x11\x03\x01\x134v16\x07\x10\x03\x01\x13-v15\x07\x0f\x03\x01\x13&v14\x07\x0e\x03\x01\x13\x1fv13\x07\x0d\x03\x01\x13\x18v12\x07\x0c\x03\x01\x13\x11v11\x07\x0b\x03\x01\x13\x0av10\x06\x0a\x03\x01\x11\x03v9\x06\x09\x03\x01\x118v8\x06\x08\x03\x01\x111v7\x06\x07\x03\x01\x11*v6\x06\x06\x03\x01\x11#v5\x06\x05\x03\x01\x11\x1cv4\x06\x04\x03\x01\x11\x15v3\x06\x03\x03\x01\x11\x0ev2\x06\x02\x03\x01\x11\x07v1\x05\x01\x03\x08\x11v0\x0d\x00\x00\x00\x0e\x01\x82\x00\x01\xf7\x01\xee\x01\xe5\x01\xdc\x01\xd3\x01\xca\x01\xc1\x01\xb8\x01\xaf\x01\xa6\x01\x9d\x01\x94\x01\x8b\x01\x82"),
    (2946, b"\x07<\x03\x01\x135v59\x07;\x03\x01\x13.v58\x07:\x03\x01\x13'v57\x079\x03\x01\x13 v56\x078\x03\x01\x13\x19v55\x077\x03\x01\x13\x12v54\x076\x03\x01\x13\x0bv53\x075\x03\x01\x13\x04v52\x074\x03\x01\x139v51\x073\x03\x01\x132v50\x072\x03\x01\x13+v49\x071\x03\x01\x13$v48\x070\x03\x01\x13\x1dv47\x07/\x03\x01\x13\x16v46\x00\x00\x00\x08zzzzzzzzzzzzzzzzzzzzzzzzzzzzzzzzzzzzzzzzzzzzzzzzzzzzzzzzzzzzzzzzzzzzzzzzzzzzzzzzzzzzzzzzzzzzzzzzzzzzzzzzzzzzzzzzzzzzzzzzzzzzzzzzzzzzzzzzzzzzzzzzzzzzzzzzzzzzzzzzzzzzzzzzzzzzzzzzzzzzzzzzzzzzzzzzzzzzzzzzzzzzzzzzzzzzzzzzzzzzzzzzzzzzzzzzzzzzzzzzzzzzzzzzzzzzzzzzzzzzzzzzzzzzzzzzzzzzzzzzzzzzzzzzzzzzzzzzzzzzzzzzzzzzzzzzzzzzzzzzzzzzzzzzzzzzzzzzzzzzzzzzzzzzzzzzzzzzzzzzzzzzzzzzzzzzzzzzzzzzzzzzzzzzzzzzzzzzzzzzzzzzzzzzzzzzzzzzzzzzzzzzzzzzzzzzzzzzzzzzzzzzzzzzzzzzzzzzzzzzzzzzzzzzzzzzzzzzzzzzzzzzzzzzzzzzzzzzzzzzzzzzzzzz\x00\x00\x00\x09zzzzzzzzzzzzzzzzzzzzzzzzzzzzzzzzzzzzzzzzzzzzzzzzzzzzzzzzzzzzzzzzzzzzzzzzzzzzzzzzzzzzzzzzzzzzzzzzzzzzzzzzzzzzzzzzzzzzzzzzzzzzzzzzzzzzzzzzzzzzzzzzzzzzzzzzzzzzzzzzzzzzzzzzzzzzzzzzzzzzzzzzzzzzzzzzzzzzzzzzzzzzzzzzzzzzzzzzzzzzzzzzzzzzzzzzzzzzzzzzzzzzzzzzzzzzzzzzzzzzzzzzzzzzzzzzzzzzzzzzzzzzzzzzzzzzzzzzzzzzzzzzzzzzzzzzzzzzzzzzzzzzzzzzzzzzzzzzzzzzzzzzzzzzzzzzzzzzzzzzzzzzzzzzzzzzzzzzzzzzzzzzzzzzzzzzzzzzzzzzzzzzzzzzzzzzzzzzzzzzzzzzzzzzzzzzzzzzzzzzzzzzzzzzzzzzzzzzzzzzzzzzzzzzzzzzzzzzzzzzzzzzzzzzzzzzzzzzzzzzzzzzzzzz\x00\x00\x00\x00zzzzzzzzzzzzzzzzzzzzzzzzzzzzzzzzzzzzzzzzzzzzzzzzzzzzzzzzzzzzzzzzzzzzzzzzzzzzzzzzzzzzzzzzzzzzzzzzzzzzzzzzzzzzzzzzzzzzzzzzzzzzzzzzzzzzzzzzzzzzzzzzzzzzzzzzzzzzzzzzzzzzzzzzzzzzzzzzzzzzzzzzzzzzzzzzzzzzzzzzzzzzzzzzzzzzzzzzzzzzzzzzzzzzzzzzzzzzzzzzzzzzzzzzzzzzzzzzzzzzzzzzzzzzzzzzzzzzzzzzzzzzzzzzzzzzzzzzzzzzzzzzzzzzzzzzzzzzzzzzzzzzzzzzzzzzzzzzzzzzzzzzzzzzzzzzzzzzzzzzzzzzzzzzzzzzzzzzzzzzzzzzzzzzzzzzzzzzzzzzzzzzzzzzzzzzzzzzzzzzzzzzzzzzzzzzzzzzzzzzzzzzzzzzz"),
];

const PAGE: usize = 512;

fn stored() -> Vec<u8> {
    let mut d = vec![0u8; PAGES * PAGE];
    for (at, bytes) in STORED {
        d[*at..at + bytes.len()].copy_from_slice(bytes);
    }
    d
}

fn walked(d: &[u8]) -> Result<Walked, Damage> {
    walk(d, PAGE, 0, PAGES as u32, 10, 1, false)
}

#[test]
fn a_real_database_is_walked_to_its_last_page() {
    let d = stored();
    assert_eq!(
        walked(&d),
        Ok(Walked {
            btree_pages: 6,
            overflow_pages: 3,
            freelist_pages: 1,
            trees: 4,
        })
    );
    let out = validate(&d);
    assert_eq!(out.status, Status::Valid, "{}", out.detail);
    assert_eq!(out.length, d.len() as u64);
}

#[test]
fn a_page_of_another_file_is_damage() {
    for page in [2usize, 3, 4, 5, 6] {
        let mut d = stored();
        let at = (page - 1) * PAGE;
        for b in d[at..at + PAGE].iter_mut() {
            *b = 0x5A;
        }
        let e = walked(&d).expect_err("a foreign page");
        assert!(!e.why.is_empty());
        assert!(1 <= e.page && e.page as usize <= PAGES);
    }
}

#[test]
fn a_freelist_that_says_otherwise_is_damage() {
    let d = stored();
    assert!(walk(&d, PAGE, 0, PAGES as u32, 10, 2, false).is_err());
    assert!(walk(&d, PAGE, 0, PAGES as u32, 3, 1, false).is_err());
}

#[test]
fn a_page_that_nothing_leads_to_is_not_judged() {
    let d = stored();
    let w = walk(&d, PAGE, 0, PAGES as u32, 0, 0, false).expect("an orphan is no damage");
    assert_eq!(w.freelist_pages, 0);
    assert_eq!(w.btree_pages, 6);
}

#[test]
fn a_chain_that_runs_into_another_is_damage() {
    let mut d = stored();
    // The first overflow page of the long row is made to lead to a tree.
    let at = 6 * PAGE;
    d[at..at + 4].copy_from_slice(&3u32.to_be_bytes());
    assert!(walked(&d).is_err());
}
