//! RIFF containers - WAV, AVI and WebP - and AIFF.
//!
//! `RIFF` identifies a container, not a format: the form type at offset 8
//! tells WAV, AVI and WebP apart. AIFF is the container RIFF copied, with the
//! bytes of its size fields the other way round.
//!
//! The structural check is that the chunks tile the declared size exactly.
//! Each chunk declares its own length and is padded to an even boundary, and
//! the pad byte is not counted in the size field.

use vstd::prelude::*;
use vstd::slice::*;
use crate::bytes;
use crate::text;
use super::{Outcome, Verdict};

verus! {

broadcast use bytes::slice_fits;

/// Where a chunk walk stopped and what it passed.
#[verifier::ext_equal]
pub struct Chunks {
    /// Where the walk stopped.
    pub at: int,
    /// The ids seen, a list being seen by its list type.
    pub seen: Seq<Seq<u8>>,
    pub count: int,
    /// Whether a chunk ran past the data.
    pub past_end: bool,
}

/// Whether the four bytes at `at` can be a chunk id: printable or a space.
pub open spec fn chunk_id(d: Seq<u8>, at: int) -> bool {
    forall|i: int| at <= i < at + 4 ==> 0x20 <= #[trigger] d[i] <= 0x7E
}

/// `LIST`.
pub open spec fn list_id() -> Seq<u8> {
    seq![0x4Cu8, 0x49, 0x53, 0x54]
}

/// `RIFF`.
pub open spec fn riff_id() -> Seq<u8> {
    seq![0x52u8, 0x49, 0x46, 0x46]
}

/// `FORM`.
pub open spec fn form_id() -> Seq<u8> {
    seq![0x46u8, 0x4F, 0x52, 0x4D]
}

/// The ids seen once the chunk at `at` is too. In RIFF a list counts under the
/// list type that its first four payload bytes name.
pub open spec fn seen_with(d: Seq<u8>, big: bool, at: int, seen: Seq<Seq<u8>>) -> Seq<Seq<u8>> {
    let id = d.subrange(at, at + 4);
    if !big && (id == list_id() || id == riff_id()) {
        if bytes::fits(d, at + 8, 4) {
            seen.push(d.subrange(at + 8, at + 12))
        } else {
            seen
        }
    } else {
        seen.push(id)
    }
}

/// A chunk's payload with its pad byte.
pub open spec fn padded_size(size: int) -> int {
    size + size % 2
}

/// The chunk walk from `w` on, up to `limit`.
pub open spec fn chunks_from(d: Seq<u8>, big: bool, limit: int, w: Chunks) -> Chunks
    decreases d.len() - w.at,
{
    if w.at < 0 || w.at + 8 > limit || !chunk_id(d, w.at) {
        w
    } else {
        let next = w.at + 8 + padded_size(bytes::u32_in(d, w.at + 4, big));
        let seen = seen_with(d, big, w.at, w.seen);
        if next > d.len() {
            Chunks { seen, count: w.count + 1, past_end: true, ..w }
        } else {
            chunks_from(d, big, limit, Chunks { at: next, seen, count: w.count + 1, ..w })
        }
    }
}

/// The chunk walk over the whole container of `total` bytes.
pub open spec fn chunks_of(d: Seq<u8>, big: bool, total: int) -> Chunks {
    chunks_from(
        d,
        big,
        if total <= d.len() {
            total
        } else {
            d.len() as int
        },
        Chunks { at: 12, seen: Seq::empty(), count: 0, past_end: false },
    )
}

/// A chunk that a form must have: its id, and its name.
pub struct Needed {
    pub id: Seq<u8>,
    pub name: Seq<char>,
}

/// The names of the needed chunks, from the `i`-th on, that were not seen.
pub open spec fn missing_from(needed: Seq<Needed>, seen: Seq<Seq<u8>>, i: int) -> Seq<Seq<char>>
    decreases i,
{
    if i <= 0 {
        Seq::empty()
    } else if seen.contains(needed[i - 1].id) {
        missing_from(needed, seen, i - 1)
    } else {
        missing_from(needed, seen, i - 1).push(needed[i - 1].name)
    }
}

/// A form: its type as bytes and as text, the chunks it must have, and the
/// extension it gives.
pub struct Form {
    pub id: Seq<u8>,
    pub name: Seq<char>,
    pub needed: Seq<Needed>,
    /// Whether one of the three WebP bitstream chunks must be there.
    pub bitstream: bool,
    pub ext: Seq<char>,
}

/// `VP8 `, `VP8L` and `VP8X`.
pub open spec fn has_bitstream(seen: Seq<Seq<u8>>) -> bool {
    ||| seen.contains(seq![0x56u8, 0x50, 0x38, 0x20])
    ||| seen.contains(seq![0x56u8, 0x50, 0x38, 0x4C])
    ||| seen.contains(seq![0x56u8, 0x50, 0x38, 0x58])
}

/// Whether a walk over a container of `total` bytes stopped at the end of the
/// data, and not at anything in it.
pub open spec fn ended(d: Seq<u8>, w: Chunks, total: int) -> bool {
    w.past_end || (w.at + 8 > d.len() && d.len() < total)
}

/// What a container whose form is the expected one comes to.
pub open spec fn form_concluded(
    d: Seq<u8>,
    big: bool,
    form: Form,
    total: int,
    none: Seq<char>,
    cut: Seq<char>,
) -> Verdict {
    let w = chunks_of(d, big, total);
    let missing = missing_from(form.needed, w.seen, form.needed.len() as int);
    if w.count == 0 {
        // Either the first chunk id was none, or the data ended before a whole
        // chunk header while the size says there is more.
        Verdict::reject(none).cut_if(ended(d, w, total))
    } else {
        (if form.bitstream && !has_bitstream(w.seen) {
            Verdict::partial(
                w.at,
                "a WEBP container with no VP8, VP8L or VP8X bitstream chunk"@,
            ).cut_if(ended(d, w, total))
        } else if missing.len() > 0 {
            Verdict::partial(
                w.at,
                "required chunk(s) missing: "@ + text::joined(missing, ", "@),
            ).cut_if(ended(d, w, total))
        } else if total > d.len() || w.past_end {
            Verdict::partial(
                w.at,
                "declares "@ + text::dec(total) + " bytes but only "@ + text::dec(d.len() as int)
                    + cut,
            ).cut_if(ended(d, w, total))
        } else if w.at != total {
            Verdict::partial(
                if w.at <= total {
                    w.at
                } else {
                    total
                },
                "the chunks end at "@ + text::dec(w.at) + ", not at the declared "@ + text::dec(
                    total,
                ) + " bytes"@,
            )
        } else {
            Verdict::valid(total)
        }).with_ext(form.ext).with("form"@, form.name).with("chunks"@, text::dec(w.count)).with(
            "declared_bytes"@,
            text::dec(total),
        )
    }
}

/// A RIFF container of the given form. The size field counts everything after
/// itself, so the file is eight bytes longer.
pub open spec fn riff_verdict(d: Seq<u8>, form: Form) -> Verdict {
    let size = bytes::u32_le(d, 4);
    if d.len() < 12 {
        Verdict::reject("shorter than a RIFF header"@).cut_if(bytes::agrees(d, riff_id(), 0) && bytes::agrees(d, form.id, 8))
    } else if !bytes::begins(d, riff_id()) {
        Verdict::reject("does not begin with RIFF"@)
    } else if size < 4 {
        Verdict::reject("the RIFF size field is smaller than its form type"@)
    } else if d.subrange(8, 12) != form.id {
        Verdict::reject(
            "form type is "@ + text::quoted(text::lossy(d.subrange(8, 12))) + ", not "@
                + text::quoted(form.name),
        )
    } else {
        form_concluded(
            d,
            false,
            form,
            size + 8,
            "no chunks follow the RIFF header"@,
            " are available; truncated, so this length runs to the last complete chunk"@,
        )
    }
}

/// `WAVE`, which needs `fmt ` and `data`.
pub open spec fn wav_form() -> Form {
    Form {
        id: seq![0x57u8, 0x41, 0x56, 0x45],
        name: "WAVE"@,
        needed: seq![
            Needed { id: seq![0x66u8, 0x6D, 0x74, 0x20], name: "fmt"@ },
            Needed { id: seq![0x64u8, 0x61, 0x74, 0x61], name: "data"@ },
        ],
        bitstream: false,
        ext: "wav"@,
    }
}

/// `AVI `, which needs the lists `hdrl` and `movi`.
pub open spec fn avi_form() -> Form {
    Form {
        id: seq![0x41u8, 0x56, 0x49, 0x20],
        name: "AVI "@,
        needed: seq![
            Needed { id: seq![0x68u8, 0x64, 0x72, 0x6C], name: "hdrl"@ },
            Needed { id: seq![0x6Du8, 0x6F, 0x76, 0x69], name: "movi"@ },
        ],
        bitstream: false,
        ext: "avi"@,
    }
}

/// `WEBP`, which needs any one of the three bitstream chunks.
pub open spec fn webp_form() -> Form {
    Form {
        id: seq![0x57u8, 0x45, 0x42, 0x50],
        name: "WEBP"@,
        needed: Seq::empty(),
        bitstream: true,
        ext: "webp"@,
    }
}

/// `AIFF`, or `AIFC` where it is compressed, which needs `COMM` and `SSND`.
pub open spec fn aiff_form(compressed: bool) -> Form {
    Form {
        id: if compressed {
            seq![0x41u8, 0x49, 0x46, 0x43]
        } else {
            seq![0x41u8, 0x49, 0x46, 0x46]
        },
        name: if compressed {
            "AIFC"@
        } else {
            "AIFF"@
        },
        needed: seq![
            Needed { id: seq![0x43u8, 0x4F, 0x4D, 0x4D], name: "COMM"@ },
            Needed { id: seq![0x53u8, 0x53, 0x4E, 0x44], name: "SSND"@ },
        ],
        bitstream: false,
        ext: "aiff"@,
    }
}

/// An AIFF file: the same walk with the sizes big-endian.
pub open spec fn aiff_verdict(d: Seq<u8>) -> Verdict {
    let size = bytes::u32_be(d, 4);
    let form = d.subrange(8, 12);
    if d.len() < 12 {
        Verdict::reject("shorter than a FORM header"@).cut_if(bytes::agrees(d, form_id(), 0) && (bytes::agrees(d, aiff_form(false).id, 8) || bytes::agrees(d, aiff_form(true).id, 8)))
    } else if !bytes::begins(d, form_id()) {
        Verdict::reject("does not begin with FORM"@)
    } else if size < 4 {
        Verdict::reject("the FORM size field is smaller than its own form type"@)
    } else if form != aiff_form(false).id && form != aiff_form(true).id {
        Verdict::reject(
            "form type is "@ + text::quoted(text::lossy(form)) + ", not AIFF or AIFC"@,
        )
    } else {
        form_concluded(
            d,
            true,
            aiff_form(form == aiff_form(true).id),
            size + 8,
            "no chunks follow the FORM header"@,
            " are available; truncated"@,
        )
    }
}

/// A walk over the chunks of a container.
struct Walk {
    at: usize,
    seen: Vec<[u8; 4]>,
    count: u64,
    past_end: bool,
}

spec fn ids(v: Seq<[u8; 4]>) -> Seq<Seq<u8>> {
    Seq::new(v.len(), |i: int| v[i]@)
}

impl Walk {
    spec fn view(self) -> Chunks {
        Chunks {
            at: self.at as int,
            seen: ids(self.seen@),
            count: self.count as int,
            past_end: self.past_end,
        }
    }

    /// Whether a chunk with the given id was seen.
    fn saw(&self, id: &[u8; 4]) -> (r: bool)
        ensures
            r == self.view().seen.contains(id@),
    {
        let mut i: usize = 0;
        while i < self.seen.len()
            invariant
                i <= self.seen@.len(),
                forall|j: int| 0 <= j < i ==> #[trigger] ids(self.seen@)[j] != id@,
            decreases self.seen@.len() - i,
        {
            let other = self.seen[i];
            if other[0] == id[0] && other[1] == id[1] && other[2] == id[2] && other[3] == id[3] {
                assert(other@ =~= id@);
                assert(ids(self.seen@)[i as int] == id@);
                return true;
            }
            assert(ids(self.seen@)[i as int] == other@);
            i += 1;
        }
        false
    }
}

fn four(d: &[u8], at: usize) -> (r: [u8; 4])
    requires
        at + 4 <= d@.len(),
    ensures
        r@ == d@.subrange(at as int, at + 4),
{
    let r: [u8; 4] = [d[at], d[at + 1], d[at + 2], d[at + 3]];
    assert(r@ =~= d@.subrange(at as int, at + 4));
    r
}

fn same4(a: &[u8; 4], b: &[u8; 4]) -> (r: bool)
    ensures
        r == (a@ == b@),
{
    let r: bool = a[0] == b[0] && a[1] == b[1] && a[2] == b[2] && a[3] == b[3];
    proof {
        if r {
            assert(a@ =~= b@);
        }
    }
    r
}

fn printable(b: u8) -> (r: bool)
    ensures
        r == (0x20 <= b <= 0x7E),
{
    0x20 <= b && b <= 0x7E
}

/// Walk the chunks of a container of `total` bytes.
fn walk(d: &[u8], big: bool, total: u64) -> (r: Walk)
    requires
        d@.len() >= 12,
        total <= 0x1_0000_0010,
    ensures
        r.view() == chunks_of(d@, big, total as int),
        12 <= r.at <= d@.len(),
{
    let limit: usize = if total <= d.len() as u64 {
        total as usize
    } else {
        d.len()
    };
    let mut w = Walk { at: 12, seen: Vec::new(), count: 0, past_end: false };
    assert(w.view().seen =~= Seq::<Seq<u8>>::empty());
    let list: [u8; 4] = [0x4C, 0x49, 0x53, 0x54];
    let riff: [u8; 4] = [0x52, 0x49, 0x46, 0x46];
    assert(list@ =~= list_id());
    assert(riff@ =~= riff_id());
    while w.at <= limit && 8 <= limit - w.at
        invariant
            12 <= w.at <= d@.len(),
            limit <= d@.len(),
            w.count <= w.at,
            list@ == list_id(),
            riff@ == riff_id(),
            !w.past_end,
            chunks_of(d@, big, total as int) == chunks_from(d@, big, limit as int, w.view()),
        decreases d@.len() - w.at,
    {
        let at: usize = w.at;
        if !(printable(d[at]) && printable(d[at + 1]) && printable(d[at + 2]) && printable(
            d[at + 3],
        )) {
            return w;
        }
        assert(chunk_id(d@, at as int));
        let id = four(d, at);
        let size: u64 = bytes::get32(d, at + 4, big) as u64;
        let ghost before = w.view();
        if !big && (same4(&id, &list) || same4(&id, &riff)) {
            if bytes::has(d, at + 8, 4) {
                w.seen.push(four(d, at + 8));
                assert(ids(w.seen@) =~= before.seen.push(d@.subrange(at + 8, at + 12)));
            }
        } else {
            w.seen.push(id);
            assert(ids(w.seen@) =~= before.seen.push(id@));
        }
        assert(ids(w.seen@) == seen_with(d@, big, at as int, before.seen));
        w.count = w.count + 1;
        let advance: u64 = size + size % 2;
        if advance > (d.len() - at - 8) as u64 {
            w.past_end = true;
            return w;
        }
        w.at = at + 8 + advance as usize;
    }
    w
}

/// A chunk that a form must have.
struct Need {
    id: [u8; 4],
    name: &'static str,
}

spec fn needs(v: Seq<Need>) -> Seq<Needed> {
    Seq::new(v.len(), |i: int| Needed { id: v[i].id@, name: v[i].name@ })
}

/// The names of the needed chunks that were not seen.
fn missing(need: &Vec<Need>, w: &Walk) -> (r: Vec<String>)
    ensures
        text::texts(r@) == missing_from(needs(need@), w.view().seen, need@.len() as int),
{
    let mut out: Vec<String> = Vec::new();
    let mut i: usize = 0;
    assert(text::texts(out@) =~= Seq::<Seq<char>>::empty());
    while i < need.len()
        invariant
            i <= need@.len(),
            text::texts(out@) == missing_from(needs(need@), w.view().seen, i as int),
        decreases need@.len() - i,
    {
        assert(needs(need@)[i as int].id == need@[i as int].id@);
        if !w.saw(&need[i].id) {
            let name = need[i].name.to_owned();
            let ghost before = out@;
            out.push(name);
            assert(text::texts(out@) =~= text::texts(before).push(name@));
        }
        i += 1;
    }
    out
}

/// A form, as the walk checks it.
struct Wanted {
    name: &'static str,
    need: Vec<Need>,
    bitstream: bool,
    ext: &'static str,
}

/// What a container whose form is the expected one comes to.
fn conclude(
    d: &[u8],
    big: bool,
    want: &Wanted,
    total: u64,
    none: &str,
    cut: &str,
    Ghost(form): Ghost<Form>,
) -> (r: Outcome)
    requires
        d@.len() >= 12,
        total <= 0x1_0000_0010,
        form.name == want.name@,
        form.needed == needs(want.need@),
        form.bitstream == want.bitstream,
        form.ext == want.ext@,
    ensures
        r@ == form_concluded(d@, big, form, total as int, none@, cut@),
{
    let w = walk(d, big, total);
    let len: u64 = d.len() as u64;
    let ended: bool = w.past_end || (d.len() - w.at < 8 && len < total);
    if w.count == 0 {
        return Outcome::reject(none).cut_if(ended);
    }
    let absent = missing(&want.need, &w);
    assert(text::texts(absent@).len() == absent@.len());
    let vp8: [u8; 4] = [0x56, 0x50, 0x38, 0x20];
    let vp8l: [u8; 4] = [0x56, 0x50, 0x38, 0x4C];
    let vp8x: [u8; 4] = [0x56, 0x50, 0x38, 0x58];
    assert(vp8@ =~= seq![0x56u8, 0x50, 0x38, 0x20]);
    assert(vp8l@ =~= seq![0x56u8, 0x50, 0x38, 0x4C]);
    assert(vp8x@ =~= seq![0x56u8, 0x50, 0x38, 0x58]);
    let out = if want.bitstream && !(w.saw(&vp8) || w.saw(&vp8l) || w.saw(&vp8x)) {
        Outcome::partial(
            w.at as u64,
            "a WEBP container with no VP8, VP8L or VP8X bitstream chunk",
        ).cut_if(ended)
    } else if absent.len() > 0 {
        Outcome::partial(
            w.at as u64,
            text::cat2("required chunk(s) missing: ", text::join(&absent, ", ").as_str()).as_str(),
        ).cut_if(ended)
    } else if total > len || w.past_end {
        Outcome::partial(
            w.at as u64,
            text::cat5(
                "declares ",
                text::decimal(total).as_str(),
                " bytes but only ",
                text::decimal(len).as_str(),
                cut,
            ).as_str(),
        ).cut_if(ended)
    } else if w.at as u64 != total {
        Outcome::partial(
            if w.at as u64 <= total {
                w.at as u64
            } else {
                total
            },
            text::cat5(
                "the chunks end at ",
                text::decimal(w.at as u64).as_str(),
                ", not at the declared ",
                text::decimal(total).as_str(),
                " bytes",
            ).as_str(),
        )
    } else {
        Outcome::valid(total)
    };
    out.with_ext(want.ext).with("form", want.name).with("chunks", w.count).with(
        "declared_bytes",
        total,
    )
}

/// A RIFF container of the given form.
fn validate_form(d: &[u8], id: [u8; 4], want: &Wanted, Ghost(form): Ghost<Form>) -> (r: Outcome)
    requires
        form.id == id@,
        form.name == want.name@,
        form.needed == needs(want.need@),
        form.bitstream == want.bitstream,
        form.ext == want.ext@,
    ensures
        r@ == riff_verdict(d@, form),
{
    let riff: [u8; 4] = [0x52, 0x49, 0x46, 0x46];
    assert(riff@ =~= riff_id());
    if d.len() < 12 {
        return Outcome::reject("shorter than a RIFF header").cut_if(
            bytes::agrees_at(d, &riff, 0) && bytes::agrees_at(d, &id, 8),
        );
    }
    if !bytes::stands_at(d, &riff, 0) {
        return Outcome::reject("does not begin with RIFF");
    }
    let size: u64 = bytes::get32(d, 4, false) as u64;
    if size < 4 {
        return Outcome::reject("the RIFF size field is smaller than its form type");
    }
    let found = four(d, 8);
    if !same4(&found, &id) {
        return Outcome::reject(
            text::cat4(
                "form type is ",
                text::quote(text::from_lossy(&found).as_str()).as_str(),
                ", not ",
                text::quote(want.name).as_str(),
            ).as_str(),
        );
    }
    conclude(
        d,
        false,
        want,
        size + 8,
        "no chunks follow the RIFF header",
        " are available; truncated, so this length runs to the last complete chunk",
        Ghost(form),
    )
}

/// WAV.
pub fn validate_wav(d: &[u8]) -> (r: Outcome)
    ensures
        r@ == riff_verdict(d@, wav_form()),
{
    let id: [u8; 4] = [0x57, 0x41, 0x56, 0x45];
    let mut need: Vec<Need> = Vec::new();
    need.push(Need { id: [0x66, 0x6D, 0x74, 0x20], name: "fmt" });
    need.push(Need { id: [0x64, 0x61, 0x74, 0x61], name: "data" });
    let want = Wanted { name: "WAVE", need, bitstream: false, ext: "wav" };
    assert(id@ =~= wav_form().id);
    assert(need@[0].id@ =~= wav_form().needed[0].id);
    assert(need@[1].id@ =~= wav_form().needed[1].id);
    assert(needs(need@) =~= wav_form().needed);
    validate_form(d, id, &want, Ghost(wav_form()))
}

/// AVI, which keeps its stream headers and its frames in lists.
pub fn validate_avi(d: &[u8]) -> (r: Outcome)
    ensures
        r@ == riff_verdict(d@, avi_form()),
{
    let id: [u8; 4] = [0x41, 0x56, 0x49, 0x20];
    let mut need: Vec<Need> = Vec::new();
    need.push(Need { id: [0x68, 0x64, 0x72, 0x6C], name: "hdrl" });
    need.push(Need { id: [0x6D, 0x6F, 0x76, 0x69], name: "movi" });
    let want = Wanted { name: "AVI ", need, bitstream: false, ext: "avi" };
    assert(id@ =~= avi_form().id);
    assert(need@[0].id@ =~= avi_form().needed[0].id);
    assert(need@[1].id@ =~= avi_form().needed[1].id);
    assert(needs(need@) =~= avi_form().needed);
    validate_form(d, id, &want, Ghost(avi_form()))
}

/// WebP.
pub fn validate_webp(d: &[u8]) -> (r: Outcome)
    ensures
        r@ == riff_verdict(d@, webp_form()),
{
    let id: [u8; 4] = [0x57, 0x45, 0x42, 0x50];
    let want = Wanted { name: "WEBP", need: Vec::new(), bitstream: true, ext: "webp" };
    assert(id@ =~= webp_form().id);
    assert(needs(want.need@) =~= webp_form().needed);
    validate_form(d, id, &want, Ghost(webp_form()))
}

/// AIFF: the same idea as RIFF with the bytes the other way round.
pub fn validate_aiff(d: &[u8]) -> (r: Outcome)
    ensures
        r@ == aiff_verdict(d@),
{
    let head: [u8; 4] = [0x46, 0x4F, 0x52, 0x4D];
    let plain: [u8; 4] = [0x41, 0x49, 0x46, 0x46];
    let packed: [u8; 4] = [0x41, 0x49, 0x46, 0x43];
    assert(head@ =~= form_id());
    assert(plain@ =~= aiff_form(false).id);
    assert(packed@ =~= aiff_form(true).id);
    if d.len() < 12 {
        return Outcome::reject("shorter than a FORM header").cut_if(
            bytes::agrees_at(d, &head, 0) && (bytes::agrees_at(d, &plain, 8) || bytes::agrees_at(d, &packed, 8)),
        );
    }
    if !bytes::stands_at(d, &head, 0) {
        return Outcome::reject("does not begin with FORM");
    }
    let size: u64 = bytes::get32(d, 4, true) as u64;
    if size < 4 {
        return Outcome::reject("the FORM size field is smaller than its own form type");
    }
    let found = four(d, 8);
    let compressed: bool = same4(&found, &packed);
    if !compressed && !same4(&found, &plain) {
        return Outcome::reject(
            text::cat3(
                "form type is ",
                text::quote(text::from_lossy(&found).as_str()).as_str(),
                ", not AIFF or AIFC",
            ).as_str(),
        );
    }
    let mut need: Vec<Need> = Vec::new();
    need.push(Need { id: [0x43, 0x4F, 0x4D, 0x4D], name: "COMM" });
    need.push(Need { id: [0x53, 0x53, 0x4E, 0x44], name: "SSND" });
    let name: &'static str = if compressed {
        "AIFC"
    } else {
        "AIFF"
    };
    let want = Wanted { name, need, bitstream: false, ext: "aiff" };
    assert(need@[0].id@ =~= aiff_form(compressed).needed[0].id);
    assert(need@[1].id@ =~= aiff_form(compressed).needed[1].id);
    assert(needs(need@) =~= aiff_form(compressed).needed);
    conclude(
        d,
        true,
        &want,
        size + 8,
        "no chunks follow the FORM header",
        " are available; truncated",
        Ghost(aiff_form(compressed)),
    )
}

proof fn chunks_stay_inside(d: Seq<u8>, big: bool, limit: int, w: Chunks)
    requires
        0 <= w.at <= d.len(),
        limit <= d.len(),
    ensures
        0 <= chunks_from(d, big, limit, w).at <= d.len(),
    decreases d.len() - w.at,
{
    if w.at + 8 <= limit && chunk_id(d, w.at) {
        let next = w.at + 8 + padded_size(bytes::u32_in(d, w.at + 4, big));
        let seen = seen_with(d, big, w.at, w.seen);
        if next <= d.len() {
            chunks_stay_inside(
                d,
                big,
                limit,
                Chunks { at: next, seen, count: w.count + 1, ..w },
            );
        }
    }
}

proof fn walk_stays_inside(d: Seq<u8>, big: bool, total: int)
    requires
        d.len() >= 12,
    ensures
        0 <= chunks_of(d, big, total).at <= d.len(),
{
    chunks_stay_inside(
        d,
        big,
        if total <= d.len() {
            total
        } else {
            d.len() as int
        },
        Chunks { at: 12, seen: Seq::empty(), count: 0, past_end: false },
    );
}

/// A rejection claims no length, a complete file is all there, and a damaged
/// one claims no more than was there unless it states its own size.
pub proof fn aiff_is_sound(d: Seq<u8>)
    ensures
        aiff_verdict(d).sound_for(d.len() as int),
{
    let size = bytes::u32_be(d, 4);
    if d.len() >= 12 {
        walk_stays_inside(d, true, size + 8);
    }
}

/// A rejection claims no length, a complete file is all there, and a damaged
/// one claims no more than was there unless it states its own size.
pub proof fn riff_is_sound(d: Seq<u8>, form: Form)
    ensures
        riff_verdict(d, form).sound_for(d.len() as int),
{
    if d.len() >= 12 {
        walk_stays_inside(d, false, bytes::u32_le(d, 4) + 8);
    }
}

} // verus!
