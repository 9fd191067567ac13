//! WAV, AVI, WebP and AIFF containers.

use vstd::prelude::*;
use crate::text;
use super::super::{Status, Verdict, riff};
use super::{be32, le32, stands};

verus! {

broadcast use super::group_read;

/// Whether four bytes are printable characters.
pub open spec fn is_id(d: Seq<u8>, at: int) -> bool {
    &&& 32 <= d[at] <= 126
    &&& 32 <= d[at + 1] <= 126
    &&& 32 <= d[at + 2] <= 126
    &&& 32 <= d[at + 3] <= 126
}

/// The size that the chunk at `at` declares.
pub open spec fn chunk_size(d: Seq<u8>, big: bool, at: int) -> int {
    if big {
        be32(d, at + 4)
    } else {
        le32(d, at + 4)
    }
}

/// Whether the `j`-th chunk is one: an id, a size and as many bytes, with one
/// more where that is odd.
pub open spec fn nth_chunk(d: Seq<u8>, big: bool, total: int, cuts: Seq<int>, j: int) -> bool {
    let n = chunk_size(d, big, cuts[j]);
    &&& 12 <= cuts[j]
    &&& cuts[j] + 8 <= total
    &&& is_id(d, cuts[j])
    &&& cuts[j + 1] == cuts[j] + 8 + (if n % 2 == 1 {
        n + 1
    } else {
        n
    })
}

/// Whether `cuts` are where the chunks of a container of `total` bytes begin,
/// and where the last of them ends, which is where the container does.
pub open spec fn chunks_fill(d: Seq<u8>, big: bool, total: int, cuts: Seq<int>) -> bool {
    &&& cuts.len() > 1
    &&& cuts[0] == 12
    &&& cuts.last() == total
    &&& total <= d.len()
    &&& forall|j: int| 0 <= j < cuts.len() - 1 ==> #[trigger] nth_chunk(d, big, total, cuts, j)
}

/// Whether the chunk at `at` goes by the name `id`: its own, or in RIFF, where
/// it is a list, the type of the list.
pub open spec fn goes_by(d: Seq<u8>, big: bool, at: int, id: Seq<u8>) -> bool {
    if !big && (stands(d, seq![76u8, 73, 83, 84], at) || stands(d, seq![82u8, 73, 70, 70], at)) {
        stands(d, id, at + 8)
    } else {
        stands(d, id, at)
    }
}

/// Whether one of the first `n` chunks goes by the name `id`.
pub open spec fn has_chunk(d: Seq<u8>, big: bool, cuts: Seq<int>, n: int, id: Seq<u8>) -> bool {
    exists|j: int| 0 <= j < n && #[trigger] goes_by(d, big, cuts[j], id)
}

proof fn named(d: Seq<u8>, at: int, id: Seq<u8>)
    requires
        0 <= at,
        at + 4 <= d.len(),
        id.len() == 4,
    ensures
        d.subrange(at, at + 4) == id <==> stands(d, id, at),
{
    if stands(d, id, at) {
        assert(d.subrange(at, at + 4) =~= id);
    }
    if d.subrange(at, at + 4) == id {
        assert forall|i: int| 0 <= i < id.len() implies d[at + i] == #[trigger] id[i] by {
            assert(d.subrange(at, at + 4)[i] == d[at + i]);
        }
    }
}

proof fn one_more_seen(d: Seq<u8>, big: bool, at: int, seen: Seq<Seq<u8>>, id: Seq<u8>)
    requires
        0 <= at,
        at + 8 <= d.len(),
        id.len() == 4,
    ensures
        riff::seen_with(d, big, at, seen).contains(id) <==> seen.contains(id) || goes_by(
            d,
            big,
            at,
            id,
        ),
{
    let list = seq![76u8, 73, 83, 84];
    let whole = seq![82u8, 73, 70, 70];
    assert(riff::list_id() =~= list);
    assert(riff::riff_id() =~= whole);
    named(d, at, list);
    named(d, at, whole);
    named(d, at, id);
    if at + 12 <= d.len() {
        named(d, at + 8, id);
    }
    let now = riff::seen_with(d, big, at, seen);
    if seen.contains(id) {
        let k = choose|k: int| 0 <= k < seen.len() && seen[k] == id;
        assert(now[k] == id);
    }
    if now.len() > seen.len() {
        assert(now.last() == now[seen.len() as int]);
        if now.contains(id) {
            let k = choose|k: int| 0 <= k < now.len() && now[k] == id;
            if k < seen.len() {
                assert(seen[k] == id);
            }
        }
        if now.last() == id {
            assert(now[seen.len() as int] == id);
        }
    }
}

/// How the walk has come along after `j` chunks.
spec fn walked(d: Seq<u8>, big: bool, cuts: Seq<int>, w: riff::Chunks, j: int) -> bool {
    &&& w.at == cuts[j]
    &&& w.count == j
    &&& !w.past_end
    &&& forall|id: Seq<u8>|
        id.len() == 4 ==> (#[trigger] w.seen.contains(id) <==> has_chunk(d, big, cuts, j, id))
}

proof fn cuts_rise(d: Seq<u8>, big: bool, total: int, cuts: Seq<int>, j: int)
    requires
        chunks_fill(d, big, total, cuts),
        0 <= j < cuts.len(),
    ensures
        12 <= cuts[j] <= total,
    decreases cuts.len() - j,
{
    if j < cuts.len() - 1 {
        assert(nth_chunk(d, big, total, cuts, j));
        cuts_rise(d, big, total, cuts, j + 1);
    } else {
        assert(nth_chunk(d, big, total, cuts, j - 1));
    }
}

proof fn along_the_chunks(
    d: Seq<u8>,
    big: bool,
    total: int,
    cuts: Seq<int>,
    w: riff::Chunks,
    j: int,
)
    requires
        chunks_fill(d, big, total, cuts),
        0 <= j < cuts.len(),
        walked(d, big, cuts, w, j),
    ensures
        walked(d, big, cuts, riff::chunks_from(d, big, total, w), cuts.len() - 1),
    decreases cuts.len() - j,
{
    cuts_rise(d, big, total, cuts, j);
    if j < cuts.len() - 1 {
        assert(nth_chunk(d, big, total, cuts, j));
        cuts_rise(d, big, total, cuts, j + 1);
        assert(riff::chunk_id(d, w.at));
        let seen = riff::seen_with(d, big, w.at, w.seen);
        let w1 = riff::Chunks { at: cuts[j + 1], seen, count: w.count + 1, ..w };
        assert forall|id: Seq<u8>| id.len() == 4 implies (#[trigger] seen.contains(id)
            <==> has_chunk(d, big, cuts, j + 1, id)) by {
            one_more_seen(d, big, w.at, w.seen, id);
            if has_chunk(d, big, cuts, j, id) {
                let k = choose|k: int| 0 <= k < j && #[trigger] goes_by(d, big, cuts[k], id);
                assert(0 <= k < j + 1 && goes_by(d, big, cuts[k], id));
            }
            if goes_by(d, big, cuts[j], id) {
                assert(0 <= j < j + 1 && goes_by(d, big, cuts[j], id));
            }
            assert(w.seen.contains(id) <==> has_chunk(d, big, cuts, j, id));
        }
        along_the_chunks(d, big, total, cuts, w1, j + 1);
    }
}

proof fn walk_read(d: Seq<u8>, big: bool, total: int, cuts: Seq<int>)
    requires
        chunks_fill(d, big, total, cuts),
    ensures
        walked(d, big, cuts, riff::chunks_of(d, big, total), cuts.len() - 1),
{
    let w = riff::Chunks { at: 12, seen: Seq::empty(), count: 0, past_end: false };
    assert forall|id: Seq<u8>| id.len() == 4 implies (#[trigger] w.seen.contains(id) <==> has_chunk(
        d,
        big,
        cuts,
        0,
        id,
    )) by {}
    assert(walked(d, big, cuts, w, 0));
    along_the_chunks(d, big, total, cuts, w, 0);
}

/// Whether `v` says that a container of the given form is complete.
pub open spec fn container(
    v: Verdict,
    ext: Seq<char>,
    form: Seq<char>,
    chunks: int,
    total: int,
) -> bool {
    &&& v.status == Status::Valid
    &&& v.length == total
    &&& v.refined_ext == Some(ext)
    &&& v.evidence == seq![
        ("form"@, form),
        ("chunks"@, text::dec(chunks)),
        ("declared_bytes"@, text::dec(total)),
    ]
}

/// Whether the header of a RIFF file of this form stands, with the size of all
/// that follows the first eight bytes.
pub open spec fn riff_header(d: Seq<u8>, form: Seq<u8>, total: int) -> bool {
    &&& d.len() >= 12
    &&& stands(d, seq![82u8, 73, 70, 70], 0)
    &&& stands(d, form, 8)
    &&& total == le32(d, 4) + 8
}

/// Two needed chunks are there, or one of them is missing.
proof fn needed_read(d: Seq<u8>, big: bool, cuts: Seq<int>, seen: Seq<Seq<u8>>, form: riff::Form)
    requires
        form.needed.len() == 2,
        form.needed[0].id.len() == 4,
        form.needed[1].id.len() == 4,
        forall|id: Seq<u8>|
            id.len() == 4 ==> (#[trigger] seen.contains(id) <==> has_chunk(
                d,
                big,
                cuts,
                cuts.len() - 1,
                id,
            )),
    ensures
        riff::missing_from(form.needed, seen, 2).len() == 0 <==> {
            &&& has_chunk(d, big, cuts, cuts.len() - 1, form.needed[0].id)
            &&& has_chunk(d, big, cuts, cuts.len() - 1, form.needed[1].id)
        },
{
    reveal_with_fuel(riff::missing_from, 3);
    assert(seen.contains(form.needed[0].id) <==> has_chunk(
        d,
        big,
        cuts,
        cuts.len() - 1,
        form.needed[0].id,
    ));
    assert(seen.contains(form.needed[1].id) <==> has_chunk(
        d,
        big,
        cuts,
        cuts.len() - 1,
        form.needed[1].id,
    ));
}

/// A WAV file whose chunks fill it is complete exactly where a format and data
/// are among them, and is as long as its header says.
pub proof fn a_wav_has_a_format_and_data(d: Seq<u8>, total: int, cuts: Seq<int>)
    requires
        riff_header(d, seq![87u8, 65, 86, 69], total),
        chunks_fill(d, false, total, cuts),
    ensures
        ({
            let v = riff::riff_verdict(d, riff::wav_form());
            let n = cuts.len() - 1;
            if has_chunk(d, false, cuts, n, seq![102u8, 109, 116, 32]) && has_chunk(
                d,
                false,
                cuts,
                n,
                seq![100u8, 97, 116, 97],
            ) {
                container(v, "wav"@, "WAVE"@, n, total)
            } else {
                v.status == Status::Partial && v.length == total && !v.ran_out
            }
        }),
{
    let form = riff::wav_form();
    assert(riff::riff_id() =~= seq![82u8, 73, 70, 70]);
    named(d, 8, form.id);
    assert(form.id =~= seq![87u8, 65, 86, 69]);
    assert(form.needed[0].id =~= seq![102u8, 109, 116, 32]);
    assert(form.needed[1].id =~= seq![100u8, 97, 116, 97]);
    walk_read(d, false, total, cuts);
    needed_read(d, false, cuts, riff::chunks_of(d, false, total).seen, form);
    cuts_rise(d, false, total, cuts, cuts.len() - 1);
    assert(nth_chunk(d, false, total, cuts, 0));
    let v = riff::riff_verdict(d, form);
    if v.status == Status::Valid {
        assert(v.evidence =~= seq![
            ("form"@, "WAVE"@),
            ("chunks"@, text::dec(cuts.len() - 1)),
            ("declared_bytes"@, text::dec(total)),
        ]);
    }
}

/// An AVI file whose chunks fill it is complete exactly where the lists of
/// headers and of frames are among them.
pub proof fn an_avi_has_headers_and_frames(d: Seq<u8>, total: int, cuts: Seq<int>)
    requires
        riff_header(d, seq![65u8, 86, 73, 32], total),
        chunks_fill(d, false, total, cuts),
    ensures
        ({
            let v = riff::riff_verdict(d, riff::avi_form());
            let n = cuts.len() - 1;
            if has_chunk(d, false, cuts, n, seq![104u8, 100, 114, 108]) && has_chunk(
                d,
                false,
                cuts,
                n,
                seq![109u8, 111, 118, 105],
            ) {
                container(v, "avi"@, "AVI "@, n, total)
            } else {
                v.status == Status::Partial && v.length == total && !v.ran_out
            }
        }),
{
    let form = riff::avi_form();
    assert(riff::riff_id() =~= seq![82u8, 73, 70, 70]);
    named(d, 8, form.id);
    assert(form.id =~= seq![65u8, 86, 73, 32]);
    assert(form.needed[0].id =~= seq![104u8, 100, 114, 108]);
    assert(form.needed[1].id =~= seq![109u8, 111, 118, 105]);
    walk_read(d, false, total, cuts);
    needed_read(d, false, cuts, riff::chunks_of(d, false, total).seen, form);
    cuts_rise(d, false, total, cuts, cuts.len() - 1);
    assert(nth_chunk(d, false, total, cuts, 0));
    let v = riff::riff_verdict(d, form);
    if v.status == Status::Valid {
        assert(v.evidence =~= seq![
            ("form"@, "AVI "@),
            ("chunks"@, text::dec(cuts.len() - 1)),
            ("declared_bytes"@, text::dec(total)),
        ]);
    }
}

/// A WebP file whose chunks fill it is complete exactly where a lossy, a
/// lossless or an extended image is among them.
pub proof fn a_webp_has_an_image(d: Seq<u8>, total: int, cuts: Seq<int>)
    requires
        riff_header(d, seq![87u8, 69, 66, 80], total),
        chunks_fill(d, false, total, cuts),
    ensures
        ({
            let v = riff::riff_verdict(d, riff::webp_form());
            let n = cuts.len() - 1;
            if has_chunk(d, false, cuts, n, seq![86u8, 80, 56, 32]) || has_chunk(
                d,
                false,
                cuts,
                n,
                seq![86u8, 80, 56, 76],
            ) || has_chunk(d, false, cuts, n, seq![86u8, 80, 56, 88]) {
                container(v, "webp"@, "WEBP"@, n, total)
            } else {
                v.status == Status::Partial && v.length == total && !v.ran_out
            }
        }),
{
    let form = riff::webp_form();
    assert(riff::riff_id() =~= seq![82u8, 73, 70, 70]);
    named(d, 8, form.id);
    assert(form.id =~= seq![87u8, 69, 66, 80]);
    walk_read(d, false, total, cuts);
    let seen = riff::chunks_of(d, false, total).seen;
    let n = cuts.len() - 1;
    assert(seq![0x56u8, 0x50, 0x38, 0x20] =~= seq![86u8, 80, 56, 32]);
    assert(seq![0x56u8, 0x50, 0x38, 0x4C] =~= seq![86u8, 80, 56, 76]);
    assert(seq![0x56u8, 0x50, 0x38, 0x58] =~= seq![86u8, 80, 56, 88]);
    assert(seen.contains(seq![86u8, 80, 56, 32]) <==> has_chunk(
        d,
        false,
        cuts,
        n,
        seq![86u8, 80, 56, 32],
    ));
    assert(seen.contains(seq![86u8, 80, 56, 76]) <==> has_chunk(
        d,
        false,
        cuts,
        n,
        seq![86u8, 80, 56, 76],
    ));
    assert(seen.contains(seq![86u8, 80, 56, 88]) <==> has_chunk(
        d,
        false,
        cuts,
        n,
        seq![86u8, 80, 56, 88],
    ));
    cuts_rise(d, false, total, cuts, n);
    assert(nth_chunk(d, false, total, cuts, 0));
    let v = riff::riff_verdict(d, form);
    if v.status == Status::Valid {
        assert(v.evidence =~= seq![
            ("form"@, "WEBP"@),
            ("chunks"@, text::dec(cuts.len() - 1)),
            ("declared_bytes"@, text::dec(total)),
        ]);
    }
}

/// An AIFF or AIFC file, whose numbers have the high byte first, is complete,
/// where its chunks fill it, exactly where a description and sound are among
/// them.
pub proof fn an_aiff_has_a_description_and_sound(d: Seq<u8>, total: int, cuts: Seq<int>)
    requires
        d.len() >= 12,
        stands(d, seq![70u8, 79, 82, 77], 0),
        stands(d, seq![65u8, 73, 70, 70], 8) || stands(d, seq![65u8, 73, 70, 67], 8),
        total == be32(d, 4) + 8,
        chunks_fill(d, true, total, cuts),
    ensures
        ({
            let v = riff::aiff_verdict(d);
            let n = cuts.len() - 1;
            if has_chunk(d, true, cuts, n, seq![67u8, 79, 77, 77]) && has_chunk(
                d,
                true,
                cuts,
                n,
                seq![83u8, 83, 78, 68],
            ) {
                container(
                    v,
                    "aiff"@,
                    if d[11] == 67 {
                        "AIFC"@
                    } else {
                        "AIFF"@
                    },
                    n,
                    total,
                )
            } else {
                v.status == Status::Partial && v.length == total && !v.ran_out
            }
        }),
{
    assert(riff::form_id() =~= seq![70u8, 79, 82, 77]);
    let plain = riff::aiff_form(false);
    let packed = riff::aiff_form(true);
    named(d, 8, plain.id);
    named(d, 8, packed.id);
    assert(plain.id =~= seq![65u8, 73, 70, 70]);
    assert(packed.id =~= seq![65u8, 73, 70, 67]);
    if stands(d, plain.id, 8) {
        assert(d[8int + 3] == plain.id[3]);
    }
    if stands(d, packed.id, 8) {
        assert(d[8int + 3] == packed.id[3]);
    }
    let form = riff::aiff_form(d.subrange(8, 12) == packed.id);
    assert(form.needed[0].id =~= seq![67u8, 79, 77, 77]);
    assert(form.needed[1].id =~= seq![83u8, 83, 78, 68]);
    walk_read(d, true, total, cuts);
    needed_read(d, true, cuts, riff::chunks_of(d, true, total).seen, form);
    cuts_rise(d, true, total, cuts, cuts.len() - 1);
    assert(nth_chunk(d, true, total, cuts, 0));
    let v = riff::aiff_verdict(d);
    if v.status == Status::Valid {
        assert(v.evidence =~= seq![
            ("form"@, form.name),
            ("chunks"@, text::dec(cuts.len() - 1)),
            ("declared_bytes"@, text::dec(total)),
        ]);
    }
}

/// Whether `cuts` are where the first chunks of a container of `total` bytes
/// begin, all of them there, and where the last of them ends.
pub open spec fn chunks_begin(d: Seq<u8>, big: bool, total: int, cuts: Seq<int>) -> bool {
    &&& cuts.len() > 0
    &&& cuts[0] == 12
    &&& forall|j: int|
        0 <= j < cuts.len() - 1 ==> #[trigger] nth_chunk(d, big, total, cuts, j) && cuts[j + 1]
            <= d.len()
}

proof fn past_whole_chunks(
    d: Seq<u8>,
    big: bool,
    total: int,
    cuts: Seq<int>,
    w: riff::Chunks,
    j: int,
) -> (e: riff::Chunks)
    requires
        chunks_begin(d, big, total, cuts),
        0 <= j < cuts.len(),
        w.at == cuts[j],
        w.count == j,
        !w.past_end,
    ensures
        e.at == cuts.last(),
        e.count == cuts.len() - 1,
        !e.past_end,
        ({
            let limit = if total <= d.len() {
                total
            } else {
                d.len() as int
            };
            riff::chunks_from(d, big, limit, w) == riff::chunks_from(d, big, limit, e)
        }),
    decreases cuts.len() - j,
{
    if j < cuts.len() - 1 {
        assert(nth_chunk(d, big, total, cuts, j));
        assert(riff::chunk_id(d, w.at));
        let seen = riff::seen_with(d, big, w.at, w.seen);
        let next = riff::Chunks { at: cuts[j + 1], seen, count: w.count + 1, ..w };
        past_whole_chunks(d, big, total, cuts, next, j + 1)
    } else {
        w
    }
}

/// Whether the chunk at `at`, behind those that are whole, is not whole itself:
/// the data ends in it, it is no chunk, or there is none.
pub open spec fn breaks_off(d: Seq<u8>, big: bool, total: int, at: int) -> bool {
    ||| at + 8 > total
    ||| at + 8 > d.len()
    ||| !is_id(d, at)
    ||| runs_out(d, big, total, at)
}

/// Whether the data ends in the chunk at `at`.
pub open spec fn runs_out(d: Seq<u8>, big: bool, total: int, at: int) -> bool {
    &&& at + 8 <= total
    &&& at + 8 <= d.len()
    &&& is_id(d, at)
    &&& at + 8 + chunk_size(d, big, at) + chunk_size(d, big, at) % 2 > d.len()
}

proof fn broken_off(d: Seq<u8>, big: bool, form: riff::Form, total: int, cuts: Seq<int>, v: Verdict)
    requires
        chunks_begin(d, big, total, cuts),
        breaks_off(d, big, total, cuts.last()),
        cuts.last() != total || total > d.len(),
        d.len() >= 12,
        exists|none: Seq<char>, cut: Seq<char>|
            v == #[trigger] riff::form_concluded(d, big, form, total, none, cut),
    ensures
        ({
            let at = cuts.last();
            let more = runs_out(d, big, total, at);
            &&& v.status == (if cuts.len() > 1 || more {
                Status::Partial
            } else {
                Status::Rejected
            })
            &&& v.ran_out == (more || at + 8 > d.len() && d.len() < total)
            &&& v.status == Status::Partial && at <= total ==> v.length == at
            &&& v.status == Status::Partial ==> v.refined_ext == Some(form.ext)
        }),
{
    let w = riff::Chunks { at: 12, seen: Seq::empty(), count: 0, past_end: false };
    let e = past_whole_chunks(d, big, total, cuts, w, 0);
    let at = cuts.last();
    if cuts.len() > 1 {
        assert(nth_chunk(d, big, total, cuts, cuts.len() - 2));
    }
    assert(at <= d.len());
    if at + 8 <= d.len() {
        assert(riff::chunk_id(d, at) == is_id(d, at)) by {
            if is_id(d, at) {
                assert forall|i: int| at <= i < at + 4 implies 0x20 <= #[trigger] d[i] <= 0x7E by {}
            }
        }
    }
}

/// A RIFF file whose chunks do not fill it is not complete: it keeps its whole
/// chunks, and where the data ends before its declared end, that is said.
/// Without any chunk it is none.
pub proof fn a_riff_cut_short_keeps_its_whole_chunks(
    d: Seq<u8>,
    form: riff::Form,
    total: int,
    cuts: Seq<int>,
)
    requires
        form.id.len() == 4,
        riff_header(d, form.id, total),
        total >= 12,
        chunks_begin(d, false, total, cuts),
        breaks_off(d, false, total, cuts.last()),
        cuts.last() != total || total > d.len(),
    ensures
        ({
            let v = riff::riff_verdict(d, form);
            let at = cuts.last();
            let more = runs_out(d, false, total, at);
            &&& v.status == (if cuts.len() > 1 || more {
                Status::Partial
            } else {
                Status::Rejected
            })
            &&& v.ran_out == (more || at + 8 > d.len() && d.len() < total)
            &&& v.status == Status::Partial && at <= total ==> v.length == at
            &&& v.status == Status::Partial ==> v.refined_ext == Some(form.ext)
        }),
{
    assert(riff::riff_id() =~= seq![82u8, 73, 70, 70]);
    named(d, 8, form.id);
    broken_off(d, false, form, total, cuts, riff::riff_verdict(d, form));
}

/// An AIFF file whose chunks do not fill it is not complete, in the same way.
pub proof fn an_aiff_cut_short_keeps_its_whole_chunks(d: Seq<u8>, total: int, cuts: Seq<int>)
    requires
        d.len() >= 12,
        stands(d, seq![70u8, 79, 82, 77], 0),
        stands(d, seq![65u8, 73, 70, 70], 8) || stands(d, seq![65u8, 73, 70, 67], 8),
        total == be32(d, 4) + 8,
        total >= 12,
        chunks_begin(d, true, total, cuts),
        breaks_off(d, true, total, cuts.last()),
        cuts.last() != total || total > d.len(),
    ensures
        ({
            let v = riff::aiff_verdict(d);
            let at = cuts.last();
            let more = runs_out(d, true, total, at);
            &&& v.status == (if cuts.len() > 1 || more {
                Status::Partial
            } else {
                Status::Rejected
            })
            &&& v.ran_out == (more || at + 8 > d.len() && d.len() < total)
            &&& v.status == Status::Partial && at <= total ==> v.length == at
            &&& v.status == Status::Partial ==> v.refined_ext == Some("aiff"@)
        }),
{
    assert(riff::form_id() =~= seq![70u8, 79, 82, 77]);
    let plain = seq![65u8, 73, 70, 70];
    let packed = seq![65u8, 73, 70, 67];
    assert(riff::aiff_form(false).id =~= plain);
    assert(riff::aiff_form(true).id =~= packed);
    named(d, 8, plain);
    named(d, 8, packed);
    let form = riff::aiff_form(d.subrange(8, 12) == riff::aiff_form(true).id);
    broken_off(d, true, form, total, cuts, riff::aiff_verdict(d));
}

/// What does not begin with the container's name, a size and its form is no
/// container of that form.
pub proof fn only_its_form_is_carved(d: Seq<u8>, form: riff::Form)
    requires
        d.len() >= 12,
        form.id.len() == 4,
    ensures
        !stands(d, seq![82u8, 73, 70, 70], 0) || le32(d, 4) < 4 || !stands(d, form.id, 8)
            ==> riff::riff_verdict(d, form).status == Status::Rejected,
        !stands(d, seq![70u8, 79, 82, 77], 0) || be32(d, 4) < 4 || !(stands(
            d,
            seq![65u8, 73, 70, 70],
            8,
        ) || stands(d, seq![65u8, 73, 70, 67], 8)) ==> riff::aiff_verdict(d).status
            == Status::Rejected,
{
    assert(riff::riff_id() =~= seq![82u8, 73, 70, 70]);
    assert(riff::form_id() =~= seq![70u8, 79, 82, 77]);
    let plain = seq![65u8, 73, 70, 70];
    let packed = seq![65u8, 73, 70, 67];
    assert(riff::aiff_form(false).id =~= plain);
    assert(riff::aiff_form(true).id =~= packed);
    named(d, 8, plain);
    named(d, 8, packed);
    named(d, 8, form.id);
}

} // verus!
