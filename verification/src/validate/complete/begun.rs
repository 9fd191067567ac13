//! What is said of data that ends in a header: whether it could go on.

use vstd::prelude::*;
use super::super::{
    Status,
    Verdict,
    archive,
    bmp,
    gif,
    jpeg,
    mp4,
    pe,
    png,
    riff,
    sqlite,
    structured,
    zip,
};

verus! {

/// Whether the bytes from `at` on, as far as there are any, are those of `head`.
pub open spec fn could_be(d: Seq<u8>, head: Seq<u8>, at: int) -> bool {
    forall|i: int| 0 <= i < head.len() && at + i < d.len() ==> d[at + i] == #[trigger] head[i]
}

/// Whether data too short for a header is refused, and told to have run out
/// exactly where it could go on as one.
pub open spec fn refused_for_now(v: Verdict, could: bool) -> bool {
    v.status == Status::Rejected && v.ran_out == could
}

/// Fewer bytes than the header of a 7z archive has.
pub proof fn a_7z_has_only_begun(d: Seq<u8>)
    requires
        d.len() < 32,
    ensures
        refused_for_now(archive::sevenz_verdict(d), could_be(d, seq![55u8, 122, 188, 175, 39, 28], 0)),
{
    let head = seq![55u8, 122, 188, 175, 39, 28];
    assert(archive::sevenz_head() =~= head);
}

/// Fewer bytes than the header of a cabinet has.
pub proof fn a_cabinet_has_only_begun(d: Seq<u8>)
    requires
        d.len() < 36,
    ensures
        refused_for_now(archive::cab_verdict(d), could_be(d, seq![77u8, 83, 67, 70], 0)),
{
    let head = seq![77u8, 83, 67, 70];
    assert(archive::cab_head() =~= head);
}

/// Fewer bytes than the header of a PNG has.
pub proof fn a_png_has_only_begun(d: Seq<u8>)
    requires
        d.len() < 8,
    ensures
        refused_for_now(png::verdict(d), could_be(d, seq![137u8, 80, 78, 71, 13, 10, 26, 10], 0)),
{
    let head = seq![137u8, 80, 78, 71, 13, 10, 26, 10];
    assert(png::signature() =~= head);
}

/// Fewer bytes than the header of rich text has.
pub proof fn rich_text_has_only_begun(d: Seq<u8>)
    requires
        d.len() < 6,
    ensures
        refused_for_now(structured::rtf_verdict(d), could_be(d, seq![123u8, 92, 114, 116, 102], 0)),
{
    let head = seq![123u8, 92, 114, 116, 102];
    assert(structured::rtf_head() =~= head);
}

/// Fewer bytes than the header of an event log has.
pub proof fn an_event_log_has_only_begun(d: Seq<u8>)
    requires
        d.len() < 128,
    ensures
        refused_for_now(structured::evtx_verdict(d), could_be(d, seq![69u8, 108, 102, 70, 105, 108, 101, 0], 0)),
{
    let head = seq![69u8, 108, 102, 70, 105, 108, 101, 0];
    assert(structured::evtx_head() =~= head);
}

/// Fewer bytes than the header of a hive has.
pub proof fn a_hive_has_only_begun(d: Seq<u8>)
    requires
        d.len() < 48,
    ensures
        refused_for_now(structured::hive_verdict(d), could_be(d, seq![114u8, 101, 103, 102], 0)),
{
    let head = seq![114u8, 101, 103, 102];
    assert(structured::hive_head() =~= head);
}

/// Fewer bytes than the header of a Photoshop file has.
pub proof fn a_photoshop_file_has_only_begun(d: Seq<u8>)
    requires
        d.len() < 34,
    ensures
        refused_for_now(structured::psd_verdict(d), could_be(d, seq![56u8, 66, 80, 83], 0)),
{
    let head = seq![56u8, 66, 80, 83];
    assert(structured::psd_head() =~= head);
}

/// Fewer bytes than the header of an ELF file has.
pub proof fn an_elf_has_only_begun(d: Seq<u8>)
    requires
        d.len() < 24,
    ensures
        refused_for_now(structured::elf_verdict(d), could_be(d, seq![127u8, 69, 76, 70], 0)),
{
    let head = seq![127u8, 69, 76, 70];
    assert(structured::elf_head() =~= head);
}

/// Fewer bytes than the header of a database has.
pub proof fn a_database_has_only_begun(d: Seq<u8>)
    requires
        d.len() < 100,
    ensures
        refused_for_now(sqlite::verdict(d), could_be(d, seq![83u8, 81, 76, 105, 116, 101, 32, 102, 111, 114, 109, 97, 116, 32, 51, 0], 0)),
{
    let head = seq![83u8, 81, 76, 105, 116, 101, 32, 102, 111, 114, 109, 97, 116, 32, 51, 0];
    assert(sqlite::magic() =~= head);
}

/// Fewer bytes than the header of an archive has.
pub proof fn an_archive_has_only_begun(d: Seq<u8>)
    requires
        d.len() < 4,
    ensures
        refused_for_now(zip::verdict(d), could_be(d, seq![80u8, 75, 3, 4], 0)),
{
    let head = seq![80u8, 75, 3, 4];
    assert(zip::local_mark() =~= head);
}

/// Fewer bytes than the header of a JPEG has.
pub proof fn a_jpeg_has_only_begun(d: Seq<u8>)
    requires
        d.len() < 4,
    ensures
        refused_for_now(jpeg::verdict(d), could_be(d, seq![255u8, 216], 0)),
{
    let head = seq![255u8, 216];
    if could_be(d, head, 0) {
        assert forall|i: int| 0 <= i < head.len() && 0 + i < d.len() implies d[0 + i] == head[i] by {}
        assert(0int + 0 < d.len() ==> d[0int + 0] == head[0]);
        assert(0int + 1 < d.len() ==> d[0int + 1] == head[1]);
    }
}

/// Fewer bytes than the header of a bitmap has.
pub proof fn a_bitmap_has_only_begun(d: Seq<u8>)
    requires
        d.len() < 18,
    ensures
        refused_for_now(bmp::verdict(d), could_be(d, seq![66u8, 77], 0)),
{
    let head = seq![66u8, 77];
    if could_be(d, head, 0) {
        assert forall|i: int| 0 <= i < head.len() && 0 + i < d.len() implies d[0 + i] == head[i] by {}
        assert(0int + 0 < d.len() ==> d[0int + 0] == head[0]);
        assert(0int + 1 < d.len() ==> d[0int + 1] == head[1]);
    }
}

/// Fewer bytes than the header of an executable has.
pub proof fn an_executable_has_only_begun(d: Seq<u8>)
    requires
        d.len() < 64,
    ensures
        refused_for_now(pe::verdict(d), could_be(d, seq![77u8, 90], 0)),
{
    let head = seq![77u8, 90];
    if could_be(d, head, 0) {
        assert forall|i: int| 0 <= i < head.len() && 0 + i < d.len() implies d[0 + i] == head[i] by {}
        assert(0int + 0 < d.len() ==> d[0int + 0] == head[0]);
        assert(0int + 1 < d.len() ==> d[0int + 1] == head[1]);
    }
}

/// Fewer bytes than the header of a media file has.
pub proof fn a_media_file_has_only_begun(d: Seq<u8>)
    requires
        d.len() < 16,
    ensures
        refused_for_now(mp4::verdict(d), could_be(d, seq![102u8, 116, 121, 112], 4)),
{
    let head = seq![102u8, 116, 121, 112];
    if could_be(d, head, 4) {
        assert forall|i: int| 0 <= i < head.len() && 4 + i < d.len() implies d[4 + i] == head[i] by {}
        assert(4int + 0 < d.len() ==> d[4int + 0] == head[0]);
        assert(4int + 1 < d.len() ==> d[4int + 1] == head[1]);
        assert(4int + 2 < d.len() ==> d[4int + 2] == head[2]);
        assert(4int + 3 < d.len() ==> d[4int + 3] == head[3]);
    }
}

/// Fewer bytes than the header of a RIFF file has.
pub proof fn a_riff_has_only_begun(d: Seq<u8>, form: riff::Form)
    requires
        d.len() < 12,
    ensures
        refused_for_now(
            riff::riff_verdict(d, form),
            could_be(d, seq![82u8, 73, 70, 70], 0) && could_be(d, form.id, 8),
        ),
{
    assert(riff::riff_id() =~= seq![82u8, 73, 70, 70]);
}

/// Fewer bytes than the header of an AIFF file has.
pub proof fn an_aiff_has_only_begun(d: Seq<u8>)
    requires
        d.len() < 12,
    ensures
        refused_for_now(
            riff::aiff_verdict(d),
            could_be(d, seq![70u8, 79, 82, 77], 0) && (could_be(d, seq![65u8, 73, 70, 70], 8)
                || could_be(d, seq![65u8, 73, 70, 67], 8)),
        ),
{
    assert(riff::form_id() =~= seq![70u8, 79, 82, 77]);
    assert(riff::aiff_form(false).id =~= seq![65u8, 73, 70, 70]);
    assert(riff::aiff_form(true).id =~= seq![65u8, 73, 70, 67]);
}

/// Fewer bytes than the header of a GIF has, of either version.
pub proof fn a_gif_has_only_begun(d: Seq<u8>)
    requires
        d.len() < 13,
    ensures
        refused_for_now(
            gif::verdict(d),
            could_be(d, seq![71u8, 73, 70, 56, 55, 97], 0) || could_be(
                d,
                seq![71u8, 73, 70, 56, 57, 97],
                0,
            ),
        ),
{
    let seven = seq![71u8, 73, 70, 56, 55, 97];
    let nine = seq![71u8, 73, 70, 56, 57, 97];
    if could_be(d, seven, 0) {
        six_bytes(d, seven);
    }
    if could_be(d, nine, 0) {
        six_bytes(d, nine);
    }
}

proof fn six_bytes(d: Seq<u8>, head: Seq<u8>)
    requires
        head.len() == 6,
        could_be(d, head, 0),
    ensures
        d.len() > 0 ==> d[0] == head[0],
        d.len() > 1 ==> d[1] == head[1],
        d.len() > 2 ==> d[2] == head[2],
        d.len() > 3 ==> d[3] == head[3],
        d.len() > 4 ==> d[4] == head[4],
        d.len() > 5 ==> d[5] == head[5],
{
    assert(d.len() > 0 ==> d[0int + 0] == head[0]);
    assert(d.len() > 1 ==> d[0int + 1] == head[1]);
    assert(d.len() > 2 ==> d[0int + 2] == head[2]);
    assert(d.len() > 3 ==> d[0int + 3] == head[3]);
    assert(d.len() > 4 ==> d[0int + 4] == head[4]);
    assert(d.len() > 5 ==> d[0int + 5] == head[5]);
}

} // verus!
