//! Which validator goes by which name.

use vstd::prelude::*;

use super::super::{
    Verdict,
    archive,
    bmp,
    gif,
    ico,
    jpeg,
    mp4,
    pdf,
    pe,
    png,
    riff,
    sqlite,
    structured,
    verdict_of,
    zip,
};

verus! {

/// What tells the names of the validators apart: how many characters there are,
/// the first two and the last.
#[verifier::opaque]
spec fn looks(s: Seq<char>) -> (int, char, char, char) {
    (s.len() as int, s[0], s[1], s.last())
}

proof fn names_look_different()
    ensures
        looks("7z"@) == (2int, '7', 'z', 'z'),
        looks("bmp"@) == (3int, 'b', 'm', 'p'),
        looks("cab"@) == (3int, 'c', 'a', 'b'),
        looks("elf"@) == (3int, 'e', 'l', 'f'),
        looks("evtx"@) == (4int, 'e', 'v', 'x'),
        looks("gif"@) == (3int, 'g', 'i', 'f'),
        looks("ico"@) == (3int, 'i', 'c', 'o'),
        looks("jpeg"@) == (4int, 'j', 'p', 'g'),
        looks("mp4"@) == (3int, 'm', 'p', '4'),
        looks("pdf"@) == (3int, 'p', 'd', 'f'),
        looks("pe"@) == (2int, 'p', 'e', 'e'),
        looks("png"@) == (3int, 'p', 'n', 'g'),
        looks("psd"@) == (3int, 'p', 's', 'd'),
        looks("rar"@) == (3int, 'r', 'a', 'r'),
        looks("reg_hive"@) == (8int, 'r', 'e', 'e'),
        looks("riff_aiff"@) == (9int, 'r', 'i', 'f'),
        looks("riff_avi"@) == (8int, 'r', 'i', 'i'),
        looks("riff_wav"@) == (8int, 'r', 'i', 'v'),
        looks("riff_webp"@) == (9int, 'r', 'i', 'p'),
        looks("rtf"@) == (3int, 'r', 't', 'f'),
        looks("sqlite"@) == (6int, 's', 'q', 'e'),
        looks("tiff"@) == (4int, 't', 'i', 'f'),
        looks("zip"@) == (3int, 'z', 'i', 'p'),
{
    reveal(looks);
    reveal_strlit("7z");
    reveal_strlit("bmp");
    reveal_strlit("cab");
    reveal_strlit("elf");
    reveal_strlit("evtx");
    reveal_strlit("gif");
    reveal_strlit("ico");
    reveal_strlit("jpeg");
    reveal_strlit("mp4");
    reveal_strlit("pdf");
    reveal_strlit("pe");
    reveal_strlit("png");
    reveal_strlit("psd");
    reveal_strlit("rar");
    reveal_strlit("reg_hive");
    reveal_strlit("riff_aiff");
    reveal_strlit("riff_avi");
    reveal_strlit("riff_wav");
    reveal_strlit("riff_webp");
    reveal_strlit("rtf");
    reveal_strlit("sqlite");
    reveal_strlit("tiff");
    reveal_strlit("zip");
}

/// Which of the names a text is, by its place among them.
#[verifier::opaque]
spec fn place(id: Seq<char>) -> int {
    if id == "7z"@ {
        0
    } else if id == "bmp"@ {
        1
    } else if id == "cab"@ {
        2
    } else if id == "elf"@ {
        3
    } else if id == "evtx"@ {
        4
    } else if id == "gif"@ {
        5
    } else if id == "ico"@ {
        6
    } else if id == "jpeg"@ {
        7
    } else if id == "mp4"@ {
        8
    } else if id == "pdf"@ {
        9
    } else if id == "pe"@ {
        10
    } else if id == "png"@ {
        11
    } else if id == "psd"@ {
        12
    } else if id == "rar"@ {
        13
    } else if id == "reg_hive"@ {
        14
    } else if id == "riff_aiff"@ {
        15
    } else if id == "riff_avi"@ {
        16
    } else if id == "riff_wav"@ {
        17
    } else if id == "riff_webp"@ {
        18
    } else if id == "rtf"@ {
        19
    } else if id == "sqlite"@ {
        20
    } else if id == "tiff"@ {
        21
    } else if id == "zip"@ {
        22
    } else {
        -1
    }
}

proof fn names_have_their_places()
    ensures
        place("7z"@) == 0,
        place("bmp"@) == 1,
        place("cab"@) == 2,
        place("elf"@) == 3,
        place("evtx"@) == 4,
        place("gif"@) == 5,
        place("ico"@) == 6,
        place("jpeg"@) == 7,
        place("mp4"@) == 8,
        place("pdf"@) == 9,
        place("pe"@) == 10,
        place("png"@) == 11,
        place("psd"@) == 12,
        place("rar"@) == 13,
        place("reg_hive"@) == 14,
        place("riff_aiff"@) == 15,
        place("riff_avi"@) == 16,
        place("riff_wav"@) == 17,
        place("riff_webp"@) == 18,
        place("rtf"@) == 19,
        place("sqlite"@) == 20,
        place("tiff"@) == 21,
        place("zip"@) == 22,
{
    names_look_different();
    reveal(place);
}

#[verifier::rlimit(100)]
#[verifier::spinoff_prover]
proof fn chosen_by_place(id: Seq<char>, d: Seq<u8>, want: Verdict)
    requires
        verdict_of(id, d) == Some(want),
    ensures
        place(id) == 0 ==> want == archive::sevenz_verdict(d),
        place(id) == 1 ==> want == bmp::verdict(d),
        place(id) == 2 ==> want == archive::cab_verdict(d),
        place(id) == 3 ==> want == structured::elf_verdict(d),
        place(id) == 4 ==> want == structured::evtx_verdict(d),
        place(id) == 5 ==> want == gif::verdict(d),
        place(id) == 6 ==> want == ico::verdict(d),
        place(id) == 7 ==> want == jpeg::verdict(d),
        place(id) == 8 ==> want == mp4::verdict(d),
        place(id) == 9 ==> want == pdf::verdict(d),
        place(id) == 10 ==> want == pe::verdict(d),
        place(id) == 11 ==> want == png::verdict(d),
        place(id) == 12 ==> want == structured::psd_verdict(d),
        place(id) == 13 ==> want == archive::rar_verdict(d),
        place(id) == 14 ==> want == structured::hive_verdict(d),
        place(id) == 15 ==> want == riff::aiff_verdict(d),
        place(id) == 16 ==> want == riff::riff_verdict(d, riff::avi_form()),
        place(id) == 17 ==> want == riff::riff_verdict(d, riff::wav_form()),
        place(id) == 18 ==> want == riff::riff_verdict(d, riff::webp_form()),
        place(id) == 19 ==> want == structured::rtf_verdict(d),
        place(id) == 20 ==> want == sqlite::verdict(d),
        place(id) == 21 ==> want == structured::tiff_verdict(d),
        place(id) == 22 ==> want == zip::verdict(d),
{
    reveal(verdict_of);
    if place(id) >= 0 {
        reveal(place);
    }
}

/// Each name means the validator of its own format, and each form of a container
/// is held to its own.
#[verifier::rlimit(100)]
#[verifier::spinoff_prover]
pub proof fn a_name_means_its_format(id: Seq<char>, d: Seq<u8>, v: Verdict)
    requires
        verdict_of(id, d) == Some(v),
    ensures
        id == "7z"@ ==> v == archive::sevenz_verdict(d),
        id == "bmp"@ ==> v == bmp::verdict(d),
        id == "cab"@ ==> v == archive::cab_verdict(d),
        id == "elf"@ ==> v == structured::elf_verdict(d),
        id == "evtx"@ ==> v == structured::evtx_verdict(d),
        id == "gif"@ ==> v == gif::verdict(d),
        id == "ico"@ ==> v == ico::verdict(d),
        id == "jpeg"@ ==> v == jpeg::verdict(d),
        id == "mp4"@ ==> v == mp4::verdict(d),
        id == "pdf"@ ==> v == pdf::verdict(d),
        id == "pe"@ ==> v == pe::verdict(d),
        id == "png"@ ==> v == png::verdict(d),
        id == "psd"@ ==> v == structured::psd_verdict(d),
        id == "rar"@ ==> v == archive::rar_verdict(d),
        id == "reg_hive"@ ==> v == structured::hive_verdict(d),
        id == "riff_aiff"@ ==> v == riff::aiff_verdict(d),
        id == "riff_avi"@ ==> v == riff::riff_verdict(d, riff::avi_form()),
        id == "riff_wav"@ ==> v == riff::riff_verdict(d, riff::wav_form()),
        id == "riff_webp"@ ==> v == riff::riff_verdict(d, riff::webp_form()),
        id == "rtf"@ ==> v == structured::rtf_verdict(d),
        id == "sqlite"@ ==> v == sqlite::verdict(d),
        id == "tiff"@ ==> v == structured::tiff_verdict(d),
        id == "zip"@ ==> v == zip::verdict(d),
{
    names_have_their_places();
    chosen_by_place(id, d, v);
}

} // verus!
