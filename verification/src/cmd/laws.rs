//! What the commands promise of every input.

use vstd::prelude::*;
use vstd::string::*;
use crate::bytes;
use crate::cmd::carve;
use crate::cmd::image;
use crate::cmd::image::Parsed;
use crate::cmd::list_deleted;
use crate::cmd::list_deleted::{Entry, EntryJson, EntryKind, EntryState, Partition, Selection};
use crate::cmd::mobile;
use crate::cmd::preview;
use crate::cmd::preview::Mark;
use crate::cmd::restore;
use crate::cmd::score;
use crate::cmd::score::{Band, Row};
use crate::cmd::smoke;
use crate::cmd::sqlite;
use crate::cmd::sqlite::{Recovered, TableInfo};
use crate::loading;
use crate::numerals;
use crate::numerals::{is_decimal, worth};
use crate::output;
use crate::scan::Candidate;
use crate::search;
use crate::signature::SignatureDb;
use crate::sorting;
use crate::text;

verus! {

// ---------------------------------------------------------------------------
// Sizes as a user writes them
// ---------------------------------------------------------------------------

proof fn more_digits_are_more(s: Seq<char>, i: int)
    requires
        is_decimal(s),
        0 <= i <= s.len(),
    ensures
        0 <= worth(s.subrange(0, i), 10) <= worth(s, 10),
    decreases s.len() - i,
{
    digits_are_positive(s, i);
    if i < s.len() {
        more_digits_are_more(s, i + 1);
        let t = s.subrange(0, i + 1);
        assert(t.drop_last() =~= s.subrange(0, i));
        assert(48 <= s[i] as int <= 57);
    } else {
        assert(s.subrange(0, i) =~= s);
    }
}

proof fn digits_are_positive(s: Seq<char>, i: int)
    requires
        is_decimal(s),
        0 <= i <= s.len(),
    ensures
        0 <= worth(s.subrange(0, i), 10),
    decreases i,
{
    if i > 0 {
        digits_are_positive(s, i - 1);
        let t = s.subrange(0, i);
        assert(t.drop_last() =~= s.subrange(0, i - 1));
        assert(48 <= s[i - 1] as int <= 57);
    }
}

/// The digits of `t` from `i` on, where `t` is `s` behind `lead` characters.
proof fn along_the_digits(t: Seq<char>, s: Seq<char>, lead: int, i: int)
    requires
        is_decimal(s),
        0 <= lead,
        t.len() == lead + s.len(),
        forall|k: int| 0 <= k < s.len() ==> t[lead + k] == #[trigger] s[k],
        0 <= i <= s.len(),
        worth(s.subrange(0, i), 10) <= u64::MAX,
    ensures
        image::digits_from(t, lead + i, worth(s.subrange(0, i), 10)) == (if worth(s, 10)
            <= u64::MAX {
            Parsed::Number(worth(s, 10) as u64)
        } else {
            Parsed::TooLarge
        }),
    decreases s.len() - i,
{
    digits_are_positive(s, i);
    if i < s.len() {
        let next = s.subrange(0, i + 1);
        assert(next.drop_last() =~= s.subrange(0, i));
        assert(t[lead + i] == s[i]);
        assert(48 <= s[i] as int <= 57);
        more_digits_are_more(s, i + 1);
        if worth(next, 10) <= u64::MAX {
            along_the_digits(t, s, lead, i + 1);
        }
    } else {
        assert(s.subrange(0, i) =~= s);
    }
}

/// Digits are read as the number that they stand for, with or without a plus
/// sign, and are too large exactly where that number does not fit in 64 bits.
pub proof fn digits_are_read_as_their_number(s: Seq<char>)
    requires
        is_decimal(s),
    ensures
        ({
            let r = if worth(s, 10) <= u64::MAX {
                Parsed::Number(worth(s, 10) as u64)
            } else {
                Parsed::TooLarge
            };
            &&& image::number_of(s) == r
            &&& image::number_of(seq!['+'] + s) == r
        }),
{
    assert(s.subrange(0, 0) =~= Seq::<char>::empty());
    assert(worth(s.subrange(0, 0), 10) == 0);
    along_the_digits(s, s, 0, 0);
    along_the_digits(seq!['+'] + s, s, 1, 0);
    assert(48 <= s[0] as int <= 57);
}

proof fn digits_were_there(s: Seq<char>, i: int, so_far: int)
    requires
        0 <= i <= s.len(),
        image::digits_from(s, i, so_far) is Number,
    ensures
        forall|k: int| i <= k < s.len() ==> 48 <= (#[trigger] s[k]) as int <= 57,
    decreases s.len() - i,
{
    if i < s.len() {
        digits_were_there(s, i + 1, 10 * so_far + (s[i] as int - 48));
    }
}

/// Nothing is read as a number but digits, with or without a plus sign.
pub proof fn only_digits_are_a_number(s: Seq<char>)
    requires
        image::number_of(s) is Number,
    ensures
        is_decimal(s) || s[0] == '+' && is_decimal(s.skip(1)),
{
    if s[0] == '+' {
        digits_were_there(s, 1, 0);
        assert forall|i: int| 0 <= i < s.skip(1).len() implies 48 <= (#[trigger] s.skip(1)[i])
            as int <= 57 by {
            assert(s.skip(1)[i] == s[i + 1]);
        }
    } else {
        digits_were_there(s, 0, 0);
    }
}

/// Whether a text is white space, or nothing.
pub open spec fn blank(s: Seq<char>) -> bool {
    forall|i: int| 0 <= i < s.len() ==> text::white(#[trigger] s[i])
}

proof fn blank_before(t: Seq<char>, end: int, i: int)
    requires
        0 <= end <= i <= t.len(),
        forall|k: int| end <= k < i ==> text::white(#[trigger] t[k]),
        end > 0 ==> !text::white(t[end - 1]),
    ensures
        text::before_white(t, i) == end,
    decreases i,
{
    if i > end {
        assert(text::white(t[i - 1]));
        blank_before(t, end, i - 1);
    }
}

proof fn blank_after(t: Seq<char>, start: int, i: int)
    requires
        0 <= i <= start < t.len(),
        forall|k: int| i <= k < start ==> text::white(#[trigger] t[k]),
        !text::white(t[start]),
    ensures
        text::past_white(t, i) == start,
    decreases start - i,
{
    if i < start {
        assert(text::white(t[i]));
        blank_after(t, start, i + 1);
    }
}

/// What is trimmed is the white space around a text, and nothing else.
pub proof fn white_space_around_is_trimmed(a: Seq<char>, s: Seq<char>, b: Seq<char>)
    requires
        blank(a),
        blank(b),
        s.len() > 0,
        !text::white(s[0]),
        !text::white(s.last()),
    ensures
        text::trimmed(a + s + b) == s,
{
    let all = a + s + b;
    let end = (a.len() + s.len()) as int;
    assert(all[end - 1] == s.last());
    assert forall|k: int| end <= k < all.len() implies text::white(#[trigger] all[k]) by {
        assert(all[k] == b[k - end]);
    }
    blank_before(all, end, all.len() as int);
    let t = text::end_trimmed(all);
    assert(t =~= a + s);
    assert(t[a.len() as int] == s[0]);
    assert forall|k: int| 0 <= k < a.len() implies text::white(#[trigger] t[k]) by {
        assert(t[k] == a[k]);
    }
    blank_after(t, a.len() as int, 0);
    assert(t.subrange(a.len() as int, t.len() as int) =~= s);
}

proof fn a_size_in_a_unit(
    a: Seq<char>,
    s: Seq<char>,
    b: Seq<char>,
    unit: Seq<char>,
    c: Seq<char>,
)
    requires
        blank(a),
        blank(b),
        blank(c),
        is_decimal(s),
        unit.len() == 3,
        !text::white(unit[2]),
    ensures
        text::trimmed(a + s + b + unit + c) == s + b + unit,
        image::ends_in(s + b + unit, unit),
        image::shortened(s + b + unit, 3) == s + b,
        text::trimmed(s + b) == s,
{
    let t = s + b + unit;
    assert(48 <= s[0] as int <= 57);
    assert(48 <= s.last() as int <= 57);
    assert(t[0] == s[0]);
    assert(t.last() == unit[2]);
    white_space_around_is_trimmed(a, t, c);
    assert(a + t + c =~= a + s + b + unit + c);
    assert(t.subrange(t.len() - 3, t.len() as int) =~= unit);
    assert(image::shortened(t, 3) =~= s + b);
    let none = Seq::<char>::empty();
    white_space_around_is_trimmed(none, s, b);
    assert(none + s + b =~= s + b);
}

/// A size is read as its number of its unit, whatever white space stands around
/// the number and after the unit; a number alone counts bytes.
pub proof fn a_size_is_read_in_its_unit(a: Seq<char>, s: Seq<char>, b: Seq<char>, c: Seq<char>)
    requires
        blank(a),
        blank(b),
        blank(c),
        is_decimal(s),
        worth(s, 10) <= u64::MAX,
    ensures
        ({
            let n = Parsed::Number(worth(s, 10) as u64);
            &&& image::size_read(a + s + b + "KiB"@ + c) == (n, 1024int)
            &&& image::size_read(a + s + b + "MiB"@ + c) == (n, 1024int * 1024)
            &&& image::size_read(a + s + b + "GiB"@ + c) == (n, 1024int * 1024 * 1024)
            &&& image::size_read(a + s + c) == (n, 1int)
        }),
{
    reveal_strlit("KiB");
    reveal_strlit("MiB");
    reveal_strlit("GiB");
    digits_are_read_as_their_number(s);
    a_size_in_a_unit(a, s, b, "KiB"@, c);
    a_size_in_a_unit(a, s, b, "MiB"@, c);
    a_size_in_a_unit(a, s, b, "GiB"@, c);
    let k = s + b + "KiB"@;
    let m = s + b + "MiB"@;
    assert(k.subrange(k.len() - 3, k.len() as int)[0] == 'K');
    assert(m.subrange(m.len() - 3, m.len() as int)[0] == 'M');
    assert("GiB"@[0] == 'G' && "MiB"@[0] == 'M' && "KiB"@[0] == 'K');
    assert(48 <= s[0] as int <= 57);
    assert(48 <= s.last() as int <= 57);
    white_space_around_is_trimmed(a, s, c);
    if s.len() >= 3 {
        let e = s.subrange(s.len() - 3, s.len() as int);
        assert(e[2] == s.last());
        assert("GiB"@[2] == 'B' && "MiB"@[2] == 'B' && "KiB"@[2] == 'B');
    }
    let none = Seq::<char>::empty();
    white_space_around_is_trimmed(none, s, none);
    assert(none + s + none =~= s);
}

// ---------------------------------------------------------------------------
// Devices that are refused
// ---------------------------------------------------------------------------

proof fn pieces_of_a_list(s: Seq<char>, parts: Seq<Seq<char>>, k: int, from: int, i: int)
    requires
        0 <= k < parts.len(),
        0 <= from <= i <= from + parts[k].len(),
        forall|p: int, q: int|
            0 <= p < parts.len() && 0 <= q < parts[p].len() ==> #[trigger] parts[p][q] != ',',
        s.subrange(from, s.len() as int) == text::joined(parts.skip(k), ","@),
        from <= s.len(),
    ensures
        smoke::pieces(s, from, i) == parts.skip(k),
    decreases s.len() - i, parts.len() - k,
{
    reveal_strlit(",");
    let rest = parts.skip(k);
    let tail = s.subrange(from, s.len() as int);
    if k == parts.len() - 1 {
        assert(rest =~= seq![parts[k]]);
        assert(tail =~= parts[k]);
        if i < s.len() {
            assert(s[i] == tail[i - from]);
            assert(parts[k][i - from] != ',');
            pieces_of_a_list(s, parts, k, from, i + 1);
        }
    } else {
        joined_from_the_front(rest);
        let n = parts[k].len() as int;
        assert(rest[0] == parts[k]);
        assert(rest.skip(1) =~= parts.skip(k + 1));
        let after = text::joined(parts.skip(k + 1), ","@);
        let parted = parts[k] + seq![','] + after;
        assert(tail == parted);
        assert(parted.len() == n + 1 + after.len());
        assert(i - from < tail.len());
        assert(s[i] == tail[i - from]);
        if i < from + n {
            assert(tail[i - from] == parts[k][i - from]);
            assert(parts[k][i - from] != ',');
            pieces_of_a_list(s, parts, k, from, i + 1);
        } else {
            assert(tail[n] == ',');
            assert(s.subrange(from, i) =~= parts[k]) by {
                assert forall|j: int| 0 <= j < n implies s.subrange(from, i)[j] == parts[k][j] by {
                    assert(s.subrange(from, i)[j] == tail[j]);
                }
            }
            assert(s.subrange(i + 1, s.len() as int) =~= after) by {
                assert forall|j: int| 0 <= j < after.len() implies #[trigger] s.subrange(
                    i + 1,
                    s.len() as int,
                )[j] == after[j] by {
                    assert(s.subrange(i + 1, s.len() as int)[j] == tail[n + 1 + j]);
                }
            }
            pieces_of_a_list(s, parts, k + 1, i + 1, i + 1);
            assert(rest =~= seq![parts[k]] + parts.skip(k + 1));
        }
    }
}

proof fn joined_from_the_front(parts: Seq<Seq<char>>)
    requires
        parts.len() >= 2,
    ensures
        text::joined(parts, ","@) == parts[0] + seq![','] + text::joined(parts.skip(1), ","@),
    decreases parts.len(),
{
    reveal_strlit(",");
    assert(","@ =~= seq![',']);
    let rest = parts.skip(1);
    if parts.len() == 2 {
        assert(parts.drop_last() =~= seq![parts[0]]);
        assert(rest =~= seq![parts[1]]);
        assert(text::joined(parts.drop_last(), ","@) == parts[0]);
        assert(text::joined(rest, ","@) == parts[1]);
        assert(text::joined(parts, ","@) =~= parts[0] + seq![','] + parts[1]);
    } else {
        joined_from_the_front(parts.drop_last());
        assert(parts.drop_last().skip(1) =~= rest.drop_last());
        assert(rest.last() == parts.last());
        assert(text::joined(parts, ","@) =~= parts[0] + seq![','] + text::joined(rest, ","@));
    }
}

/// A list of names with commas between them is taken apart into those names.
pub proof fn a_list_is_taken_apart(parts: Seq<Seq<char>>)
    requires
        parts.len() > 0,
        forall|p: int, q: int|
            0 <= p < parts.len() && 0 <= q < parts[p].len() ==> #[trigger] parts[p][q] != ',',
    ensures
        smoke::pieces(text::joined(parts, ","@), 0, 0) == parts,
{
    let s = text::joined(parts, ","@);
    assert(parts.skip(0) =~= parts);
    assert(s.subrange(0, s.len() as int) =~= s);
    pieces_of_a_list(s, parts, 0, 0, 0);
}

proof fn lower_stays(s: Seq<char>)
    ensures
        text::ascii_lower(text::ascii_lower(s)) == text::ascii_lower(s),
{
    assert(text::ascii_lower(text::ascii_lower(s)) =~= text::ascii_lower(s));
}

/// The first physical drive, and the first disk of other systems, are taken for
/// the system drive in whatever case they are written.
pub proof fn the_first_drive_is_the_systems(lead: Seq<char>, path: Seq<char>)
    ensures
        text::ascii_lower(path) == lead + "physicaldrive0"@ ==> smoke::looks_like_system(path),
        text::ascii_lower(path) == "/dev/sda"@ ==> smoke::looks_like_system(path),
        text::ascii_lower(path) == "/dev/disk0"@ ==> smoke::looks_like_system(path),
        smoke::looks_like_system(path) == smoke::looks_like_system(text::ascii_lower(path)),
{
    lower_stays(path);
    let p = lead + "physicaldrive0"@;
    assert(p.subrange(lead.len() as int, p.len() as int) =~= "physicaldrive0"@);
}

// ---------------------------------------------------------------------------
// What is chosen
// ---------------------------------------------------------------------------

/// Whether `k` lists, in order and each once, the numbers below `n` that `p`
/// holds of.
pub open spec fn picks(k: Seq<int>, n: int, p: spec_fn(int) -> bool) -> bool {
    &&& forall|i: int| 0 <= i < k.len() ==> 0 <= (#[trigger] k[i]) < n && p(k[i])
    &&& forall|i: int, j: int| 0 <= i < j < k.len() ==> (#[trigger] k[i]) < (#[trigger] k[j])
    &&& forall|i: int| 0 <= i < n && #[trigger] p(i) ==> k.contains(i)
}

proof fn one_more_picked(k: Seq<int>, n: int, p: spec_fn(int) -> bool)
    requires
        picks(k, n, p),
        0 <= n,
    ensures
        p(n) ==> picks(k.push(n), n + 1, p),
        !p(n) ==> picks(k, n + 1, p),
{
    if p(n) {
        let l = k.push(n);
        assert(l[k.len() as int] == n);
        assert forall|i: int| 0 <= i < n + 1 && #[trigger] p(i) implies l.contains(i) by {
            if i < n {
                assert(k.contains(i));
                let j = choose|j: int| 0 <= j < k.len() && k[j] == i;
                assert(l[j] == i);
            }
        }
    }
}

/// What is listed of a volume: a deleted file always, a file that is still
/// there or a directory only where asked for, and only what the filter finds in
/// the path, or in the name where no path is known.
pub proof fn what_is_listed_is_what_is_asked_for(entries: Seq<Entry>, s: Selection, n: int)
    requires
        0 <= n <= entries.len(),
    ensures
        picks(
            list_deleted::selected_upto(entries, s, n),
            n,
            |i: int|
                {
                    let e = entries[i];
                    let by = match e.path {
                        Some(p) => p@,
                        None => e.name@,
                    };
                    &&& e.state == EntryState::Allocated ==> s.include_allocated
                    &&& e.kind == EntryKind::Directory ==> s.include_dirs
                    &&& s.filter matches Some(f) ==> text::holds(
                        text::lowered(by),
                        text::lowered(f@),
                    )
                },
        ),
    decreases n,
{
    let p = |i: int|
        {
            let e = entries[i];
            let by = match e.path {
                Some(p) => p@,
                None => e.name@,
            };
            &&& e.state == EntryState::Allocated ==> s.include_allocated
            &&& e.kind == EntryKind::Directory ==> s.include_dirs
            &&& s.filter matches Some(f) ==> text::holds(text::lowered(by), text::lowered(f@))
        };
    if n > 0 {
        what_is_listed_is_what_is_asked_for(entries, s, n - 1);
        one_more_picked(list_deleted::selected_upto(entries, s, n - 1), n - 1, p);
        assert(p(n - 1) == list_deleted::selected(entries[n - 1], s));
    }
}

/// What is kept of a rating: every row, or exactly those of the band asked for.
pub proof fn what_is_kept_is_in_the_band(rows: Seq<Row>, want: Option<Band>, n: int)
    requires
        0 <= n <= rows.len(),
    ensures
        picks(
            score::kept_upto(rows, want, n),
            n,
            |i: int| want matches Some(b) ==> rows[i].band == b,
        ),
    decreases n,
{
    let p = |i: int| want matches Some(b) ==> rows[i].band == b;
    if n > 0 {
        what_is_kept_is_in_the_band(rows, want, n - 1);
        one_more_picked(score::kept_upto(rows, want, n - 1), n - 1, p);
        assert(p(n - 1) == (want is None || want == Some(rows[n - 1].band)));
    }
}

/// Every row is counted in one band.
pub proof fn the_bands_add_up(rows: Seq<Row>, n: int)
    requires
        0 <= n <= rows.len(),
    ensures
        score::in_band(rows, Band::Green, n) + score::in_band(rows, Band::Yellow, n)
            + score::in_band(rows, Band::Red, n) == n,
        forall|b: Band| 0 <= #[trigger] score::in_band(rows, b, n),
        forall|b: Band|
            #[trigger] score::in_band(rows, b, n) > 0 <==> exists|i: int|
                0 <= i < n && (#[trigger] rows[i]).band == b,
    decreases n,
{
    if n > 0 {
        the_bands_add_up(rows, n - 1);
        assert forall|b: Band| (#[trigger] score::in_band(rows, b, n) > 0) == (exists|i: int|
            0 <= i < n && (#[trigger] rows[i]).band == b) by {
            assert(score::in_band(rows, b, n - 1) >= 0);
            if score::in_band(rows, b, n) > 0 && score::in_band(rows, b, n - 1) == 0 {
                assert(rows[n - 1].band == b);
            }
        }
    }
}

/// Without an offset, the volumes read are those of the partitions whose file
/// system can be read, in their order; without any, the one at the start.
pub proof fn readable_partitions_are_read(parts: Seq<Partition>, k: Seq<int>)
    requires
        picks(k, parts.len() as int, |i: int| parts[i].supported),
    ensures
        score::volumes_of(None, parts) == (if k.len() == 0 {
            seq![0int]
        } else {
            Seq::new(k.len(), |i: int| parts[k[i]].offset as int)
        }),
{
    readable(parts, k, parts.len() as int);
    assert(Seq::new(k.len(), |i: int| parts[k[i]].offset as int).len() == k.len());
}

proof fn last_is_picked(k: Seq<int>, n: int, p: spec_fn(int) -> bool)
    requires
        picks(k, n, p),
        0 < n,
    ensures
        p(n - 1) ==> k.len() > 0 && k.last() == n - 1 && picks(k.drop_last(), n - 1, p),
        !p(n - 1) ==> picks(k, n - 1, p),
        n - 1 >= 0,
{
    if p(n - 1) {
        assert(k.contains(n - 1));
        let j = choose|j: int| 0 <= j < k.len() && k[j] == n - 1;
        if j < k.len() - 1 {
            assert(k[j] < k[k.len() - 1]);
        }
        let l = k.drop_last();
        assert forall|i: int| 0 <= i < l.len() implies 0 <= (#[trigger] l[i]) < n - 1 && p(
            l[i],
        ) by {
            assert(l[i] == k[i]);
            assert(k[i] < k[k.len() - 1]);
        }
        assert forall|i: int| 0 <= i < n - 1 && #[trigger] p(i) implies l.contains(i) by {
            assert(k.contains(i));
            let j = choose|j: int| 0 <= j < k.len() && k[j] == i;
            assert(l[j] == i);
        }
    } else {
        assert forall|i: int| 0 <= i < k.len() implies 0 <= (#[trigger] k[i]) < n - 1 && p(
            k[i],
        ) by {
            assert(k[i] < n);
        }
    }
}

proof fn readable(parts: Seq<Partition>, k: Seq<int>, n: int)
    requires
        0 <= n <= parts.len(),
        picks(k, n, |i: int| parts[i].supported),
    ensures
        score::readable_upto(parts, n) == Seq::new(k.len(), |i: int| parts[k[i]].offset as int),
    decreases n,
{
    let p = |i: int| parts[i].supported;
    let all = Seq::new(k.len(), |i: int| parts[k[i]].offset as int);
    if n > 0 {
        last_is_picked(k, n, p);
        assert(p(n - 1) == parts[n - 1].supported);
        if p(n - 1) {
            readable(parts, k.drop_last(), n - 1);
            assert(all =~= score::readable_upto(parts, n));
        } else {
            readable(parts, k, n - 1);
        }
    } else {
        if k.len() > 0 {
            assert(0 <= k[0] < n);
        }
        assert(all =~= Seq::<int>::empty());
    }
}

/// The partitions scanned: the one of the number asked for, whatever it holds,
/// or else each whose file system can be read, under its own offset.
pub proof fn the_partition_asked_for_is_scanned(
    parts: Seq<Partition>,
    want: Option<usize>,
    k: Seq<int>,
    n: int,
)
    requires
        0 <= n <= parts.len(),
        picks(
            k,
            n,
            |i: int|
                match want {
                    Some(w) => parts[i].index == w,
                    None => parts[i].supported,
                },
        ),
    ensures
        list_deleted::chosen_upto(parts, want, n).len() == k.len(),
        forall|i: int|
            0 <= i < k.len() ==> (#[trigger] list_deleted::chosen_upto(parts, want, n)[i]).0
                == parts[k[i]].offset,
    decreases n,
{
    let p = |i: int|
        match want {
            Some(w) => parts[i].index == w,
            None => parts[i].supported,
        };
    if n > 0 {
        last_is_picked(k, n, p);
        assert(p(n - 1) == list_deleted::is_chosen(parts[n - 1], want));
        if p(n - 1) {
            the_partition_asked_for_is_scanned(parts, want, k.drop_last(), n - 1);
        } else {
            the_partition_asked_for_is_scanned(parts, want, k, n - 1);
        }
    } else if k.len() > 0 {
        assert(0 <= k[0] < n);
    }
}

/// Of the rows recovered, those of a table are all that name it, in their order.
pub proof fn the_rows_of_a_table_are_those_that_name_it(
    rows: Seq<Recovered>,
    name: Seq<char>,
    k: Seq<int>,
    n: int,
)
    requires
        0 <= n <= rows.len(),
        picks(k, n, |i: int| rows[i].table@ == name),
    ensures
        sqlite::of_one(rows, name, n) == Seq::new(k.len(), |i: int| rows[k[i]]),
        sqlite::rows_of(rows, name, n) == k.len(),
    decreases n,
{
    let p = |i: int| rows[i].table@ == name;
    let all = Seq::new(k.len(), |i: int| rows[k[i]]);
    if n > 0 {
        last_is_picked(k, n, p);
        assert(p(n - 1) == (rows[n - 1].table@ == name));
        if p(n - 1) {
            the_rows_of_a_table_are_those_that_name_it(rows, name, k.drop_last(), n - 1);
            assert(all =~= sqlite::of_one(rows, name, n));
        } else {
            the_rows_of_a_table_are_those_that_name_it(rows, name, k, n - 1);
        }
    } else {
        if k.len() > 0 {
            assert(0 <= k[0] < n);
        }
        assert(all =~= Seq::<Recovered>::empty());
    }
}

/// The columns shown for a row are those of the first table of its name.
pub proof fn the_first_table_gives_the_columns(
    tables: Seq<TableInfo>,
    name: Seq<char>,
    from: int,
    i: int,
)
    requires
        0 <= from <= i <= tables.len(),
        forall|j: int| from <= j < i ==> (#[trigger] tables[j]).name@ != name,
        i < tables.len() ==> tables[i].name@ == name,
    ensures
        sqlite::columns_of(tables, name, from) == (if i < tables.len() {
            text::texts(tables[i].columns@)
        } else {
            Seq::empty()
        }),
    decreases i - from,
{
    if from < i {
        assert(tables[from].name@ != name);
        the_first_table_gives_the_columns(tables, name, from + 1, i);
    }
}

/// The validator that judges a reassembled file is that of the first signature
/// of the candidate's id.
pub proof fn the_first_signature_gives_the_validator(
    db: SignatureDb,
    id: Seq<char>,
    from: int,
    i: int,
)
    requires
        0 <= from <= i <= db.signatures@.len(),
        forall|j: int| from <= j < i ==> (#[trigger] db.signatures@[j]).id@ != id,
        i < db.signatures@.len() ==> db.signatures@[i].id@ == id,
    ensures
        restore::validator_of(db, id, from) == (if i < db.signatures@.len() {
            match db.signatures@[i].validator {
                Some(v) => Some(v@),
                None => None,
            }
        } else {
            None
        }),
    decreases i - from,
{
    if from < i {
        assert(db.signatures@[from].id@ != id);
        the_first_signature_gives_the_validator(db, id, from + 1, i);
    }
}

// ---------------------------------------------------------------------------
// Bytes as they are shown
// ---------------------------------------------------------------------------

/// Every byte is shown once, sixteen to a row: the byte at `p` stands in row
/// `p / 16`, and no row is empty or longer.
pub proof fn every_byte_has_its_place(data: Seq<u8>, p: int)
    requires
        0 <= p < data.len(),
    ensures
        0 <= p / 16 < preview::row_count(data.len() as int),
        p % 16 < preview::row_of(data, p / 16).len() <= 16,
        preview::row_of(data, p / 16)[p % 16] == data[p],
        forall|i: int|
            0 <= i < preview::row_count(data.len() as int) ==> 0 < (#[trigger] preview::row_of(
                data,
                i,
            )).len() <= 16 && 16 * i + preview::row_of(data, i).len() <= data.len(),
{
}

/// A byte is shown on four characters, the middle two its digits, and in
/// brackets exactly where a mark covers it.
pub proof fn a_byte_is_shown_in_its_cell(
    row: Seq<u8>,
    marks: Seq<Mark>,
    at: int,
    n: int,
    j: int,
)
    requires
        0 <= j < n <= row.len(),
    ensures
        ({
            let c = preview::cells_upto(row, marks, at, n);
            let m = exists|i: int|
                0 <= i < marks.len() && (#[trigger] marks[i]).start <= at + j < marks[i].end;
            &&& c.len() == 4 * n
            &&& c[4 * j] == if m {
                '['
            } else {
                ' '
            }
            &&& loading::is_digit(c[4 * j + 1], row[j] as int / 16)
            &&& loading::is_digit(c[4 * j + 2], row[j] as int % 16)
            &&& c[4 * j + 3] == if m {
                ']'
            } else {
                ' '
            }
        }),
    decreases n,
{
    reveal_strlit("[");
    reveal_strlit("]");
    reveal_strlit(" ");
    let is = preview::marked(marks, at + n - 1);
    let cell = preview::cell(row[n - 1], is);
    numerals::a_byte_is_two_digits(row[n - 1]);
    cells_are_four(row, marks, at, n - 1);
    assert(cell.len() == 4);
    if j < n - 1 {
        a_byte_is_shown_in_its_cell(row, marks, at, n - 1, j);
    }
}

proof fn cells_are_four(row: Seq<u8>, marks: Seq<Mark>, at: int, n: int)
    requires
        0 <= n <= row.len(),
    ensures
        preview::cells_upto(row, marks, at, n).len() == 4 * n,
    decreases n,
{
    reveal_strlit("[");
    reveal_strlit("]");
    reveal_strlit(" ");
    if n > 0 {
        cells_are_four(row, marks, at, n - 1);
        numerals::a_byte_is_two_digits(row[n - 1]);
    }
}

/// A listing shows every entry that is asked for and no other, in the order of
/// their paths, or of their names where no path is known.
pub proof fn a_listing_shows_what_is_asked_for(
    r: Seq<EntryJson>,
    entries: Seq<Entry>,
    s: Selection,
    i: int,
)
    requires
        list_deleted::listing(r, entries, s),
        entries.len() <= usize::MAX,
    ensures
        0 <= i < entries.len() && list_deleted::selected(entries[i], s) ==> exists|j: int|
            0 <= j < r.len() && list_deleted::shows(#[trigger] r[j], entries[i]),
        0 <= i < r.len() ==> exists|e: int|
            {
                &&& 0 <= e < entries.len()
                &&& list_deleted::selected(#[trigger] entries[e], s)
                &&& list_deleted::shows(r[i], entries[e])
            },
        0 < i < r.len() ==> exists|a: int, b: int|
            {
                &&& 0 <= a < entries.len()
                &&& 0 <= b < entries.len()
                &&& list_deleted::shows(r[i - 1], #[trigger] entries[a])
                &&& list_deleted::shows(r[i], #[trigger] entries[b])
                &&& list_deleted::label(entries[a]) == list_deleted::label(entries[b])
                    || text::sooner(list_deleted::label(entries[a]), list_deleted::label(entries[b]))
            },
{
    let n = entries.len() as int;
    what_is_listed_is_what_is_asked_for(entries, s, n);
    let chosen = list_deleted::selected_upto(entries, s, n);
    let keys = list_deleted::labels(entries, chosen);
    let o = choose|o: Seq<usize>|
        {
            &&& #[trigger] sorting::in_order(
                sorting::alike(chosen.len()),
                keys,
                o,
                0,
                chosen.len() as int,
            )
            &&& forall|i: int|
                0 <= i < chosen.len() ==> list_deleted::shows(
                    #[trigger] r[i],
                    entries[chosen[o[i] as int]],
                )
        };
    let p = |i: int|
        {
            let e = entries[i];
            let by = match e.path {
                Some(p) => p@,
                None => e.name@,
            };
            &&& e.state == EntryState::Allocated ==> s.include_allocated
            &&& e.kind == EntryKind::Directory ==> s.include_dirs
            &&& s.filter matches Some(f) ==> text::holds(text::lowered(by), text::lowered(f@))
        };
    assert(picks(chosen, n, p));
    chosen_are_few(chosen, n, p);
    if 0 <= i < n && list_deleted::selected(entries[i], s) {
        assert(p(i));
        assert(chosen.contains(i));
        let c = choose|c: int| 0 <= c < chosen.len() && chosen[c] == i;
        assert(o.contains(c as usize));
        let j = choose|j: int| 0 <= j < o.len() && o[j] == c as usize;
        assert(list_deleted::shows(r[j], entries[i]));
    }
    if 0 <= i < r.len() {
        let e = chosen[o[i] as int];
        assert(p(e));
        assert(list_deleted::selected(entries[e], s));
        assert(list_deleted::shows(r[i], entries[e]));
    }
    if 0 < i < r.len() {
        let a = chosen[o[i - 1] as int];
        let b = chosen[o[i] as int];
        assert(list_deleted::shows(r[i - 1], entries[a]));
        assert(list_deleted::shows(r[i], entries[b]));
        assert(sorting::ahead(
            sorting::alike(chosen.len()),
            keys,
            o[i - 1] as int,
            o[i] as int,
        ));
        assert(p(a) && p(b));
    }
}

proof fn chosen_are_few(k: Seq<int>, n: int, p: spec_fn(int) -> bool)
    requires
        picks(k, n, p),
        0 <= n,
    ensures
        k.len() <= n,
    decreases n,
{
    if n > 0 {
        last_is_picked(k, n, p);
        if p(n - 1) {
            chosen_are_few(k.drop_last(), n - 1, p);
        } else {
            chosen_are_few(k, n - 1, p);
        }
    } else if k.len() > 0 {
        assert(0 <= k[0] < n);
    }
}

/// A moment is told by the date of its day and the hour and minute of it, with a
/// mark where the timezone is not known.
pub proof fn a_moment_is_told_to_the_minute(
    day: int,
    h: int,
    m: int,
    rest: int,
    ns: i64,
    known: bool,
)
    requires
        0 <= h < 24,
        0 <= m < 60,
        0 <= rest < 60_000_000_000,
        ns == ((day * 24 + h) * 60 + m) * 60_000_000_000 + rest,
    ensures
        ({
            let date = list_deleted::date_of(day);
            list_deleted::time_text(Some(ns), known) == text::zero_padded(text::dec(date.year), 4)
                + "-"@ + output::two(date.month) + "-"@ + output::two(date.day) + " "@
                + output::two(h) + ":"@ + output::two(m) + (if known {
                ""@
            } else {
                "?"@
            })
        }),
{
    let secs = ns as int / 1_000_000_000;
    assert(secs == ((day * 24 + h) * 60 + m) * 60 + rest / 1_000_000_000);
    assert(secs / 86_400 == day);
    assert(secs % 86_400 == (h * 60 + m) * 60 + rest / 1_000_000_000);
}

/// The candidates counted for an extension are those that have it.
pub proof fn an_extension_is_counted_where_it_stands(c: Seq<Candidate>, ext: Seq<char>, k: Seq<int>, n: int)
    requires
        0 <= n <= c.len(),
        picks(k, n, |i: int| c[i].ext@ == ext),
    ensures
        carve::of_extension(c, ext, n) == k.len(),
    decreases n,
{
    let p = |i: int| c[i].ext@ == ext;
    if n > 0 {
        last_is_picked(k, n, p);
        assert(p(n - 1) == (c[n - 1].ext@ == ext));
        if p(n - 1) {
            an_extension_is_counted_where_it_stands(c, ext, k.drop_last(), n - 1);
        } else {
            an_extension_is_counted_where_it_stands(c, ext, k, n - 1);
        }
    } else if k.len() > 0 {
        assert(0 <= k[0] < n);
    }
}

/// The entries counted in a state are those that are in it.
pub proof fn a_state_is_counted_where_it_stands(entries: Seq<Entry>, state: EntryState, k: Seq<int>, n: int)
    requires
        0 <= n <= entries.len(),
        picks(k, n, |i: int| entries[i].state == state),
    ensures
        list_deleted::tally(entries, state, n) == k.len(),
    decreases n,
{
    let p = |i: int| entries[i].state == state;
    if n > 0 {
        last_is_picked(k, n, p);
        assert(p(n - 1) == (entries[n - 1].state == state));
        if p(n - 1) {
            a_state_is_counted_where_it_stands(entries, state, k.drop_last(), n - 1);
        } else {
            a_state_is_counted_where_it_stands(entries, state, k, n - 1);
        }
    } else if k.len() > 0 {
        assert(0 <= k[0] < n);
    }
}

/// The files counted as mismatched are those that do not match.
pub proof fn a_mismatch_is_counted_where_it_is(matching: Seq<bool>, k: Seq<int>, n: int)
    requires
        0 <= n <= matching.len(),
        picks(k, n, |i: int| !matching[i]),
    ensures
        mobile::mismatched(matching, n) == k.len(),
    decreases n,
{
    let p = |i: int| !matching[i];
    if n > 0 {
        last_is_picked(k, n, p);
        assert(p(n - 1) == (!matching[n - 1]));
        if p(n - 1) {
            a_mismatch_is_counted_where_it_is(matching, k.drop_last(), n - 1);
        } else {
            a_mismatch_is_counted_where_it_is(matching, k, n - 1);
        }
    } else if k.len() > 0 {
        assert(0 <= k[0] < n);
    }
}

/// The rows counted in a band are those that are in it.
pub proof fn a_band_is_counted_where_it_stands(rows: Seq<Row>, band: Band, k: Seq<int>, n: int)
    requires
        0 <= n <= rows.len(),
        picks(k, n, |i: int| rows[i].band == band),
    ensures
        score::in_band(rows, band, n) == k.len(),
    decreases n,
{
    let p = |i: int| rows[i].band == band;
    if n > 0 {
        last_is_picked(k, n, p);
        assert(p(n - 1) == (rows[n - 1].band == band));
        if p(n - 1) {
            a_band_is_counted_where_it_stands(rows, band, k.drop_last(), n - 1);
        } else {
            a_band_is_counted_where_it_stands(rows, band, k, n - 1);
        }
    } else if k.len() > 0 {
        assert(0 <= k[0] < n);
    }
}

// ---------------------------------------------------------------------------
// Occurrences
// ---------------------------------------------------------------------------

/// Where the search for the `j`-th occurrence begins: behind the one before it.
pub open spec fn sought_from(needle: Seq<u8>, hits: Seq<int>, j: int) -> int {
    if j <= 0 {
        0
    } else {
        hits[j - 1] + needle.len()
    }
}

/// Whether no occurrence of `needle` begins in `[a, b)`.
pub open spec fn none_between(hay: Seq<u8>, needle: Seq<u8>, a: int, b: int) -> bool {
    forall|i: int| a <= i < b ==> !#[trigger] bytes::occurs_at(hay, needle, i)
}

/// Whether the `j`-th of these is the next occurrence behind the one before.
pub open spec fn nth_hit(hay: Seq<u8>, needle: Seq<u8>, hits: Seq<int>, j: int) -> bool {
    &&& sought_from(needle, hits, j) <= hits[j]
    &&& bytes::occurs_at(hay, needle, hits[j])
    &&& none_between(hay, needle, sought_from(needle, hits, j), hits[j])
}

proof fn hits_counted(hay: Seq<u8>, needle: Seq<u8>, hits: Seq<int>, j: int)
    requires
        needle.len() > 0,
        0 <= j <= hits.len(),
        0 <= sought_from(needle, hits, j),
        forall|i: int| 0 <= i < hits.len() ==> #[trigger] nth_hit(hay, needle, hits, i),
        none_between(
            hay,
            needle,
            sought_from(needle, hits, hits.len() as int),
            hay.len() as int,
        ),
    ensures
        search::count_from(hay, needle, sought_from(needle, hits, j)) == hits.len() - j,
    decreases hits.len() - j,
{
    let from = sought_from(needle, hits, j);
    search::first_is_first(hay, needle, from);
    if j < hits.len() {
        assert(nth_hit(hay, needle, hits, j));
        hits_counted(hay, needle, hits, j + 1);
    }
}

/// Occurrences are counted one after the other, each from where the one before
/// it ends, so that none overlaps another and none is left out.
pub proof fn occurrences_are_counted_without_overlap(
    hay: Seq<u8>,
    needle: Seq<u8>,
    hits: Seq<int>,
)
    requires
        needle.len() > 0,
        forall|i: int| 0 <= i < hits.len() ==> #[trigger] nth_hit(hay, needle, hits, i),
        none_between(
            hay,
            needle,
            sought_from(needle, hits, hits.len() as int),
            hay.len() as int,
        ),
    ensures
        search::count_from(hay, needle, 0) == hits.len(),
{
    hits_counted(hay, needle, hits, 0);
}

} // verus!
