//! What a scan reports, told from the bytes of the device alone.

use vstd::prelude::*;
use crate::bytes;
use crate::prefilter;
use crate::signature::Format;
use crate::validate;
use crate::validate::Status;
use super::{Found, Pass, Terms, contain, hits};

verus! {

/// Whether the header of a format stands on the device for a file that begins
/// at `at`, before `limit`. Bits that the format's mask clears may be anything,
/// and so may bytes past its end.
pub open spec fn header_stands(f: Format, dev: Seq<u8>, limit: int, at: int) -> bool {
    &&& 0 <= at
    &&& at + f.header_offset + f.header.len() <= limit
    &&& at + f.header_offset + f.header.len() <= dev.len()
    &&& forall|j: int|
        0 <= j < f.header.len() ==> {
            let got = #[trigger] dev[at + f.header_offset + j];
            match f.header_mask {
                None => got == f.header[j],
                Some(mask) => j < mask.len() ==> got & mask[j] == f.header[j] & mask[j],
            }
        }
}

/// Whether `data` is what a validator is shown of a file at `at`: all that
/// stands there, but no more than the format permits, the range holds or the
/// window lets through.
pub open spec fn is_shown(
    f: Format,
    dev: Seq<u8>,
    limit: int,
    window: int,
    at: int,
    data: Seq<u8>,
) -> bool {
    let n = data.len();
    &&& at + n <= dev.len()
    &&& data == dev.subrange(at, at + n)
    &&& n <= f.max_size
    &&& n <= limit - at
    &&& n <= window
    &&& n == f.max_size || n == limit - at || n == window || at + n == dev.len()
}

/// Whether the format permits, and the range holds, more than the window lets
/// through.
pub open spec fn goes_past_the_window(f: Format, limit: int, window: int, at: int) -> bool {
    f.max_size > window && limit - at > window
}

/// Whether `x` is what is to be said of a file of format `f` at `at`, of which
/// a validator, shown `data`, said `v`: where it is, by which signature, and
/// what the validator found. Its extension is the one that the validator names,
/// and the signature's only where it names none. Its length is the validator's,
/// unless that is only how much it was shown.
pub open spec fn says(
    x: Found,
    f: Format,
    limit: int,
    window: int,
    at: int,
    data: Seq<u8>,
    v: validate::Verdict,
) -> bool {
    let is_window = goes_past_the_window(f, limit, window, at) && !v.length_established && v.length
        >= data.len();
    &&& v.refined_ext matches Some(e) ==> x.ext == e
    &&& v.refined_ext is None ==> x.ext == f.ext
    &&& x.status == v.status
    &&& x.evidence == v.evidence
    &&& x.length_established == v.length_established
    &&& !is_window ==> x.length == v.length && x.detail == v.detail
    &&& is_window ==> x.length == 0
}

/// Whether `x` is the candidate that a file of format `f` at `at` makes.
pub open spec fn reports(
    x: Found,
    f: Format,
    dev: Seq<u8>,
    limit: int,
    terms: Terms,
    at: int,
) -> bool {
    &&& x.offset == at
    &&& x.signature_id == f.id
    &&& x.category == f.category
    &&& x.header_span == f.header_offset + f.header.len()
    &&& if terms.validate && f.validator is Some {
        exists|data: Seq<u8>, v: validate::Verdict|
            {
                &&& #[trigger] is_shown(f, dev, limit, terms.window, at, data)
                &&& validate::verdict_of(f.validator->0, data) == Some(v)
                &&& v.status != Status::Rejected
                &&& #[trigger] says(x, f, limit, terms.window, at, data, v)
            }
    } else {
        &&& x.status == Status::Partial
        &&& x.length == 0
        &&& !x.length_established
        &&& x.ext == f.ext
        &&& x.evidence.len() == 0
    }
}

/// Whether the formats and the terms are such as a scan can have.
pub open spec fn sensible(f: Seq<Format>, terms: Terms) -> bool {
    &&& terms.window >= 0
    &&& forall|i: int| 0 <= i < f.len() ==> (#[trigger] f[i]).max_size >= 0
}

proof fn header_found(f: Seq<Format>, dev: Seq<u8>, limit: int, at: int, i: int)
    requires
        0 <= limit,
        0 <= i < f.len(),
        f[i].header.len() > 0,
    ensures
        hits::found(f, super::ranged(dev, limit), at, i) <==> header_stands(f[i], dev, limit, at),
{
    let g = f[i];
    let hay = super::ranged(dev, limit);
    if 0 <= at && at + g.span() <= hay.len() {
        assert forall|j: int| 0 <= j < g.header.len() implies #[trigger] g.agrees(
            j,
            hay[at + g.header_offset + j],
        ) == g.agrees(j, dev[at + g.header_offset + j]) by {}
        if g.stands(hay, at) {
            prefilter::a_lead_is_inside(g, hay, at);
            assert forall|j: int| 0 <= j < g.header.len() implies {
                let got = #[trigger] dev[at + g.header_offset + j];
                match g.header_mask {
                    None => got == g.header[j],
                    Some(mask) => j < mask.len() ==> got & mask[j] == g.header[j] & mask[j],
                }
            } by {
                assert(g.agrees(j, hay[at + g.header_offset + j]));
            }
        }
        if header_stands(g, dev, limit, at) {
            assert forall|j: int| 0 <= j < g.header.len() implies #[trigger] g.agrees(
                j,
                hay[at + g.header_offset + j],
            ) by {
                let got = dev[at + g.header_offset + j];
            }
            assert(g.stands(hay, at));
            prefilter::a_lead_is_inside(g, hay, at);
        }
    }
}

proof fn shown_read(f: Format, dev: Seq<u8>, limit: int, window: int, at: int)
    requires
        0 <= at <= limit,
        at <= dev.len(),
        f.max_size >= 0,
        window >= 0,
    ensures
        is_shown(
            f,
            dev,
            limit,
            window,
            at,
            super::read_of(dev, at, super::window_of(f, at, limit, window)),
        ),
{
}

proof fn shown_is_one(
    f: Format,
    dev: Seq<u8>,
    limit: int,
    window: int,
    at: int,
    a: Seq<u8>,
    b: Seq<u8>,
)
    requires
        is_shown(f, dev, limit, window, at, a),
        is_shown(f, dev, limit, window, at, b),
    ensures
        a == b,
{
    assert(a.len() == b.len());
}

/// What one header match makes.
proof fn made_reports(
    f: Seq<Format>,
    dev: Seq<u8>,
    limit: int,
    terms: Terms,
    at: int,
    i: int,
)
    requires
        sensible(f, terms),
        0 <= i < f.len(),
        0 <= at <= limit,
        at <= dev.len(),
    ensures
        super::made_of(f, dev, limit, terms, (at, i)) matches Some(x) ==> reports(
            x,
            f[i],
            dev,
            limit,
            terms,
            at,
        ),
        super::made_of(f, dev, limit, terms, (at, i)) is None <==> terms.validate
            && f[i].validator is Some && {
            let data = super::read_of(dev, at, super::window_of(f[i], at, limit, terms.window));
            match validate::verdict_of(f[i].validator->0, data) {
                None => true,
                Some(v) => v.status == Status::Rejected,
            }
        },
{
    let g = f[i];
    let data = super::read_of(dev, at, super::window_of(g, at, limit, terms.window));
    shown_read(g, dev, limit, terms.window, at);
    if let Some(x) = super::made_of(f, dev, limit, terms, (at, i)) {
        if terms.validate && g.validator is Some {
            let v = validate::verdict_of(g.validator->0, data)->0;
            assert(is_shown(g, dev, limit, terms.window, at, data));
            assert(says(x, g, limit, terms.window, at, data, v));
        }
    }
}

/// Each candidate of a tally is made of one of the matches.
proof fn tally_comes_from(
    f: Seq<Format>,
    dev: Seq<u8>,
    limit: int,
    terms: Terms,
    m: Seq<(int, int)>,
    n: int,
    k: int,
)
    requires
        0 <= n <= m.len(),
        0 <= k < super::tally(f, dev, limit, terms, m, n).found.len(),
    ensures
        exists|j: int|
            0 <= j < n && super::made_of(f, dev, limit, terms, #[trigger] m[j]) == Some(
                super::tally(f, dev, limit, terms, m, n).found[k],
            ),
    decreases n,
{
    if n > 0 {
        let was = super::tally(f, dev, limit, terms, m, n - 1).found;
        let now = super::tally(f, dev, limit, terms, m, n).found;
        if k < was.len() {
            assert(now[k] == was[k]);
            tally_comes_from(f, dev, limit, terms, m, n - 1, k);
        } else {
            assert(super::made_of(f, dev, limit, terms, m[n - 1]) == Some(now[k]));
        }
    }
}

proof fn kept_comes_from(s: Seq<Found>, cover: int, n: int, k: int)
    requires
        0 <= n <= s.len(),
        0 <= k < contain::swept_upto(s, cover, n).kept.len(),
    ensures
        s.contains(contain::swept_upto(s, cover, n).kept[k]),
    decreases n,
{
    if n > 0 {
        let was = contain::swept_upto(s, cover, n - 1).kept;
        let now = contain::swept_upto(s, cover, n).kept;
        if k < was.len() {
            assert(now[k] == was[k]);
            kept_comes_from(s, cover, n - 1, k);
        } else {
            assert(now[k] == s[n - 1]);
        }
    }
}

/// Every candidate of a scan is a file whose header stands there, in the
/// segment, and says of it what its validator says of the bytes that it was
/// shown: among the rest, its extension is the one that the validator names,
/// and the signature's only where it names none.
pub proof fn every_candidate_says_what_stands_there(
    f: Seq<Format>,
    dev: Seq<u8>,
    start: int,
    end: int,
    range_end: int,
    terms: Terms,
    cover_end: int,
    counted: int,
    k: int,
)
    requires
        sensible(f, terms),
        forall|i: int| 0 <= i < f.len() ==> (#[trigger] f[i]).header.len() > 0,
        0 <= start,
        end <= range_end,
        0 <= k < super::pass(f, dev, start, end, range_end, terms, cover_end, counted).found.len(),
    ensures
        ({
            let x = super::pass(f, dev, start, end, range_end, terms, cover_end, counted).found[k];
            &&& start <= x.offset < end
            &&& exists|i: int|
                {
                    &&& 0 <= i < f.len()
                    &&& header_stands(#[trigger] f[i], dev, range_end, x.offset)
                    &&& reports(x, f[i], dev, range_end, terms, x.offset)
                }
        }),
{
    let p = super::pass(f, dev, start, end, range_end, terms, cover_end, counted);
    let x = p.found[k];
    let hay = super::ranged(dev, range_end);
    let all = hits::matches_in(f, hay, start, end);
    hits::matches_are_those(f, hay, start, end);
    let n = super::least(all.len() as int, super::budget(terms.most, counted));
    let m = all.subrange(0, n);
    let t = super::tally(f, dev, range_end, terms, m, n).found;
    assert(t.contains(x)) by {
        if terms.suppress {
            let s = contain::ordered(t);
            contain::ordered_keeps_count(t);
            kept_comes_from(s, cover_end, t.len() as int, k);
            let l = choose|l: int| 0 <= l < s.len() && s[l] == x;
            contain::order_invents_nothing(t, l);
        }
    }
    let l = choose|l: int| 0 <= l < t.len() && t[l] == x;
    tally_comes_from(f, dev, range_end, terms, m, n, l);
    let j = choose|j: int|
        0 <= j < n && super::made_of(f, dev, range_end, terms, #[trigger] m[j]) == Some(x);
    let (at, i) = m[j];
    assert(all[j] == (at, i));
    header_found(f, dev, range_end, at, i);
    made_reports(f, dev, range_end, terms, at, i);
    assert(header_stands(f[i], dev, range_end, x.offset));
}

/// Wherever in the segment the header of a format stands, and its validator,
/// where it has one, accepts the bytes that it is shown, the scan says so, or
/// says that a complete file contains it; unless it ran out of candidates to
/// count.
pub proof fn every_file_there_is_reported(
    f: Seq<Format>,
    dev: Seq<u8>,
    start: int,
    end: int,
    range_end: int,
    terms: Terms,
    cover_end: int,
    counted: int,
    at: int,
    i: int,
    data: Seq<u8>,
)
    requires
        sensible(f, terms),
        0 <= i < f.len(),
        f[i].header.len() > 0,
        0 <= start <= at < end <= range_end,
        header_stands(f[i], dev, range_end, at),
        terms.validate && f[i].validator is Some ==> {
            &&& is_shown(f[i], dev, range_end, terms.window, at, data)
            &&& validate::verdict_of(f[i].validator->0, data) matches Some(v) && v.status
                != Status::Rejected
        },
        !super::pass(f, dev, start, end, range_end, terms, cover_end, counted).truncated,
    ensures
        ({
            let found = super::pass(f, dev, start, end, range_end, terms, cover_end, counted).found;
            exists|x: Found|
                {
                    &&& #[trigger] reports(x, f[i], dev, range_end, terms, at)
                    &&& found.contains(x) || (terms.suppress && x.length > 0 && (ends(x)
                        <= cover_end || exists|j: int|
                        {
                            &&& 0 <= j < found.len()
                            &&& (#[trigger] found[j]).status == Status::Valid
                                || found[j].length_established
                            &&& found[j].offset <= x.offset
                            &&& ends(x) <= ends(found[j])
                        }))
                }
        }),
{
    let p = super::pass(f, dev, start, end, range_end, terms, cover_end, counted);
    header_found(f, dev, range_end, at, i);
    made_reports(f, dev, range_end, terms, at, i);
    shown_read(f[i], dev, range_end, terms.window, at);
    if terms.validate && f[i].validator is Some {
        shown_is_one(
            f[i],
            dev,
            range_end,
            terms.window,
            at,
            data,
            super::read_of(dev, at, super::window_of(f[i], at, range_end, terms.window)),
        );
    }
    super::what_is_there_is_found(
        f,
        dev,
        start,
        end,
        range_end,
        terms,
        cover_end,
        counted,
        at,
        i,
    );
    let x = super::made_of(f, dev, range_end, terms, (at, i))->0;
    assert(reports(x, f[i], dev, range_end, terms, at));
    if !p.found.contains(x) && ends(x) > cover_end {
        let j = choose|j: int|
            {
                &&& 0 <= j < p.found.len()
                &&& contain::judges(#[trigger] p.found[j])
                &&& p.found[j].offset <= x.offset
                &&& x.end() <= p.found[j].end()
            };
        assert(p.found[j].status == Status::Valid || p.found[j].length_established);
    }
}

/// Where a candidate ends, as far as 64 bits can say.
pub open spec fn ends(x: Found) -> int {
    if x.offset + x.length > u64::MAX {
        u64::MAX as int
    } else {
        x.offset + x.length
    }
}

proof fn kept_sticks_out(s: Seq<Found>, cover: int, n: int)
    requires
        0 <= n <= s.len(),
    ensures
        ({
            let w = contain::swept_upto(s, cover, n);
            &&& w.cover >= cover
            &&& forall|k: int| 0 <= k < w.kept.len() ==> (#[trigger] w.kept[k]).length > 0 ==> ends(
                w.kept[k],
            ) > cover
            &&& forall|k: int|
                0 <= k < w.kept.len() && (#[trigger] w.kept[k].status == Status::Valid
                    || w.kept[k].length_established) ==> ends(w.kept[k]) <= w.cover
            &&& forall|i: int, k: int|
                0 <= i < k < w.kept.len() && ((#[trigger] w.kept[i]).status == Status::Valid
                    || w.kept[i].length_established) && (#[trigger] w.kept[k]).length > 0 ==> ends(
                    w.kept[k],
                ) > ends(w.kept[i])
        }),
    decreases n,
{
    if n > 0 {
        kept_sticks_out(s, cover, n - 1);
    }
}

/// With contained candidates dropped, no candidate that has a length lies inside
/// a complete one that comes before it, nor inside what was covered before; and
/// they come by where they begin, the longer first.
pub proof fn no_candidate_is_contained(
    f: Seq<Format>,
    dev: Seq<u8>,
    start: int,
    end: int,
    range_end: int,
    terms: Terms,
    cover_end: int,
    counted: int,
    i: int,
    k: int,
)
    requires
        terms.suppress,
        0 <= i < k < super::pass(
            f,
            dev,
            start,
            end,
            range_end,
            terms,
            cover_end,
            counted,
        ).found.len(),
    ensures
        ({
            let found = super::pass(f, dev, start, end, range_end, terms, cover_end, counted).found;
            &&& found[i].offset <= found[k].offset
            &&& found[i].offset == found[k].offset ==> found[i].length >= found[k].length
            &&& found[k].length > 0 ==> ends(found[k]) > cover_end
            &&& found[k].length > 0 && (found[i].status == Status::Valid
                || found[i].length_established) ==> ends(found[k]) > ends(found[i])
        }),
{
    let limit = bytes::larger(range_end, end);
    let all = hits::matches_in(f, super::ranged(dev, limit), start, end);
    let n = super::least(all.len() as int, super::budget(terms.most, counted));
    let t = super::tally(f, dev, limit, terms, all.subrange(0, n), n).found;
    let s = contain::ordered(t);
    contain::ordered_keeps_count(t);
    kept_sticks_out(s, cover_end, t.len() as int);
    kept_keeps_order(s, cover_end, t.len() as int, i, k);
    contain::ordered_is_in_order(t, t.len() as int);
}

proof fn kept_keeps_order(s: Seq<Found>, cover: int, n: int, i: int, k: int)
    requires
        0 <= n <= s.len(),
        0 <= i < k < contain::swept_upto(s, cover, n).kept.len(),
    ensures
        exists|a: int, b: int|
            0 <= a < b < n && #[trigger] s[a] == contain::swept_upto(s, cover, n).kept[i]
                && #[trigger] s[b] == contain::swept_upto(s, cover, n).kept[k],
    decreases n,
{
    if n > 0 {
        let was = contain::swept_upto(s, cover, n - 1).kept;
        let now = contain::swept_upto(s, cover, n).kept;
        if k < was.len() {
            kept_keeps_order(s, cover, n - 1, i, k);
            let (a, b) = choose|a: int, b: int|
                0 <= a < b < n - 1 && #[trigger] s[a] == was[i] && #[trigger] s[b] == was[k];
            assert(s[a] == now[i] && s[b] == now[k]);
        } else {
            kept_is_from_before(s, cover, n - 1, i);
            let a = choose|a: int| 0 <= a < n - 1 && #[trigger] s[a] == was[i];
            assert(s[a] == now[i] && s[n - 1] == now[k]);
        }
    }
}

proof fn kept_is_from_before(s: Seq<Found>, cover: int, n: int, k: int)
    requires
        0 <= n <= s.len(),
        0 <= k < contain::swept_upto(s, cover, n).kept.len(),
    ensures
        exists|a: int| 0 <= a < n && #[trigger] s[a] == contain::swept_upto(s, cover, n).kept[k],
    decreases n,
{
    if n > 0 {
        let was = contain::swept_upto(s, cover, n - 1).kept;
        let now = contain::swept_upto(s, cover, n).kept;
        if k < was.len() {
            kept_is_from_before(s, cover, n - 1, k);
            let a = choose|a: int| 0 <= a < n - 1 && #[trigger] s[a] == was[k];
            assert(s[a] == now[k]);
        } else {
            assert(s[n - 1] == now[k]);
        }
    }
}

/// A scan restricted to some ids looks for the formats with those ids, and one
/// that is not restricted for all of them.
pub proof fn a_scan_looks_for_what_is_wanted(f: Seq<Format>, only: Option<Seq<Seq<char>>>, x: Format)
    ensures
        super::chosen(f, only).contains(x) <==> f.contains(x) && match only {
            None => true,
            Some(ids) => ids.contains(x.id),
        },
        only is None ==> super::chosen(f, only) == f,
{
    chosen_so_far(f, only, x, f.len() as int);
    assert(f.subrange(0, f.len() as int) =~= f);
}

proof fn chosen_so_far(f: Seq<Format>, only: Option<Seq<Seq<char>>>, x: Format, n: int)
    requires
        0 <= n <= f.len(),
    ensures
        super::chosen_upto(f, only, n).contains(x) <==> f.subrange(0, n).contains(x) && match only {
            None => true,
            Some(ids) => ids.contains(x.id),
        },
        only is None ==> super::chosen_upto(f, only, n) == f.subrange(0, n),
    decreases n,
{
    let now = super::chosen_upto(f, only, n);
    if n > 0 {
        chosen_so_far(f, only, x, n - 1);
        let was = super::chosen_upto(f, only, n - 1);
        let part = f.subrange(0, n - 1);
        let whole = f.subrange(0, n);
        assert(whole =~= part.push(f[n - 1]));
        if whole.contains(x) {
            let k = choose|k: int| 0 <= k < whole.len() && whole[k] == x;
            if k < n - 1 {
                assert(part[k] == x);
            }
        }
        if part.contains(x) {
            let k = choose|k: int| 0 <= k < part.len() && part[k] == x;
            assert(whole[k] == x);
        }
        if was.contains(x) {
            let k = choose|k: int| 0 <= k < was.len() && was[k] == x;
            assert(now[k] == x);
        }
        if now.len() > was.len() {
            assert(now.last() == f[n - 1]);
            assert(whole[n - 1] == f[n - 1]);
            if now.contains(x) {
                let k = choose|k: int| 0 <= k < now.len() && now[k] == x;
                if k < was.len() {
                    assert(was[k] == x);
                }
            }
            if x == f[n - 1] {
                assert(now[now.len() - 1] == x);
            }
        }
    } else {
        assert(f.subrange(0, 0) =~= Seq::<Format>::empty());
    }
}

/// A scan runs with at least one worker and at most eight: as many as are asked
/// for, or else as the machine has, where that is in between.
pub proof fn workers_are_bounded(asked: Option<usize>, available: Option<usize>)
    ensures
        1 <= super::workers(asked, available) <= 8,
        asked is Some && 1 <= asked->0 <= 8 ==> super::workers(asked, available) == asked->0,
        asked is Some && asked->0 > 8 ==> super::workers(asked, available) == 8,
        asked is None && available is Some && 1 <= available->0 <= 8 ==> super::workers(
            asked,
            available,
        ) == available->0,
        asked is None && available is None ==> super::workers(asked, available) == 4,
{
}

} // verus!
