//! The entropy-coded scans of JPEG images: bytes, MCUs and components.

use vstd::prelude::*;
use super::super::jpeg_entropy as entropy;
use super::super::jpeg_entropy::{
    Component,
    Decoded,
    Huffman,
    Lane,
    Limits,
    Progress,
    Run,
    ScanComponent,
    Step,
};

verus! {

// ---------------------------------------------------------------------------
// Bytes
// ---------------------------------------------------------------------------

/// Bytes as they are written into a scan: a zero follows every `FF`.
pub open spec fn stuffed(b: Seq<u8>) -> Seq<u8>
    decreases b.len(),
{
    if b.len() == 0 {
        Seq::empty()
    } else if b[0] == 255 {
        seq![255u8, 0u8] + stuffed(b.skip(1))
    } else {
        seq![b[0]] + stuffed(b.skip(1))
    }
}

/// The bytes of a run are those that were written, up to the marker behind them.
pub proof fn stuffing_is_taken_out(d: Seq<u8>, at: int, b: Seq<u8>)
    requires
        0 <= at,
        at + stuffed(b).len() + 1 < d.len(),
        d.subrange(at, at + stuffed(b).len()) == stuffed(b),
        d[at + stuffed(b).len()] == 255,
        d[at + stuffed(b).len() + 1] != 0,
        d[at + stuffed(b).len() + 1] != 255,
    ensures
        entropy::run_from(d, at).bytes == b,
        entropy::run_from(d, at).stop == Some(at + stuffed(b).len()),
    decreases b.len(),
{
    let s = stuffed(b);
    let run = entropy::run_from(d, at);
    if b.len() > 0 {
        let rest = stuffed(b.skip(1));
        let n: int = if b[0] == 255 {
            2
        } else {
            1
        };
        assert(s.len() == n + rest.len());
        assert(d[at] == s[0]) by {
            assert(d.subrange(at, at + s.len())[0] == d[at]);
        }
        if b[0] == 255 {
            assert(d.subrange(at, at + s.len())[1] == d[at + 1]);
            assert(s[1] == 0);
        }
        assert(d.subrange(at + n, at + n + rest.len()) =~= rest) by {
            assert forall|i: int| 0 <= i < rest.len() implies #[trigger] d.subrange(
                at + n,
                at + n + rest.len(),
            )[i] == rest[i] by {
                assert(d.subrange(at, at + s.len())[n + i] == s[n + i]);
            }
        }
        stuffing_is_taken_out(d, at + n, b.skip(1));
        assert(run.bytes =~= b) by {
            assert(seq![b[0]] + b.skip(1) =~= b);
        }
    } else {
        assert(run.bytes =~= b);
    }
}

// ---------------------------------------------------------------------------
// MCUs
// ---------------------------------------------------------------------------

/// Where the decoding of a scan stands between two blocks.
pub struct Between {
    pub p: int,
    pub fetched: int,
    pub preds: Seq<int>,
}

/// How many blocks of the `ci`-th component an MCU has: one where it is alone in
/// the scan, else as many as it has samples across times those down.
pub open spec fn share(lanes: Seq<Lane>, ci: int) -> int {
    if lanes.len() == 1 {
        1
    } else {
        lanes[ci].h * lanes[ci].v
    }
}

/// Whether the `j`-th block, which is of the component `ci`, leads from one place
/// to the next.
pub open spec fn nth_block(
    lanes: Seq<Lane>,
    run: Run,
    lim: Limits,
    places: Seq<Between>,
    ci: int,
    j: int,
) -> bool {
    entropy::block_at(
        lanes[ci],
        ci,
        run,
        lim,
        places[j].p,
        places[j].fetched,
        places[j].preds,
    ) == (Step::On {
        p: places[j + 1].p,
        fetched: places[j + 1].fetched,
        preds: places[j + 1].preds,
    })
}

/// Whether `starts` is which block is the first of each component, one component
/// after the other, and how many there are.
pub open spec fn shared_out(lanes: Seq<Lane>, starts: Seq<int>) -> bool {
    &&& starts.len() == lanes.len() + 1
    &&& starts[0] == 0
    &&& forall|ci: int| 0 <= ci < lanes.len() ==> #[trigger] nth_share(lanes, starts, ci)
}

/// Whether the `ci`-th component has its share.
pub open spec fn nth_share(lanes: Seq<Lane>, starts: Seq<int>, ci: int) -> bool {
    &&& 0 <= starts[ci]
    &&& share(lanes, ci) >= 1
    &&& starts[ci + 1] == starts[ci] + share(lanes, ci)
}

proof fn along_an_mcu(
    lanes: Seq<Lane>,
    run: Run,
    lim: Limits,
    starts: Seq<int>,
    places: Seq<Between>,
    ci: int,
    bi: int,
)
    requires
        shared_out(lanes, starts),
        forall|c: int, j: int|
            0 <= c < lanes.len() && starts[c] <= j < starts[c + 1] ==> #[trigger] nth_block(
                lanes,
                run,
                lim,
                places,
                c,
                j,
            ),
        0 <= ci <= lanes.len(),
        ci == lanes.len() ==> bi == 0,
        ci < lanes.len() ==> 0 <= bi <= share(lanes, ci),
    ensures
        ({
            let at = places[starts[ci] + bi];
            let end = places[starts.last()];
            entropy::mcu_from(lanes, run, lim, ci, bi, at.p, at.fetched, at.preds) == (Step::On {
                p: end.p,
                fetched: end.fetched,
                preds: end.preds,
            })
        }),
    decreases
            lanes.len() - ci,
            if ci < lanes.len() {
                share(lanes, ci) - bi
            } else {
                0
            },
{
    if ci < lanes.len() {
        assert(nth_share(lanes, starts, ci));
        if bi < share(lanes, ci) {
            assert(nth_block(lanes, run, lim, places, ci, starts[ci] + bi));
            along_an_mcu(lanes, run, lim, starts, places, ci, bi + 1);
        } else {
            if ci + 1 < lanes.len() {
                assert(nth_share(lanes, starts, ci + 1));
            }
            along_an_mcu(lanes, run, lim, starts, places, ci + 1, 0);
        }
    }
}

/// An MCU is the blocks of its components, one component after the other, as many
/// of each as its share: where each decodes from where the one before it ended,
/// so does the MCU.
pub proof fn an_mcu_is_the_blocks_of_its_components(
    lanes: Seq<Lane>,
    run: Run,
    lim: Limits,
    starts: Seq<int>,
    places: Seq<Between>,
)
    requires
        shared_out(lanes, starts),
        forall|c: int, j: int|
            0 <= c < lanes.len() && starts[c] <= j < starts[c + 1] ==> #[trigger] nth_block(
                lanes,
                run,
                lim,
                places,
                c,
                j,
            ),
    ensures
        ({
            let end = places[starts.last()];
            entropy::mcu_from(
                lanes,
                run,
                lim,
                0,
                0,
                places[0].p,
                places[0].fetched,
                places[0].preds,
            ) == (Step::On { p: end.p, fetched: end.fetched, preds: end.preds })
        }),
{
    if lanes.len() > 0 {
        assert(nth_share(lanes, starts, 0));
    }
    along_an_mcu(lanes, run, lim, starts, places, 0, 0);
}

/// An MCU inside an interval is decoded where the one before it ended, and
/// counted; what stands goes up to the last byte that it took. One that cannot
/// be decoded is broken, and so is one that a marker cuts short; where the data
/// ends in it the scan is truncated. What stood before still does.
pub proof fn an_mcu_inside_an_interval(
    d: Seq<u8>,
    lanes: Seq<Lane>,
    lim: Limits,
    interval: int,
    st: Progress,
)
    requires
        interval <= 0 || st.since != interval,
    ensures
        ({
            let run = entropy::run_from(d, st.start);
            let r = entropy::mcu_more(d, lanes, lim, interval, st);
            match entropy::mcu_from(lanes, run, lim, 0, 0, st.p, st.fetched, st.preds) {
                Step::On { p, fetched, preds } => r matches Ok(next) && {
                    &&& next.p == p
                    &&& next.fetched == fetched
                    &&& next.preds == preds
                    &&& next.start == st.start
                    &&& next.mcus == st.mcus + 1
                    &&& next.since == st.since + 1
                    &&& next.restarts == st.restarts
                    &&& next.verified == (if fetched > 0 {
                        run.ends[fetched - 1]
                    } else {
                        st.start
                    })
                },
                Step::Bad { why } => r matches Err(Decoded::Broken { verified_to, mcus, why: w })
                    && verified_to == st.verified && mcus == st.mcus,
                Step::Short { why } => if run.stop is Some {
                    r matches Err(Decoded::Broken { verified_to, mcus, why: w }) && verified_to
                        == st.verified && mcus == st.mcus
                } else {
                    r == Err::<Progress, Decoded>(
                        Decoded::Truncated { verified_to: st.verified, mcus: st.mcus },
                    )
                },
            }
        }),
{
}

/// Where an interval is full, the restart marker comes before the next MCU.
pub proof fn an_interval_ends_with_its_restart(
    d: Seq<u8>,
    lanes: Seq<Lane>,
    lim: Limits,
    interval: int,
    st: Progress,
)
    requires
        interval > 0,
        st.since == interval,
    ensures
        match entropy::restarted(d, interval, st) {
            Err(e) => entropy::mcu_more(d, lanes, lim, interval, st) == Err::<Progress, Decoded>(e),
            Ok(next) => next.since == 0 && entropy::mcu_more(d, lanes, lim, interval, st)
                == entropy::mcu_more(d, lanes, lim, interval, next),
        },
{
}

// ---------------------------------------------------------------------------
// Components
// ---------------------------------------------------------------------------

/// Whether the `i`-th component of the frame is the first with this id.
pub open spec fn first_with(components: Seq<Component>, id: u8, i: int) -> bool {
    &&& 0 <= i < components.len()
    &&& components[i].id == id
    &&& forall|j: int| 0 <= j < i ==> (#[trigger] components[j]).id != id
}

proof fn component_found(components: Seq<Component>, id: u8, i: int, from: int)
    requires
        first_with(components, id, i),
        0 <= from <= i,
    ensures
        entropy::component_for(components, id, from) == Some(components[i]),
    decreases i - from,
{
    if from < i {
        assert(components[from].id != id);
        component_found(components, id, i, from + 1);
    }
}

proof fn component_missing(components: Seq<Component>, id: u8, from: int)
    requires
        forall|j: int| 0 <= j < components.len() ==> (#[trigger] components[j]).id != id,
        0 <= from,
    ensures
        entropy::component_for(components, id, from) is None,
    decreases components.len() - from,
{
    if from < components.len() {
        assert(components[from].id != id);
        component_missing(components, id, from + 1);
    }
}

/// Whether the `j`-th component of a scan is the frame's `which[j]`-th, and the
/// tables that it selects are there.
pub open spec fn nth_selected(
    components: Seq<Component>,
    scan: Seq<ScanComponent>,
    dc: Seq<Option<Huffman>>,
    ac: Seq<Option<Huffman>>,
    which: Seq<int>,
    j: int,
) -> bool {
    &&& first_with(components, scan[j].id, which[j])
    &&& scan[j].dc_table < dc.len() && dc[scan[j].dc_table as int] is Some
    &&& scan[j].ac_table < ac.len() && ac[scan[j].ac_table as int] is Some
}

/// Each component of a scan is decoded with its own sampling and with the tables
/// that it selects.
pub proof fn each_component_has_its_own_tables(
    components: Seq<Component>,
    scan: Seq<ScanComponent>,
    dc: Seq<Option<Huffman>>,
    ac: Seq<Option<Huffman>>,
    which: Seq<int>,
    n: int,
)
    requires
        0 <= n <= scan.len(),
        forall|j: int|
            0 <= j < n ==> #[trigger] nth_selected(components, scan, dc, ac, which, j),
    ensures
        entropy::lanes_of(components, scan, dc, ac, n) matches Some(lanes) && {
            &&& lanes.len() == n
            &&& forall|j: int|
                0 <= j < n ==> (#[trigger] lanes[j]).h == components[which[j]].h && lanes[j].v
                    == components[which[j]].v && lanes[j].dc == dc[scan[j].dc_table as int]->0@
                    && lanes[j].ac == ac[scan[j].ac_table as int]->0@
        },
    decreases n,
{
    if n > 0 {
        each_component_has_its_own_tables(components, scan, dc, ac, which, n - 1);
        assert(nth_selected(components, scan, dc, ac, which, n - 1));
        component_found(components, scan[n - 1].id, which[n - 1], 0);
    }
}

/// A scan of a component that the frame does not have, or with a table that was
/// never defined, cannot be decoded.
pub proof fn a_scan_needs_its_tables(
    components: Seq<Component>,
    scan: Seq<ScanComponent>,
    dc: Seq<Option<Huffman>>,
    ac: Seq<Option<Huffman>>,
    n: int,
    j: int,
)
    requires
        0 <= j < n <= scan.len(),
        ({
            ||| forall|i: int|
                0 <= i < components.len() ==> (#[trigger] components[i]).id != scan[j].id
            ||| scan[j].dc_table >= dc.len() || dc[scan[j].dc_table as int] is None
            ||| scan[j].ac_table >= ac.len() || ac[scan[j].ac_table as int] is None
        }),
    ensures
        entropy::lanes_of(components, scan, dc, ac, n) is None,
    decreases n,
{
    if j < n - 1 {
        a_scan_needs_its_tables(components, scan, dc, ac, n - 1, j);
    } else if forall|i: int|
        0 <= i < components.len() ==> (#[trigger] components[i]).id != scan[j].id {
        component_missing(components, scan[j].id, 0);
    }
}

} // verus!
