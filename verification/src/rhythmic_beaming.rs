//! How the notes of a run are joined by beams.
//!
//! Beams follow the same divisions of the metre as long notes: the run is spelled as if it were
//! one long note, and beams break between the pieces of that note and before every division of
//! two or more beats.
use crate::arith::{from_tick, lemma_ticks, on_grid, q_add, q_int, q_le, q_lt, reduced, tick, Q};
use crate::bar::Bar;
use crate::bar_child::BarChild;
use crate::duration::{display_base, Duration, NoteValue};
use crate::entity::{EntitiesRes, Entity};
use crate::metre::{division_at, Metre};
use crate::notes::{
    div_tick, grid_of, grid_ok, lemma_div_ticks, lemma_divides_trans, lemma_grid_scale,
    lemma_notes_refine, lemma_zero_tick, notes_on, rational_of, ticks_of, tsum,
};
use crate::rational::{i64_lcm, Rational};
use crate::split::{dsum, durs_on, metre_split_note, pieces_are, split_ends, split_fuel, split_q};
use vstd::prelude::*;

verus! {

/// How many beams join a note to the notes before and after it.
#[derive(Debug, Copy, Clone, PartialEq, Eq, Structural, Hash)]
pub struct RhythmicBeaming {
    /// Number of beams coming into this note. 0 if this is the start.
    pub entering: u8,
    /// Number of beams coming out of this note. 0 if this is the start.
    pub leaving: u8,
}

/// The played lengths of `ds`.
pub open spec fn lens(ds: Seq<Duration>) -> Seq<Q> {
    ds.map_values(|d: Duration| d.duration_q())
}

/// The lengths `qs` added up.
pub open spec fn q_total(qs: Seq<Q>) -> Q
    decreases qs.len(),
{
    if qs.len() == 0 {
        q_int(0)
    } else {
        q_add(q_total(qs.drop_last()), qs.last())
    }
}

/// Where item `i` of a run of lengths `qs` that starts at `t0` starts.
pub open spec fn run_start(qs: Seq<Q>, t0: Q, i: int) -> Q {
    q_add(t0, q_total(qs.subrange(0, i)))
}

/// The first piece, from `p` on, of the run `ps` from `t0` that ends after `s` (`ps.len()` if
/// there is none).
pub open spec fn piece_of(ps: Seq<Q>, t0: Q, s: Q, p: int) -> int
    decreases ps.len() - p,
{
    if p < 0 || p >= ps.len() {
        ps.len() as int
    } else if q_lt(s, run_start(ps, t0, p + 1)) {
        p
    } else {
        piece_of(ps, t0, s, p + 1)
    }
}

/// The number of beams (or flags) of the note value that `d` is drawn with.
pub open spec fn beams_of(d: Duration) -> int {
    match (if d.is_whole_rest() {
        Some(NoteValue::Whole)
    } else {
        display_base(d.display_q())
    }) {
        Some(v) => v.beams_spec(),
        None => 0,
    }
}

/// Whether a division of two or more beats starts at `s`.
pub open spec fn beat_start(m: Metre, s: Q) -> bool {
    match division_at(m.segments(), s, 0) {
        Some(j) => m.segments()[j].subdivisions_spec() >= 2,
        None => false,
    }
}

/// The piece of `ps` that note `i` of the run `qs` starts in (both from `t0`).
pub open spec fn piece_at(qs: Seq<Q>, ps: Seq<Q>, t0: Q, i: int) -> int {
    piece_of(ps, t0, run_start(qs, t0, i), 0)
}

/// Whether the beams break before note `i`: it is the first note, the first in its piece, or
/// it starts a division of two or more beats.
pub open spec fn split_before(m: Metre, qs: Seq<Q>, ps: Seq<Q>, t0: Q, i: int) -> bool {
    ||| i == 0
    ||| piece_at(qs, ps, t0, i) != piece_at(qs, ps, t0, i - 1)
    ||| beat_start(m, run_start(qs, t0, i))
}

/// The first note, from `i` on, that starts after the pieces (or the end of the run).
pub open spec fn beamed_end(qs: Seq<Q>, ps: Seq<Q>, t0: Q, i: int) -> int
    decreases qs.len() - i,
{
    if i < 0 || i >= qs.len() || piece_at(qs, ps, t0, i) >= ps.len() {
        i
    } else {
        beamed_end(qs, ps, t0, i + 1)
    }
}

/// The beams of note `i` of `ds` among the first `n` notes, the run being spelled as `ps`.
pub open spec fn beaming_at(m: Metre, ds: Seq<Duration>, ps: Seq<Q>, t0: Q, n: int, i: int) -> Option<
    RhythmicBeaming,
> {
    let qs = lens(ds);
    let beam = beams_of(ds[i]);
    let prev = if !split_before(m, qs, ps, t0, i) {
        beams_of(ds[i - 1])
    } else {
        0
    };
    let next = if i + 1 < n && !split_before(m, qs, ps, t0, i + 1) {
        beams_of(ds[i + 1])
    } else {
        0
    };
    if beam == 0 || (prev == 0 && next == 0) {
        None
    } else {
        Some(
            RhythmicBeaming {
                entering: if prev > 0 {
                    beam as u8
                } else {
                    0
                },
                leaving: if next > 0 {
                    beam as u8
                } else {
                    0
                },
            },
        )
    }
}

/// Beams never cross into a division of two or more beats: a note that starts such a division
/// (compound divisions of three beats included) has no beam coming in, and the note before it
/// none going out.
pub proof fn law_beams_break_at_divisions(m: Metre, ds: Seq<Duration>, ps: Seq<Q>, t0: Q, n: int, i: int)
    requires
        0 <= i < n <= ds.len(),
    ensures
        (beaming_at(m, ds, ps, t0, n, i) matches Some(b) && b.entering > 0) ==> !(division_at(
            m.segments(),
            run_start(lens(ds), t0, i),
            0,
        ) matches Some(j) && m.segments()[j].subdivisions_spec() >= 2),
        (beaming_at(m, ds, ps, t0, n, i) matches Some(b) && b.leaving > 0) ==> !(division_at(
            m.segments(),
            run_start(lens(ds), t0, i + 1),
            0,
        ) matches Some(j) && m.segments()[j].subdivisions_spec() >= 2),
{
}

/// No beam crosses the start of a division of two or more beats (compound divisions of three
/// included): when note `i` of a run starts such a division, no beam enters it and, where a
/// note comes before it, no beam leaves that note.
pub proof fn law_no_beam_across_long_division(
    m: Metre,
    ds: Seq<Duration>,
    ps: Seq<Q>,
    t0: Q,
    n: int,
    i: int,
    j: int,
)
    requires
        m.wf(),
        0 <= i < n <= ds.len(),
        0 <= j < m.segments().len(),
        m.start_q(j) == run_start(lens(ds), t0, i),
        m.segments()[j].subdivisions_spec() >= 2,
    ensures
        beaming_at(m, ds, ps, t0, n, i) matches Some(b) ==> b.entering == 0,
        i > 0 ==> (beaming_at(m, ds, ps, t0, n, i - 1) matches Some(b) ==> b.leaving == 0),
{
    crate::metre::lemma_division_at_start(m.segments(), run_start(lens(ds), t0, i), 0, j);
    law_beams_break_at_divisions(m, ds, ps, t0, n, i);
    if i > 0 {
        law_beams_break_at_divisions(m, ds, ps, t0, n, i - 1);
    }
}

/// Beams join neighbours: a beam leaves a note exactly when one enters the next note, no beam
/// enters the first note of a run, and none leaves the last; a beamed note has a beam on at
/// least one side, and each beam it has counts the beams of its note value.
pub proof fn law_beams_join_neighbours(m: Metre, ds: Seq<Duration>, ps: Seq<Q>, t0: Q, n: int, i: int)
    requires
        0 <= i < n <= ds.len(),
    ensures
        i + 1 < n ==> ((beaming_at(m, ds, ps, t0, n, i) matches Some(b) && b.leaving > 0) == (
        beaming_at(m, ds, ps, t0, n, i + 1) matches Some(c) && c.entering > 0)),
        i == 0 ==> !(beaming_at(m, ds, ps, t0, n, i) matches Some(b) && b.entering > 0),
        i + 1 == n ==> !(beaming_at(m, ds, ps, t0, n, i) matches Some(b) && b.leaving > 0),
        beaming_at(m, ds, ps, t0, n, i) matches Some(b) ==> {
            &&& b.entering > 0 || b.leaving > 0
            &&& b.entering == 0 || b.entering == beams_of(ds[i])
            &&& b.leaving == 0 || b.leaving == beams_of(ds[i])
        },
{
}

/// Beams do not cross a break: a note that a beam enters is not the first of its piece of the
/// run, and does not start a division of two or more beats.
pub proof fn lemma_beams_stay_within_beats(m: Metre, ds: Seq<Duration>, ps: Seq<Q>, t0: Q, n: int, i: int)
    requires
        0 <= i < n <= ds.len(),
    ensures
        (beaming_at(m, ds, ps, t0, n, i) matches Some(b) && b.entering > 0) ==> {
            &&& i > 0
            &&& piece_at(lens(ds), ps, t0, i) == piece_at(lens(ds), ps, t0, i - 1)
            &&& !beat_start(m, run_start(lens(ds), t0, i))
        },
{
}

/// The lengths `qs` added up, in steps of `1 / g`.
pub open spec fn tick_total(qs: Seq<Q>, g: int) -> int
    decreases qs.len(),
{
    if qs.len() == 0 {
        0
    } else {
        tick_total(qs.drop_last(), g) + tick(qs.last(), g)
    }
}

/// Every length in `qs` is in lowest terms, on the grid of `1 / g`, and not negative.
pub open spec fn lens_on(qs: Seq<Q>, g: int) -> bool {
    forall|i: int| 0 <= i < qs.len() ==> reduced(#[trigger] qs[i]) && on_grid(qs[i], g) && 0 <= tick(qs[i], g)
}

proof fn lemma_played_reduced(d: Duration)
    requires
        d.wf(),
    ensures
        reduced(d.duration_q()),
{
    assert(d.display_q().d * d.tuplet_q().n > 0) by (nonlinear_arith)
        requires
            d.display_q().d > 0,
            d.tuplet_q().n > 0,
    ;
    crate::arith::lemma_canon(d.display_q().n * d.tuplet_q().d, d.display_q().d * d.tuplet_q().n);
}

pub(crate) proof fn lemma_total_ticks(qs: Seq<Q>, g: int)
    requires
        g > 0,
        lens_on(qs, g),
    ensures
        q_total(qs) == from_tick(tick_total(qs, g), g),
        0 <= tick_total(qs, g),
    decreases qs.len(),
{
    if qs.len() == 0 {
        lemma_zero_tick(g);
    } else {
        let a = qs.drop_last();
        assert forall|i: int| 0 <= i < a.len() implies reduced(#[trigger] a[i]) && on_grid(a[i], g) && 0
            <= tick(a[i], g) by {
            assert(a[i] == qs[i]);
        }
        lemma_total_ticks(a, g);
        assert(qs.last() == qs[qs.len() - 1]);
        crate::arith::lemma_grid_determined(qs.last(), g);
        lemma_ticks(tick_total(a, g), tick(qs.last(), g), g);
    }
}

proof fn lemma_prefix_ticks(qs: Seq<Q>, g: int, i: int)
    requires
        g > 0,
        lens_on(qs, g),
        0 <= i <= qs.len(),
    ensures
        lens_on(qs.subrange(0, i), g),
        0 <= tick_total(qs.subrange(0, i), g),
        tick_total(qs.subrange(0, i), g) <= tick_total(qs, g),
        i < qs.len() ==> tick_total(qs.subrange(0, i + 1), g) == tick_total(qs.subrange(0, i), g) + tick(
            qs[i],
            g,
        ),
    decreases qs.len(),
{
    let s = qs.subrange(0, i);
    assert forall|k: int| 0 <= k < s.len() implies reduced(#[trigger] s[k]) && on_grid(s[k], g) && 0
        <= tick(s[k], g) by {
        assert(s[k] == qs[k]);
    }
    if i < qs.len() {
        let a = qs.drop_last();
        assert forall|k: int| 0 <= k < a.len() implies reduced(#[trigger] a[k]) && on_grid(a[k], g) && 0
            <= tick(a[k], g) by {
            assert(a[k] == qs[k]);
        }
        lemma_prefix_ticks(a, g, i);
        assert(a.subrange(0, i) =~= s);
        assert(qs.last() == qs[qs.len() - 1]);
        assert(qs.subrange(0, i + 1).drop_last() =~= s);
        assert(qs.subrange(0, i + 1).last() == qs[i]);
    } else {
        assert(s =~= qs);
    }
    lemma_total_ticks(s, g);
}

proof fn lemma_dsum_lens(ds: Seq<Duration>, g: int)
    ensures
        dsum(ds, g) == tick_total(lens(ds), g),
    decreases ds.len(),
{
    if ds.len() > 0 {
        assert(lens(ds).drop_last() =~= lens(ds.drop_last()));
        lemma_dsum_lens(ds.drop_last(), g);
    }
}

proof fn lemma_lens_on(ds: Seq<Duration>, g: int)
    requires
        durs_on(ds, g),
        forall|i: int| 0 <= i < ds.len() ==> (#[trigger] ds[i]).wf(),
    ensures
        lens_on(lens(ds), g),
{
    assert forall|i: int| 0 <= i < lens(ds).len() implies reduced(#[trigger] lens(ds)[i]) && on_grid(
        lens(ds)[i],
        g,
    ) && 0 <= tick(lens(ds)[i], g) by {
        lemma_played_reduced(ds[i]);
    }
}

/// Where item `i` of the run starts, in steps of `1 / g`.
proof fn lemma_run_start(qs: Seq<Q>, t0: Q, t0t: int, g: int, i: int)
    requires
        g > 0,
        lens_on(qs, g),
        t0 == from_tick(t0t, g),
        0 <= i <= qs.len(),
    ensures
        run_start(qs, t0, i) == from_tick(t0t + tick_total(qs.subrange(0, i), g), g),
        0 <= tick_total(qs.subrange(0, i), g) <= tick_total(qs, g),
{
    lemma_prefix_ticks(qs, g, i);
    lemma_total_ticks(qs.subrange(0, i), g);
    lemma_ticks(t0t, tick_total(qs.subrange(0, i), g), g);
}

/// Pieces that end by `s` are passed over.
proof fn lemma_piece_skip(ps: Seq<Q>, t0: Q, t0t: int, s: Q, st: int, g: int, k: int, p: int)
    requires
        g > 0,
        lens_on(ps, g),
        t0 == from_tick(t0t, g),
        s == from_tick(st, g),
        0 <= k <= p <= ps.len(),
        forall|j: int| k <= j < p ==> t0t + tick_total(#[trigger] ps.subrange(0, j + 1), g) <= st,
    ensures
        piece_of(ps, t0, s, k) == piece_of(ps, t0, s, p),
    decreases p - k,
{
    if k < p {
        lemma_run_start(ps, t0, t0t, g, k + 1);
        lemma_ticks(st, t0t + tick_total(ps.subrange(0, k + 1), g), g);
        lemma_piece_skip(ps, t0, t0t, s, st, g, k + 1, p);
    }
}

/// The least common multiple of `acc` and the denominators of the played lengths of `ds`.
fn durs_grid(ds: &Vec<Duration>, acc: i64, Ghost(l): Ghost<int>) -> (g: i64)
    requires
        grid_ok(l),
        grid_ok(acc as int),
        l % (acc as int) == 0,
        forall|i: int| 0 <= i < ds@.len() ==> (#[trigger] ds@[i]).wf() && on_grid(ds@[i].duration_q(), l),
    ensures
        grid_ok(g as int),
        l % (g as int) == 0,
        (g as int) % (acc as int) == 0,
        forall|i: int| 0 <= i < ds@.len() ==> on_grid((#[trigger] ds@[i]).duration_q(), g as int),
{
    let mut g = acc;
    let mut i: usize = 0;
    proof {
        vstd::arithmetic::div_mod::lemma_mod_self_0(acc as int);
    }
    while i < ds.len()
        invariant
            grid_ok(l),
            grid_ok(acc as int),
            forall|k: int| 0 <= k < ds@.len() ==> (#[trigger] ds@[k]).wf() && on_grid(ds@[k].duration_q(), l),
            i <= ds@.len(),
            g > 0,
            l % (g as int) == 0,
            (g as int) % (acc as int) == 0,
            forall|k: int| 0 <= k < i ==> on_grid((#[trigger] ds@[k]).duration_q(), g as int),
        decreases ds@.len() - i,
    {
        let d = ds[i].duration();
        let g2 = i64_lcm(g, d.denom(), Ghost(l));
        proof {
            crate::arith::lemma_lcm(g as nat, d@.d as nat, l);
            lemma_divides_trans(acc as int, g as int, g2 as int);
            assert forall|k: int| 0 <= k < i + 1 implies on_grid((#[trigger] ds@[k]).duration_q(), g2 as int) by {
                if k < i {
                    lemma_divides_trans(ds@[k].duration_q().d, g as int, g2 as int);
                }
            }
        }
        g = g2;
        i = i + 1;
    }
    proof {
        vstd::arithmetic::div_mod::lemma_fundamental_div_mod(l, g as int);
        lemma_divides_trans(32, acc as int, g as int);
        assert(g as int <= l) by (nonlinear_arith)
            requires
                l == (g as int) * (l / (g as int)) + l % (g as int),
                l % (g as int) == 0,
                l > 0,
                g > 0,
        ;
    }
    g
}

/// The lengths of `ds` added up, in steps of `1 / g`.
fn run_ticks(ds: &Vec<Duration>, g: i64) -> (t: i64)
    requires
        grid_ok(g as int),
        forall|i: int| 0 <= i < ds@.len() ==> (#[trigger] ds@[i]).wf(),
        lens_on(lens(ds@), g as int),
        tick_total(lens(ds@), g as int) <= 0x1_0000_0000,
    ensures
        t == tick_total(lens(ds@), g as int),
{
    let ghost qs = lens(ds@);
    let mut t: i64 = 0;
    let mut i: usize = 0;
    proof {
        lemma_prefix_ticks(qs, g as int, 0);
        assert(qs.subrange(0, 0).len() == 0);
    }
    while i < ds.len()
        invariant
            grid_ok(g as int),
            forall|k: int| 0 <= k < ds@.len() ==> (#[trigger] ds@[k]).wf(),
            qs == lens(ds@),
            lens_on(qs, g as int),
            tick_total(qs, g as int) <= 0x1_0000_0000,
            i <= ds@.len(),
            t == tick_total(qs.subrange(0, i as int), g as int),
        decreases ds@.len() - i,
    {
        proof {
            lemma_prefix_ticks(qs, g as int, i as int);
            lemma_prefix_ticks(qs, g as int, i as int + 1);
            assert(qs[i as int] == ds@[i as int].duration_q());
        }
        let d = ticks_of(ds[i].duration(), g);
        t = t + d;
        i = i + 1;
    }
    proof {
        assert(qs.subrange(0, ds@.len() as int) =~= qs);
    }
    t
}

/// From piece `p` (ending at tick `pe`) on, the first piece of `pieces` (from tick `t0t`) that
/// ends after tick `st`, and where it ends.
fn pass_ended(pieces: &Vec<Duration>, p: usize, pe: i64, st: i64, t0t: i64, g: i64) -> (r: (usize, i64))
    requires
        grid_ok(g as int),
        forall|k: int| 0 <= k < pieces@.len() ==> (#[trigger] pieces@[k]).wf(),
        lens_on(lens(pieces@), g as int),
        -0x4000_0000 <= t0t,
        t0t + tick_total(lens(pieces@), g as int) <= 0x4000_0000,
        -0x4000_0000 <= st <= 0x4000_0000,
        p <= pieces@.len(),
        p < pieces@.len() ==> pe == t0t + tick_total(lens(pieces@).subrange(0, p + 1), g as int),
        forall|j: int| 0 <= j < p ==> t0t + tick_total(#[trigger] lens(pieces@).subrange(0, j + 1), g as int) <= st,
    ensures
        p <= r.0 <= pieces@.len(),
        r.0 < pieces@.len() ==> r.1 == t0t + tick_total(lens(pieces@).subrange(0, r.0 + 1), g as int),
        r.0 < pieces@.len() ==> st < r.1,
        forall|j: int| 0 <= j < r.0 ==> t0t + tick_total(#[trigger] lens(pieces@).subrange(0, j + 1), g as int) <= st,
{
    let ghost gi = g as int;
    let ghost ps = lens(pieces@);
    let np = pieces.len();
    let mut p = p;
    let mut pe = pe;
    while p < np && pe <= st
        invariant
            grid_ok(gi),
            gi == g,
            forall|k: int| 0 <= k < pieces@.len() ==> (#[trigger] pieces@[k]).wf(),
            ps == lens(pieces@),
            np == pieces@.len(),
            lens_on(ps, gi),
            -0x4000_0000 <= t0t,
            t0t + tick_total(ps, gi) <= 0x4000_0000,
            -0x4000_0000 <= st <= 0x4000_0000,
            p <= np,
            p < np ==> pe == t0t + tick_total(ps.subrange(0, p + 1), gi),
            forall|j: int| 0 <= j < p ==> t0t + tick_total(#[trigger] ps.subrange(0, j + 1), gi) <= st,
        decreases np - p,
    {
        p = p + 1;
        if p < np {
            proof {
                lemma_prefix_ticks(ps, gi, p as int);
                lemma_prefix_ticks(ps, gi, p as int + 1);
                assert(ps[p as int] == pieces@[p as int].duration_q());
            }
            let d = ticks_of(pieces[p].duration(), g);
            pe = pe + d;
        }
    }
    (p, pe)
}

/// The beam counts of the notes of the run `ds` from `t0`, and whether beams break before
/// each, the run being spelled as the pieces `pieces`: one entry for each note that starts
/// within the pieces.
fn beam_plan(metre: &Metre, ds: &Vec<Duration>, pieces: &Vec<Duration>, t0: Rational, t0t: i64, g: i64) -> (r: (
    Vec<u8>,
    Vec<bool>,
))
    requires
        metre.wf(),
        grid_ok(g as int),
        t0.wf(),
        t0@ == from_tick(t0t as int, g as int),
        -0x4000_0000 <= t0t,
        forall|i: int| 0 <= i < ds@.len() ==> (#[trigger] ds@[i]).wf(),
        forall|i: int| 0 <= i < pieces@.len() ==> (#[trigger] pieces@[i]).wf(),
        lens_on(lens(ds@), g as int),
        lens_on(lens(pieces@), g as int),
        t0t + tick_total(lens(ds@), g as int) <= 0x4000_0000,
        t0t + tick_total(lens(pieces@), g as int) <= 0x4000_0000,
    ensures
        r.0@.len() == beamed_end(lens(ds@), lens(pieces@), t0@, 0),
        r.1@.len() == r.0@.len(),
        forall|k: int| 0 <= k < r.0@.len() ==> #[trigger] r.0@[k] == beams_of(ds@[k]),
        forall|k: int|
            0 <= k < r.0@.len() ==> #[trigger] r.1@[k] == split_before(
                *metre,
                lens(ds@),
                lens(pieces@),
                t0@,
                k,
            ),
{
    let ghost gi = g as int;
    let ghost m = *metre;
    let ghost qs = lens(ds@);
    let ghost ps = lens(pieces@);
    let ghost tq = t0@;
    let np = pieces.len();
    let mut beams: Vec<u8> = Vec::new();
    let mut befores: Vec<bool> = Vec::new();
    let mut p: usize = 0;
    let mut pe: i64 = t0t;
    proof {
        lemma_prefix_ticks(qs, gi, 0);
        assert(qs.subrange(0, 0).len() == 0);
    }
    if np > 0 {
        proof {
            lemma_prefix_ticks(ps, gi, 0);
            lemma_prefix_ticks(ps, gi, 1);
            assert(ps.subrange(0, 0).len() == 0);
            assert(ps[0] == pieces@[0].duration_q());
        }
        let d = ticks_of(pieces[0].duration(), g);
        pe = t0t + d;
    }
    let mut st: i64 = t0t;
    let mut i: usize = 0;
    let mut prev_p: usize = 0;
    let mut go = true;
    while go && i < ds.len()
        invariant
            metre.wf(),
            m == *metre,
            grid_ok(gi),
            gi == g,
            t0.wf(),
            tq == t0@,
            t0@ == from_tick(t0t as int, gi),
            -0x4000_0000 <= t0t,
            forall|k: int| 0 <= k < ds@.len() ==> (#[trigger] ds@[k]).wf(),
            forall|k: int| 0 <= k < pieces@.len() ==> (#[trigger] pieces@[k]).wf(),
            qs == lens(ds@),
            ps == lens(pieces@),
            np == pieces@.len(),
            lens_on(qs, gi),
            lens_on(ps, gi),
            t0t + tick_total(qs, gi) <= 0x4000_0000,
            t0t + tick_total(ps, gi) <= 0x4000_0000,
            i <= ds@.len(),
            p <= np,
            st == t0t + tick_total(qs.subrange(0, i as int), gi),
            p < np ==> pe == t0t + tick_total(ps.subrange(0, p + 1), gi),
            forall|j: int| 0 <= j < p ==> t0t + tick_total(#[trigger] ps.subrange(0, j + 1), gi) <= st,
            beams@.len() == i,
            befores@.len() == i,
            forall|k: int| 0 <= k < i ==> #[trigger] beams@[k] == beams_of(ds@[k]),
            forall|k: int|
                0 <= k < i ==> #[trigger] befores@[k] == split_before(
                    m,
                    qs,
                    ps,
                    tq,
                    k,
                ),
            i > 0 ==> prev_p == piece_at(qs, ps, tq, i - 1),
            go ==> beamed_end(qs, ps, tq, 0) == beamed_end(qs, ps, tq, i as int),
            !go ==> beamed_end(qs, ps, tq, 0) == i,
        decreases ds@.len() - i + (if go {
            1int
        } else {
            0int
        }),
    {
        proof {
            lemma_prefix_ticks(qs, gi, i as int);
        }
        let (p2, pe2) = pass_ended(pieces, p, pe, st, t0t, g);
        p = p2;
        pe = pe2;
        let ghost sq = from_tick(st as int, gi);
        proof {
            lemma_run_start(qs, tq, t0t as int, gi, i as int);
            lemma_piece_skip(ps, tq, t0t as int, sq, st as int, gi, 0, p as int);
            if p < np {
                lemma_run_start(ps, tq, t0t as int, gi, p + 1);
                lemma_ticks(st as int, pe as int, gi);
            }
            assert(piece_at(qs, ps, tq, i as int) == p);
        }
        if p >= np {
            go = false;
        } else {
            let s = rational_of(st, g);
            let mut first = i == 0 || p != prev_p;
            match metre.on_division(s) {
                Some(seg) => {
                    if seg.subdivisions() >= 2 {
                        first = true;
                    }
                },
                None => {},
            }
            let b: u8 = match ds[i].duration_display_base() {
                Some(v) => v.beam_count(),
                None => 0,
            };
            let ghost old_beams = beams@;
            let ghost old_befores = befores@;
            beams.push(b);
            befores.push(first);
            prev_p = p;
            proof {
                lemma_prefix_ticks(qs, gi, i as int + 1);
                assert(qs[i as int] == ds@[i as int].duration_q());
                assert(s@ == run_start(qs, tq, i as int));
                assert(first == split_before(m, qs, ps, tq, i as int));
                assert(b == beams_of(ds@[i as int]));
                assert(befores@[i as int] == split_before(m, qs, ps, tq, i as int));
                assert(beams@[i as int] == beams_of(ds@[i as int]));
                assert forall|k: int| 0 <= k < i + 1 implies #[trigger] befores@[k] == split_before(m, qs, ps, tq, k) by {
                    if k < i {
                        assert(befores@[k] == old_befores[k]);
                    }
                }
                assert forall|k: int| 0 <= k < i + 1 implies #[trigger] beams@[k] == beams_of(ds@[k]) by {
                    if k < i {
                        assert(beams@[k] == old_beams[k]);
                    }
                }
            }
            let d = ticks_of(ds[i].duration(), g);
            st = st + d;
            i = i + 1;
        }
    }
    (beams, befores)
}

impl Bar {
    /// How the notes of a run of `durations` starting at `t0` are beamed.
    ///
    /// The run is spelled as one long note (`Bar::split_note`, ignoring the bar's own notes);
    /// each note that starts within those pieces gets an entry.  Beams break before the first
    /// note of each piece and before every division of two or more beats.  A note with beams
    /// gets `Some` when a neighbour within the same beam group also has beams: `entering` (or
    /// `leaving`) is its own beam count where the note before (or after) it has beams, and 0
    /// otherwise.  The spelling of the run as one note comes to an end (`split_ends`; it does
    /// for a run within the bar, see `lemma_split_ends_in_bar`), positions stay within 1024
    /// whole notes of the bar's start, and the notes have lengths that are not negative.  A run
    /// within the bar needs none of these bounds stated.
    pub fn beaming(&self, t0: Rational, durations: Vec<Duration>) -> (r: Vec<Option<RhythmicBeaming>>)
        requires
            self.wf(),
            t0.wf(),
            forall|i: int|
                0 <= i < durations@.len() ==> (#[trigger] durations@[i]).wf() && q_le(
                    q_int(0),
                    durations@[i].duration_q(),
                ),
            exists|l: int|
                grid_ok(l) && notes_on(self.rhythm_spec(), l) && on_grid(t0@, l) && forall|i: int|
                    0 <= i < durations@.len() ==> on_grid((#[trigger] durations@[i]).duration_q(), l),
            (q_le(q_int(0), t0@) && q_le(q_add(t0@, q_total(lens(durations@))), self.bar_q())) || (q_le(
                q_int(-1024),
                t0@,
            ) && q_le(q_add(t0@, q_total(lens(durations@))), q_int(1024)) && split_ends(
                self.metre_spec(),
                self.rhythm_spec(),
                false,
                t0@,
                q_total(lens(durations@)),
                split_fuel(),
            )),
        ensures
            ({
                let ps = split_q(
                    self.metre_spec(),
                    self.rhythm_spec(),
                    false,
                    t0@,
                    q_total(lens(durations@)),
                    split_fuel(),
                );
                let n = beamed_end(lens(durations@), ps, t0@, 0);
                &&& r@.len() == n
                &&& forall|i: int|
                    0 <= i < n ==> #[trigger] r@[i] == beaming_at(self.metre_spec(), durations@, ps, t0@, n, i)
            }),
    {
        let ghost l = choose|l: int|
            grid_ok(l) && notes_on(self.rhythm_spec(), l) && on_grid(t0@, l) && forall|i: int|
                0 <= i < durations@.len() ==> on_grid((#[trigger] durations@[i]).duration_q(), l);
        let ghost m = self.metre_spec();
        let ghost nseg = m.segments().len() as int;
        let ghost qs = lens(durations@);
        let g0 = grid_of(self.rhythm(), 32, Ghost(l));
        let g1 = i64_lcm(g0, t0.denom(), Ghost(l));
        proof {
            crate::arith::lemma_lcm(g0 as nat, t0@.d as nat, l);
            lemma_divides_trans(32, g0 as int, g1 as int);
        }
        let g = durs_grid(&durations, g1, Ghost(l));
        let ghost gi = g as int;
        proof {
            lemma_divides_trans(g0 as int, g1 as int, gi);
            lemma_divides_trans(t0@.d as int, g1 as int, gi);
            lemma_notes_refine(self.rhythm_spec(), g0 as int, gi);
            lemma_grid_scale(gi);
            lemma_div_ticks(m, gi, 0, nseg);
            lemma_div_ticks(m, gi, nseg, nseg);
            crate::arith::lemma_from_tick(div_tick(m, nseg, gi), gi);
            crate::arith::lemma_grid_determined(t0@, gi);
            crate::notes::lemma_tsum(self.rhythm_spec(), gi);
            lemma_zero_tick(gi);
            assert forall|i: int| 0 <= i < qs.len() implies reduced(#[trigger] qs[i]) && on_grid(qs[i], gi)
                && 0 <= tick(qs[i], gi) by {
                lemma_played_reduced(durations@[i]);
                crate::arith::lemma_grid_determined(qs[i], gi);
                lemma_ticks(0, tick(qs[i], gi), gi);
            }
            lemma_total_ticks(qs, gi);
            let tt = tick(t0@, gi);
            if q_le(q_int(0), t0@) && q_le(q_add(t0@, q_total(qs)), self.bar_q()) {
                crate::arith::lemma_from_tick(tick_total(qs, gi), gi);
                crate::split::lemma_bar_within(*self, t0@, q_total(qs));
                lemma_ticks(0, tt, gi);
                lemma_ticks(tt, tick_total(qs, gi), gi);
                lemma_ticks(tt + tick_total(qs, gi), div_tick(m, nseg, gi), gi);
                crate::split::lemma_split_ends(m, self.rhythm_spec(), false, t0@, q_total(qs), gi, split_fuel());
            }
            lemma_ticks(tt, tick_total(qs, gi), gi);
            crate::split::lemma_int_ticks(-1024, gi);
            crate::split::lemma_int_ticks(1024, gi);
            lemma_ticks(-1024 * gi, tt, gi);
            lemma_ticks(tt + tick_total(qs, gi), 1024 * gi, gi);
            assert(1024 * gi <= 0x4000_0000) by (nonlinear_arith)
                requires
                    gi <= 0x10_0000,
            ;
        }
        let bar_t = ticks_of(self.metre().duration(), g);
        proof {
            lemma_ticks(tsum(self.rhythm_spec(), gi), bar_t as int, gi);
        }
        let t0t = ticks_of(t0, g);
        let total_t = run_ticks(&durations, g);
        let total = rational_of(total_t, g);
        proof {
            crate::notes::lemma_plain_dur(total@);
            crate::arith::lemma_tick_fits(total_t as int, gi);
        }
        let whole = Duration::exact(total, None);
        let pieces = metre_split_note(
            self.metre(),
            self.rhythm(),
            t0,
            whole,
            false,
            g,
            bar_t,
            Ghost(split_fuel()),
        );
        let ghost ps = split_q(m, self.rhythm_spec(), false, t0@, q_total(qs), split_fuel());
        proof {
            assert forall|i: int| 0 <= i < pieces@.len() implies (#[trigger] pieces@[i]).wf() && lens(pieces@)[i]
                == ps[i] by {
                crate::notes::lemma_plain_dur(pieces@[i].display_q());
            }
            assert(lens(pieces@) =~= ps);
            lemma_lens_on(pieces@, gi);
            lemma_dsum_lens(pieces@, gi);
            if pieces@.len() == 0 {
                assert(lens(pieces@) =~= Seq::<Q>::empty());
            }
        }
        let (beams, befores) = beam_plan(self.metre(), &durations, &pieces, t0, t0t, g);
        let ghost n = beamed_end(qs, ps, t0@, 0);
        let nb = beams.len();
        let mut out: Vec<Option<RhythmicBeaming>> = Vec::new();
        let mut k: usize = 0;
        while k < nb
            invariant
                nb == beams@.len(),
                nb == n,
                befores@.len() == nb,
                qs == lens(durations@),
                forall|j: int| 0 <= j < nb ==> #[trigger] beams@[j] == beams_of(durations@[j]),
                forall|j: int| 0 <= j < nb ==> #[trigger] befores@[j] == split_before(m, qs, ps, t0@, j),
                k <= nb,
                out@.len() == k,
                forall|j: int| 0 <= j < k ==> #[trigger] out@[j] == beaming_at(m, durations@, ps, t0@, n as int, j),
            decreases nb - k,
        {
            let beam = beams[k];
            let prev: u8 = if !befores[k] {
                beams[k - 1]
            } else {
                0
            };
            let next: u8 = if k + 1 < nb && !befores[k + 1] {
                beams[k + 1]
            } else {
                0
            };
            let entry = if beam == 0 || (prev == 0 && next == 0) {
                None
            } else {
                Some(
                    RhythmicBeaming {
                        entering: if prev > 0 {
                            beam
                        } else {
                            0
                        },
                        leaving: if next > 0 {
                            beam
                        } else {
                            0
                        },
                    },
                )
            };
            proof {
                assert(entry == beaming_at(m, durations@, ps, t0@, n as int, k as int));
            }
            out.push(entry);
            k = k + 1;
        }
        out
    }
}

/// A note that can join a beam: neither an automatic rest nor a temporary preview, drawn with
/// beams or flags.
pub open spec fn beamable(c: BarChild) -> bool {
    !(c.lifetime is AutomaticRest) && !(c.lifetime is Temporary) && beams_of(c.duration) > 0
}

/// The runs of consecutive beamable children of `cs`, each with the start of its first child.
pub open spec fn candidates_of(cs: Seq<BarChild>) -> Seq<(Q, Seq<(Duration, Entity)>)>
    decreases cs.len(),
{
    if cs.len() == 0 {
        Seq::empty()
    } else {
        let rest = candidates_of(cs.drop_last());
        let c = cs.last();
        if !beamable(c) {
            rest
        } else if cs.len() >= 2 && beamable(cs[cs.len() - 2]) {
            rest.update(rest.len() - 1, (rest.last().0, rest.last().1.push((c.duration, c.stencil))))
        } else {
            rest.push((c.start@, seq![(c.duration, c.stencil)]))
        }
    }
}

/// The value of a list of runs.
pub open spec fn runs_view(v: Seq<(Rational, Vec<(Duration, Entity)>)>) -> Seq<(Q, Seq<(Duration, Entity)>)> {
    v.map_values(|c: (Rational, Vec<(Duration, Entity)>)| (c.0@, c.1@))
}

/// The runs of consecutive notes of a bar that may be beamed together: notes that are neither
/// automatic rests nor temporary previews and are drawn with beams or flags.  Each run comes with the start of its
/// first note; `Bar::beaming` then decides the beams within it.
pub fn beam_candidates(children: &Vec<BarChild>) -> (r: Vec<(Rational, Vec<(Duration, Entity)>)>)
    requires
        forall|i: int| 0 <= i < children@.len() ==> (#[trigger] children@[i]).duration.wf(),
    ensures
        runs_view(r@) == candidates_of(children@),
{
    let ghost cs = children@;
    let mut runs: Vec<(Rational, Vec<(Duration, Entity)>)> = Vec::new();
    let mut cur_start = Rational::zero();
    let mut cur: Vec<(Duration, Entity)> = Vec::new();
    let mut open = false;
    let mut i: usize = 0;
    proof {
        assert(cs.subrange(0, 0) =~= Seq::<BarChild>::empty());
        assert(runs_view(runs@) =~= Seq::<(Q, Seq<(Duration, Entity)>)>::empty());
    }
    while i < children.len()
        invariant
            cs == children@,
            forall|k: int| 0 <= k < cs.len() ==> (#[trigger] cs[k]).duration.wf(),
            i <= cs.len(),
            open == (i > 0 && beamable(cs[i - 1])),
            !open ==> runs_view(runs@) == candidates_of(cs.subrange(0, i as int)),
            open ==> runs_view(runs@).push((cur_start@, cur@)) == candidates_of(cs.subrange(0, i as int)),
        decreases cs.len() - i,
    {
        let c = children[i];
        let ghost pre = cs.subrange(0, i as int);
        let ghost now = cs.subrange(0, i as int + 1);
        proof {
            assert(now.drop_last() =~= pre);
            assert(now.last() == c);
            if i > 0 {
                assert(now[now.len() - 2] == cs[i - 1]);
            }
        }
        let b: u8 = match c.duration.duration_display_base() {
            Some(v) => v.beam_count(),
            None => 0,
        };
        if !c.lifetime.is_automatic() && !c.lifetime.is_temporary() && b > 0 {
            if open {
                let ghost rest = candidates_of(pre);
                let ghost old_cur = cur@;
                cur.push((c.duration, c.stencil));
                proof {
                    assert(rest.last() == (cur_start@, old_cur));
                    assert(runs_view(runs@).push((cur_start@, cur@)) =~= rest.update(
                        rest.len() - 1,
                        (rest.last().0, rest.last().1.push((c.duration, c.stencil))),
                    ));
                }
            } else {
                cur_start = c.start;
                cur = Vec::new();
                cur.push((c.duration, c.stencil));
                open = true;
                proof {
                    assert(cur@ =~= seq![(c.duration, c.stencil)]);
                }
            }
        } else if open {
            let ghost before = runs@;
            let ghost cv = cur@;
            let ghost sv = cur_start@;
            runs.push((cur_start, cur));
            cur = Vec::new();
            open = false;
            proof {
                assert(runs_view(runs@) =~= runs_view(before).push((sv, cv)));
            }
        }
        i = i + 1;
    }
    let ghost before = runs@;
    let ghost cv = cur@;
    let ghost sv = cur_start@;
    if open {
        runs.push((cur_start, cur));
        proof {
            assert(runs_view(runs@) =~= runs_view(before).push((sv, cv)));
        }
    }
    proof {
        assert(cs.subrange(0, cs.len() as int) =~= cs);
    }
    runs
}

/// The beams of a run: the maximal stretches `[start, end)` of consecutive notes that have
/// beams (`Some`).
pub open spec fn spans_of(bs: Seq<Option<RhythmicBeaming>>) -> Seq<(int, int)>
    decreases bs.len(),
{
    if bs.len() == 0 {
        Seq::empty()
    } else {
        let rest = spans_of(bs.drop_last());
        let i = bs.len() - 1;
        if bs.last() is None {
            rest
        } else if bs.len() >= 2 && bs[i - 1] is Some {
            rest.update(rest.len() - 1, (rest.last().0, i + 1))
        } else {
            rest.push((i, i + 1))
        }
    }
}

/// The value of a list of stretches.
pub open spec fn spans_view(v: Seq<(usize, usize)>) -> Seq<(int, int)> {
    v.map_values(|s: (usize, usize)| (s.0 as int, s.1 as int))
}

/// The notes that share a beam, as the stretches `[start, end)` of consecutive notes that
/// `Bar::beaming` gave beams.
pub fn beam_spans(beaming: &Vec<Option<RhythmicBeaming>>) -> (r: Vec<(usize, usize)>)
    ensures
        spans_view(r@) == spans_of(beaming@),
{
    let ghost bs = beaming@;
    let mut spans: Vec<(usize, usize)> = Vec::new();
    let mut start: usize = 0;
    let mut open = false;
    let mut i: usize = 0;
    proof {
        assert(bs.subrange(0, 0) =~= Seq::<Option<RhythmicBeaming>>::empty());
        assert(spans_view(spans@) =~= Seq::<(int, int)>::empty());
    }
    while i < beaming.len()
        invariant
            bs == beaming@,
            i <= bs.len(),
            open == (i > 0 && bs[i - 1] is Some),
            open ==> start < i,
            !open ==> spans_view(spans@) == spans_of(bs.subrange(0, i as int)),
            open ==> spans_view(spans@).push((start as int, i as int)) == spans_of(bs.subrange(0, i as int)),
        decreases bs.len() - i,
    {
        let ghost pre = bs.subrange(0, i as int);
        let ghost now = bs.subrange(0, i as int + 1);
        proof {
            assert(now.drop_last() =~= pre);
            assert(now.last() == bs[i as int]);
            if i > 0 {
                assert(now[now.len() - 2] == bs[i - 1]);
            }
        }
        if beaming[i].is_some() {
            if open {
                proof {
                    let rest = spans_of(pre);
                    assert(spans_view(spans@).push((start as int, i + 1)) =~= rest.update(
                        rest.len() - 1,
                        (rest.last().0, i + 1),
                    ));
                }
            } else {
                start = i;
                open = true;
            }
        } else if open {
            let ghost before = spans@;
            spans.push((start, i));
            open = false;
            proof {
                assert(spans_view(spans@) =~= spans_view(before).push((start as int, i as int)));
            }
        }
        i = i + 1;
    }
    let ghost before = spans@;
    if open {
        spans.push((start, i));
        proof {
            assert(spans_view(spans@) =~= spans_view(before).push((start as int, i as int)));
        }
    }
    proof {
        assert(bs.subrange(0, bs.len() as int) =~= bs);
    }
    spans
}

/// The entities for `count` new beams: the beam entities that are free for reuse, in the order
/// given (smallest first), then fresh ones from `entities`.
pub fn beam_entities(count: usize, available: &Vec<Entity>, entities: &mut EntitiesRes) -> (r: Vec<Entity>)
    requires
        old(entities).next_spec() + count <= usize::MAX,
    ensures
        r@.len() == count,
        forall|i: int| 0 <= i < count && i < available@.len() ==> #[trigger] r@[i] == available@[i],
        forall|i: int|
            available@.len() <= i < count ==> (#[trigger] r@[i]).id_spec() == old(entities).next_spec() + (i
                - available@.len()),
        final(entities).next_spec() == old(entities).next_spec() + (if count > available@.len() {
            count - available@.len()
        } else {
            0
        }),
{
    let mut r: Vec<Entity> = Vec::new();
    let mut i: usize = 0;
    while i < count
        invariant
            i <= count,
            r@.len() == i,
            old(entities).next_spec() + count <= usize::MAX,
            forall|k: int| 0 <= k < i && k < available@.len() ==> #[trigger] r@[k] == available@[k],
            forall|k: int|
                available@.len() <= k < i ==> (#[trigger] r@[k]).id_spec() == old(entities).next_spec() + (k
                    - available@.len()),
            entities.next_spec() == old(entities).next_spec() + (if i > available@.len() {
                i - available@.len()
            } else {
                0
            }),
        decreases count - i,
    {
        if i < available.len() {
            r.push(available[i]);
        } else {
            let e = entities.create();
            r.push(e);
        }
        i = i + 1;
    }
    r
}

} // verus!
