//! How a note placed in a bar is spelled as tied pieces, following the divisions of the metre
//! (after Gould, *Behind Bars*, pp. 166-171).
use crate::arith::{from_tick, lemma_from_tick, lemma_tick_fits, lemma_ticks, on_grid, q_add, q_int, q_le, q_lt, q_sub, reduced, tick, Q};
use crate::duration::{display_base, dots_search, pow2q, printable_q, Duration};
use crate::metre::{division_index, Metre, MetreSegment, Subdivision, Superdivision};
use crate::notes::{
    div_tick, grid_ok, lemma_div_ticks, lemma_division_found, lemma_grid_scale, lemma_plain_dur,
    lemma_refine32, note_dur, note_ok, notes_ok, notes_on, start_of, ticks_of,
};
use crate::bar::Bar;
use crate::notes::{grid_of, lemma_divides_trans, lemma_notes_refine, tsum, Note};
use crate::rational::{i64_lcm, Rational};
use crate::rhythmic_beaming::{lemma_total_ticks, lens_on, q_total, tick_total};
use vstd::prelude::*;

verus! {

/// What the explicit notes of a bar do to a note from `t` to `t_end`.
pub enum Clip {
    /// Nothing: no explicit note starts within it or covers its start.
    Keep,
    /// An explicit note starts this long after `t`: the note is cut short there.
    Cut(Q),
    /// It starts strictly inside an explicit note: it cannot be placed.
    Inside,
}

/// Scans the notes of `r` from note `i` on for the first explicit note that starts within
/// `[t, t_end)` or that covers `t`.
pub open spec fn clip_at(r: Seq<Note>, t: Q, t_end: Q, i: int) -> Clip
    decreases r.len() - i,
{
    if i < 0 || i >= r.len() {
        Clip::Keep
    } else if r[i].1 is Explicit && q_le(t, start_of(r, i)) && q_lt(start_of(r, i), t_end) {
        Clip::Cut(q_sub(start_of(r, i), t))
    } else if r[i].1 is Explicit && q_lt(start_of(r, i), t) && q_lt(t, start_of(r, i + 1)) {
        Clip::Inside
    } else {
        clip_at(r, t, t_end, i + 1)
    }
}

/// The start of the division that `t` falls in (the end of the bar past it).
pub open spec fn div_start_q(m: Metre, t: Q) -> Q {
    match division_index(m.segments(), t, 0) {
        Some(i) => m.start_q(i),
        None => m.start_q(m.segments().len() as int),
    }
}

/// The division that `t` falls in (the last one past the end of the bar).
pub open spec fn div_seg(m: Metre, t: Q) -> MetreSegment {
    match division_index(m.segments(), t, 0) {
        Some(i) => m.segments()[i],
        None => m.segments().last(),
    }
}

/// The common syncopations that are written as a single note (Behind Bars, p. 171): a note
/// starting an eighth into a single-beat quarter division, or a quarter into a two-beat half
/// division.
pub open spec fn syncopation(ds: Q, seg: MetreSegment, off: Q, d: Q) -> bool {
    let sd = seg.duration_q();
    let n = seg.subdivisions_spec();
    let sup = seg.superdivision_spec();
    ||| sd == (Q { n: 1, d: 4 }) && n == 1 && sup == Superdivision::Duple && off == (Q { n: 1, d: 8 }) && (d
        == (Q { n: 1, d: 4 }) || d == (Q { n: 3, d: 8 }))
    ||| ds == (Q { n: 0, d: 1 }) && sd == (Q { n: 1, d: 4 }) && n == 1 && sup == Superdivision::Triple && off
        == (Q { n: 1, d: 8 }) && d == (Q { n: 1, d: 4 })
    ||| sd == (Q { n: 1, d: 2 }) && n == 2 && sup == Superdivision::Duple && off == (Q { n: 1, d: 4 }) && (d
        == (Q { n: 1, d: 2 }) || d == (Q { n: 3, d: 4 }))
}


/// From `te`, whole divisions (starting with `seg`) taken while they end by `lim` and the
/// span from `t` stays printable: where that stops.
pub open spec fn comp_end(m: Metre, t: Q, lim: Q, te: Q, seg: MetreSegment, fuel: nat) -> Q
    decreases fuel,
{
    if fuel == 0 {
        te
    } else {
        let t2 = q_add(te, seg.duration_q());
        if q_lt(lim, t2) || !printable_q(q_sub(t2, t)) {
            te
        } else {
            comp_end(m, t, lim, t2, div_seg(m, t2), (fuel - 1) as nat)
        }
    }
}

/// The drawn lengths of the pieces of a note of length `d` at `t` (see `Bar::split_note`),
/// with at most `fuel` splits.
pub open spec fn split_q(m: Metre, r: Seq<Note>, with_rhythm: bool, t: Q, d: Q, fuel: nat) -> Seq<Q>
    decreases fuel, 1int,
{
    if fuel == 0 || d.n <= 0 {
        Seq::empty()
    } else {
        match if with_rhythm {
            clip_at(r, t, q_add(t, d), 0)
        } else {
            Clip::Keep
        } {
            Clip::Inside => Seq::empty(),
            Clip::Cut(x) => split_rest(m, r, with_rhythm, t, x, fuel),
            Clip::Keep => split_rest(m, r, with_rhythm, t, d, fuel),
        }
    }
}

/// `split_q` once the note's length is settled.
pub open spec fn split_rest(m: Metre, r: Seq<Note>, with_rhythm: bool, t: Q, d: Q, fuel: nat) -> Seq<Q>
    decreases fuel, 0int,
{
    let ds = div_start_q(m, t);
    let seg = div_seg(m, t);
    if fuel == 0 {
        Seq::empty()
    } else if syncopation(ds, seg, q_sub(t, ds), d) {
        seq![d]
    } else if t == ds && MetreSegment::subdivision_of(seg.subdivisions_spec()) == Subdivision::Simple {
        seq![d]
    } else {
        let te = if t == ds {
            comp_end(m, t, q_add(t, d), t, seg, fuel)
        } else {
            t
        };
        if t == ds && q_lt(t, te) {
            seq![q_sub(te, t)] + split_q(m, r, with_rhythm, te, q_sub(d, q_sub(te, t)), (fuel - 1) as nat)
        } else {
            let de = q_add(ds, seg.duration_q());
            if q_le(q_add(t, d), de) {
                seq![d]
            } else {
                seq![q_sub(de, t)] + split_q(
                    m,
                    r,
                    with_rhythm,
                    de,
                    q_sub(d, q_sub(de, t)),
                    (fuel - 1) as nat,
                )
            }
        }
    }
}


/// Whether the spelling of a note of length `d` at `t` (see `split_q`) comes to an end within
/// `fuel` splits.  It does for every note within the bar; past the end of the bar the
/// divisions no longer advance, and a note that reaches there can be split for ever.
pub open spec fn split_ends(m: Metre, r: Seq<Note>, with_rhythm: bool, t: Q, d: Q, fuel: nat) -> bool
    decreases fuel, 1int,
{
    if d.n <= 0 {
        true
    } else if fuel == 0 {
        false
    } else {
        match if with_rhythm {
            clip_at(r, t, q_add(t, d), 0)
        } else {
            Clip::Keep
        } {
            Clip::Inside => true,
            Clip::Cut(x) => rest_ends(m, r, with_rhythm, t, x, fuel),
            Clip::Keep => rest_ends(m, r, with_rhythm, t, d, fuel),
        }
    }
}

/// `split_ends` once the note's length is settled.
pub open spec fn rest_ends(m: Metre, r: Seq<Note>, with_rhythm: bool, t: Q, d: Q, fuel: nat) -> bool
    decreases fuel, 0int,
{
    let ds = div_start_q(m, t);
    let seg = div_seg(m, t);
    if fuel == 0 {
        false
    } else if syncopation(ds, seg, q_sub(t, ds), d) {
        true
    } else if t == ds && MetreSegment::subdivision_of(seg.subdivisions_spec()) == Subdivision::Simple {
        true
    } else {
        let te = if t == ds {
            comp_end(m, t, q_add(t, d), t, seg, fuel)
        } else {
            t
        };
        if t == ds && q_lt(t, te) {
            split_ends(m, r, with_rhythm, te, q_sub(d, q_sub(te, t)), (fuel - 1) as nat)
        } else {
            let de = q_add(ds, seg.duration_q());
            if q_le(q_add(t, d), de) {
                true
            } else {
                split_ends(m, r, with_rhythm, de, q_sub(d, q_sub(de, t)), (fuel - 1) as nat)
            }
        }
    }
}

/// More splits than a note of at most 2048 whole notes needs on a usable grid (each split
/// shortens what is left by at least one grid step).
pub open spec fn split_fuel() -> nat {
    0x1_0000_0001
}

/// Exact arithmetic and order of moderate grid values.
proof fn lemma_grid_ops(x: int, y: int, g: int)
    requires
        grid_ok(g),
        -0x100_0000_0000 <= x <= 0x100_0000_0000,
        -0x100_0000_0000 <= y <= 0x100_0000_0000,
    ensures
        q_add(from_tick(x, g), from_tick(y, g)) == from_tick(x + y, g),
        q_sub(from_tick(x, g), from_tick(y, g)) == from_tick(x - y, g),
        q_lt(from_tick(x, g), from_tick(y, g)) == (x < y),
        q_le(from_tick(x, g), from_tick(y, g)) == (x <= y),
        (from_tick(x, g) == from_tick(y, g)) == (x == y),
        crate::rational::fits(from_tick(x + y, g)),
        crate::rational::fits(from_tick(x - y, g)),
        crate::arith::reduced(from_tick(x + y, g)),
        crate::arith::reduced(from_tick(x - y, g)),
        tick(from_tick(x + y, g), g) == x + y,
        tick(from_tick(x - y, g), g) == x - y,
        on_grid(from_tick(x + y, g), g),
        on_grid(from_tick(x - y, g), g),
{
    lemma_ticks(x, y, g);
    lemma_tick_fits(x + y, g);
    lemma_tick_fits(x - y, g);
}

/// The effect of the explicit notes of `rhythm` on a note from `t` to `t_end`: `None` if the
/// note starts strictly inside one, `Some(Some(x))` if one starts `x` after `t` (before
/// `t_end`), `Some(None)` otherwise.
fn clip(rhythm: &Vec<Note>, t: Rational, t_end: Rational, g: i64, Ghost(bar_t): Ghost<int>) -> (r: Option<Option<Rational>>)
    requires
        grid_ok(g as int),
        notes_ok(rhythm@),
        notes_on(rhythm@, g as int),
        crate::notes::tsum(rhythm@, g as int) <= bar_t <= 0x4000_0000,
        t.wf(),
        t_end.wf(),
        on_grid(t@, g as int),
        -0x1_0000_0000 <= tick(t@, g as int),
        t_end@ == from_tick(tick(t_end@, g as int), g as int),
        tick(t@, g as int) <= tick(t_end@, g as int) <= 0x1_0000_0000,
    ensures
        match clip_at(rhythm@, t@, t_end@, 0) {
            Clip::Inside => r is None,
            Clip::Keep => r == Some(None::<Rational>),
            Clip::Cut(x) => r matches Some(Some(c)) && c.wf() && c@ == x && on_grid(c@, g as int) && 0
                <= tick(c@, g as int) < tick(t_end@, g as int) - tick(t@, g as int),
        },
{
    let ghost gi = g as int;
    let ghost tt = tick(t@, gi);
    let ghost te = tick(t_end@, gi);
    let mut start = Rational::zero();
    let mut i: usize = 0;
    proof {
        crate::notes::lemma_zero_tick(gi);
        crate::arith::lemma_grid_determined(t@, gi);
        crate::notes::lemma_tsum(rhythm@, gi);
    }
    let ghost mut st: int = 0;
    while i < rhythm.len()
        invariant
            grid_ok(gi),
            gi == g,
            notes_ok(rhythm@),
            notes_on(rhythm@, gi),
            crate::notes::tsum(rhythm@, gi) <= bar_t <= 0x4000_0000,
            t.wf(),
            t_end.wf(),
            tt == tick(t@, gi),
            te == tick(t_end@, gi),
            t@ == from_tick(tt, gi),
            t_end@ == from_tick(te, gi),
            -0x1_0000_0000 <= tt <= te <= 0x1_0000_0000,
            i <= rhythm@.len(),
            start.wf(),
            start@ == start_of(rhythm@, i as int),
            start@ == from_tick(st, gi),
            st == crate::notes::tsum(rhythm@.subrange(0, i as int), gi),
            0 <= st <= bar_t,
            clip_at(rhythm@, t@, t_end@, 0) == clip_at(rhythm@, t@, t_end@, i as int),
        decreases rhythm@.len() - i,
    {
        let (en, lifetime) = rhythm[i];
        proof {
            crate::notes::lemma_tsum_prefix(rhythm@, gi, i as int);
            crate::notes::lemma_start_sub(rhythm@, gi, i as int + 1);
            assert(note_ok(rhythm@[i as int]));
            assert(on_grid(note_dur(rhythm@[i as int]), gi));
            crate::notes::lemma_dur_reduced(rhythm@[i as int]);
            crate::arith::lemma_grid_determined(note_dur(rhythm@[i as int]), gi);
            lemma_grid_ops(st, tick(note_dur(rhythm@[i as int]), gi), gi);
            lemma_grid_ops(st, tt, gi);
            lemma_grid_ops(st, te, gi);
            assert(start_of(rhythm@, i + 1) == q_add(start_of(rhythm@, i as int), note_dur(rhythm@[i as int])));
        }
        let end = start.add(en.duration());
        let ghost et = st + tick(note_dur(rhythm@[i as int]), gi);
        if lifetime.is_explicit() {
            if start.ge(&t) && start.lt(&t_end) {
                let c = start.sub(t);
                proof {
                    assert(clip_at(rhythm@, t@, t_end@, i as int) == Clip::Cut(q_sub(start@, t@)));
                    assert(c@ == from_tick(st - tt, gi));
                    assert(tick(c@, gi) == st - tt);
                    lemma_grid_ops(tt, st, gi);
                    assert(tt <= st < te);

                }
                return Some(Some(c));
            }
            proof {
                lemma_grid_ops(et, tt, gi);
            }
            if start.lt(&t) && end.gt(&t) {
                return None;
            }
        }
        start = end;
        proof {
            st = et;
        }
        i = i + 1;
    }
    Some(None)
}


/// A single piece.
fn one_piece(d: Duration) -> (v: Vec<Duration>)
    ensures
        v@ == seq![d],
{
    let mut v: Vec<Duration> = Vec::new();
    v.push(d);
    v
}

/// From `t` (the start of `seg`), takes whole divisions while they end by `lim` and the span
/// from `t` stays printable; returns where that stops (`comp_end`).
fn compound_end(
    metre: &Metre,
    t: Rational,
    lim: Rational,
    seg: MetreSegment,
    g: i64,
    Ghost(fuel): Ghost<nat>,
) -> (te: Rational)
    requires
        metre.wf(),
        metre.segments().len() >= 1,
        grid_ok(g as int),
        t.wf(),
        lim.wf(),
        seg.wf(),
        on_grid(t@, g as int),
        on_grid(lim@, g as int),
        -0x1_0000_0000 <= tick(t@, g as int) <= tick(lim@, g as int) <= 0x1_0000_0000,
        fuel > tick(lim@, g as int) - tick(t@, g as int),
    ensures
        te.wf(),
        te@ == comp_end(*metre, t@, lim@, t@, seg, fuel),
        on_grid(te@, g as int),
        tick(t@, g as int) <= tick(te@, g as int) <= tick(lim@, g as int),
{
    let ghost gi = g as int;
    let ghost m = *metre;
    let ghost nseg = m.segments().len() as int;
    let ghost tt = tick(t@, gi);
    let ghost lt = tick(lim@, gi);
    let mut te = t;
    let mut cur = seg;
    let ghost mut fc: nat = fuel;
    let ghost mut et: int = tt;
    let mut go = true;
    proof {
        lemma_grid_scale(gi);
        lemma_div_ticks(m, gi, nseg, nseg);
        crate::arith::lemma_grid_determined(t@, gi);
        crate::arith::lemma_grid_determined(lim@, gi);
    }
    while go
        invariant
            metre.wf(),
            m == *metre,
            nseg == m.segments().len(),
            nseg >= 1,
            grid_ok(gi),
            gi == g,
            t.wf(),
            lim.wf(),
            t@ == from_tick(tt, gi),
            lim@ == from_tick(lt, gi),
            tt == tick(t@, gi),
            lt == tick(lim@, gi),
            -0x1_0000_0000 <= tt <= lt <= 0x1_0000_0000,
            te.wf(),
            cur.wf(),
            te@ == from_tick(et, gi),
            tt <= et <= lt,
            fc > lt - et,
            comp_end(m, t@, lim@, t@, seg, fuel) == (if go { comp_end(m, t@, lim@, te@, cur, fc) } else { te@ }),
        decreases lt - et + (if go { 1int } else { 0int }),
    {
        proof {
            lemma_refine32(cur.ticks(), gi);
            assert(cur.ticks() * (gi / 32) <= 128 * (gi / 32)) by (nonlinear_arith)
                requires
                    cur.ticks() <= 128,
                    gi / 32 >= 1,
            ;
            assert(cur.ticks() * (gi / 32) >= 1) by (nonlinear_arith)
                requires
                    cur.ticks() >= 1,
                    gi / 32 >= 1,
            ;
            let st = cur.ticks() * (gi / 32);
            lemma_grid_ops(et, st, gi);
            lemma_grid_ops(et + st, tt, gi);
            lemma_grid_ops(lt, et + st, gi);
            crate::notes::lemma_plain_dur(from_tick(et + st - tt, gi));
        }
        let t2 = te.add(cur.duration());
        let ghost t2t = et + cur.ticks() * (gi / 32);
        if t2.gt(&lim) || !Duration::exact(t2.sub(t), None).printable() {
            go = false;
        } else {
            let next = metre.division(t2);
            proof {
                lemma_from_tick(t2t, gi);
                fc = (fc - 1) as nat;
                et = t2t;
            }
            cur = next.1;
            te = t2;
        }
    }
    proof {
        lemma_from_tick(et, gi);
    }
    te
}


/// The pieces (drawn lengths) that `split_q` gives, as durations without a tuplet; they are
/// whole rests exactly when `whole_rest` holds.
pub open spec fn pieces_are(r: Seq<Duration>, q: Seq<Q>, whole_rest: bool) -> bool {
    &&& r.len() == q.len()
    &&& forall|i: int|
        0 <= i < r.len() ==> {
            &&& (#[trigger] r[i]).wf()
            &&& r[i].display_q() == q[i]
            &&& r[i].tuplet_q() == q_int(1)
            &&& r[i].is_whole_rest() == whole_rest
        }
}

/// Whether `split_rest` gives the note of length `d` at `t` back as it is, as one piece.
pub open spec fn rest_whole(m: Metre, t: Q, d: Q, fuel: nat) -> bool {
    let ds = div_start_q(m, t);
    let seg = div_seg(m, t);
    let te = if t == ds {
        comp_end(m, t, q_add(t, d), t, seg, fuel)
    } else {
        t
    };
    &&& fuel > 0
    &&& {
        ||| syncopation(ds, seg, q_sub(t, ds), d)
        ||| t == ds && MetreSegment::subdivision_of(seg.subdivisions_spec()) == Subdivision::Simple
        ||| !(t == ds && q_lt(t, te)) && q_le(q_add(t, d), q_add(ds, seg.duration_q()))
    }
}

/// Whether `split_q` gives the note of length `d` at `t` back as it is: one piece, with no
/// explicit note in its way.
pub open spec fn split_whole(m: Metre, r: Seq<Note>, with_rhythm: bool, t: Q, d: Q, fuel: nat) -> bool {
    &&& d.n > 0
    &&& fuel > 0
    &&& (with_rhythm ==> clip_at(r, t, q_add(t, d), 0) is Keep)
    &&& rest_whole(m, t, d, fuel)
}

/// The played lengths of `ds` added up, in steps of `1 / g`.
pub open spec fn dsum(ds: Seq<Duration>, g: int) -> int
    decreases ds.len(),
{
    if ds.len() == 0 {
        0
    } else {
        dsum(ds.drop_last(), g) + tick(ds.last().duration_q(), g)
    }
}

/// Every played length in `ds` lies on the grid of `1 / g` and is not negative.
pub open spec fn durs_on(ds: Seq<Duration>, g: int) -> bool {
    forall|i: int|
        0 <= i < ds.len() ==> on_grid((#[trigger] ds[i]).duration_q(), g) && 0 <= tick(ds[i].duration_q(), g)
}

pub proof fn lemma_dsum_concat(a: Seq<Duration>, b: Seq<Duration>, g: int)
    ensures
        dsum(a + b, g) == dsum(a, g) + dsum(b, g),
    decreases b.len(),
{
    if b.len() == 0 {
        assert(a + b =~= a);
    } else {
        assert((a + b).drop_last() =~= a + b.drop_last());
        lemma_dsum_concat(a, b.drop_last(), g);
    }
}

proof fn lemma_durs_on_concat(a: Seq<Duration>, b: Seq<Duration>, g: int)
    requires
        durs_on(a, g),
        durs_on(b, g),
    ensures
        durs_on(a + b, g),
{
    assert forall|i: int| 0 <= i < (a + b).len() implies on_grid((#[trigger] (a + b)[i]).duration_q(), g)
        && 0 <= tick((a + b)[i].duration_q(), g) by {
        if i < a.len() {
            assert((a + b)[i] == a[i]);
        } else {
            assert((a + b)[i] == b[i - a.len()]);
        }
    }
}

proof fn lemma_one_piece(d: Duration, g: int)
    requires
        on_grid(d.duration_q(), g),
        0 <= tick(d.duration_q(), g),
    ensures
        durs_on(seq![d], g),
        dsum(seq![d], g) == tick(d.duration_q(), g),
{
    assert(seq![d].drop_last() =~= Seq::<Duration>::empty());
    assert(seq![d].last() == d);
    assert(dsum(Seq::<Duration>::empty(), g) == 0);
    assert(dsum(seq![d], g) == dsum(seq![d].drop_last(), g) + tick(d.duration_q(), g));
}

/// Every played length in `ds` is positive on the grid of `1 / g`.
pub open spec fn durs_pos(ds: Seq<Duration>, g: int) -> bool {
    forall|i: int| 0 <= i < ds.len() ==> 0 < tick((#[trigger] ds[i]).duration_q(), g)
}

/// A positive first piece followed by positive pieces.
proof fn lemma_pos_concat(first: Seq<Duration>, rest: Seq<Duration>, g: int)
    requires
        first.len() == 1,
        0 < tick(first[0].duration_q(), g),
        durs_pos(rest, g),
    ensures
        durs_pos(first + rest, g),
{
    assert forall|i: int| 0 <= i < (first + rest).len() implies 0 < tick((#[trigger] (first + rest)[i]).duration_q(), g) by {
        if i >= 1 {
            assert((first + rest)[i] == rest[i - 1]);
        } else {
            assert((first + rest)[i] == first[0]);
        }
    }
}

/// A first piece followed by `rest`.
proof fn lemma_first_piece(first: Seq<Duration>, rest: Seq<Duration>, g: int)
    requires
        first.len() == 1,
        on_grid(first[0].duration_q(), g),
        0 <= tick(first[0].duration_q(), g),
        durs_on(rest, g),
    ensures
        durs_on(first + rest, g),
        dsum(first + rest, g) == tick(first[0].duration_q(), g) + dsum(rest, g),
{
    lemma_dsum_concat(first, rest, g);
    assert(first =~= seq![first[0]]);
    lemma_one_piece(first[0], g);
    lemma_durs_on_concat(first, rest, g);
}

proof fn lemma_pieces_concat(a: Seq<Duration>, qa: Seq<Q>, b: Seq<Duration>, qb: Seq<Q>)
    requires
        pieces_are(a, qa, false),
        pieces_are(b, qb, false),
    ensures
        pieces_are(a + b, qa + qb, false),
{
    assert forall|i: int| 0 <= i < (a + b).len() implies {
        &&& (#[trigger] (a + b)[i]).wf()
        &&& (a + b)[i].display_q() == (qa + qb)[i]
        &&& (a + b)[i].tuplet_q() == q_int(1)
        &&& !(a + b)[i].is_whole_rest()
    } by {
        if i < a.len() {
            assert((a + b)[i] == a[i]);
            assert((qa + qb)[i] == qa[i]);
        } else {
            assert((a + b)[i] == b[i - a.len()]);
            assert((qa + qb)[i] == qb[i - qa.len()]);
        }
    }
}

/// A duration of `x` whole notes with no tuplet, as a piece.
fn plain(x: Rational, g: i64) -> (d: Duration)
    requires
        x.wf(),
        grid_ok(g as int),
        on_grid(x@, g as int),
    ensures
        d.wf(),
        d.display_q() == x@,
        d.tuplet_q() == q_int(1),
        !d.is_whole_rest(),
        d.duration_q() == x@,
{
    proof {
        crate::notes::lemma_plain_dur(x@);
    }
    Duration::exact(x, None)
}

/// The pieces of a note of drawn (and played) length `duration` starting at `t`; see
/// `Bar::split_note`.  With `with_rhythm`, explicit notes of `rhythm` cut the note short or
/// rule it out.
pub(crate) fn metre_split_note(
    metre: &Metre,
    rhythm: &Vec<Note>,
    t: Rational,
    duration: Duration,
    with_rhythm: bool,
    g: i64,
    bar_t: i64,
    Ghost(fuel): Ghost<nat>,
) -> (r: Vec<Duration>)
    requires
        metre.wf(),
        metre.segments().len() >= 1,
        grid_ok(g as int),
        bar_t == div_tick(*metre, metre.segments().len() as int, g as int),
        notes_ok(rhythm@),
        notes_on(rhythm@, g as int),
        crate::notes::tsum(rhythm@, g as int) <= bar_t,
        t.wf(),
        on_grid(t@, g as int),
        duration.wf(),
        on_grid(duration.display_q(), g as int),
        duration.tuplet_q() == q_int(1),
        -0x1_0000_0000 <= tick(t@, g as int) <= 0x1_0000_0000,
        -0x1_0000_0000 <= tick(duration.display_q(), g as int),
        tick(t@, g as int) + tick(duration.display_q(), g as int) <= 0x1_0000_0000,
        fuel > tick(duration.display_q(), g as int),
        split_ends(*metre, rhythm@, with_rhythm, t@, duration.display_q(), fuel),
    ensures
        pieces_are(
            r@,
            split_q(*metre, rhythm@, with_rhythm, t@, duration.display_q(), fuel),
            duration.is_whole_rest() && split_whole(*metre, rhythm@, with_rhythm, t@, duration.display_q(), fuel),
        ),
        durs_on(r@, g as int),
        r@.len() == 0 || dsum(r@, g as int) <= tick(duration.display_q(), g as int),
        !with_rhythm && 0 < tick(duration.display_q(), g as int) ==> dsum(r@, g as int) == tick(
            duration.display_q(),
            g as int,
        ) && durs_pos(r@, g as int),
        tick(duration.display_q(), g as int) <= 0 ==> r@.len() == 0,
    decreases fuel, 1int,
{
    let ghost gi = g as int;
    let ghost m = *metre;
    let ghost nseg = m.segments().len() as int;
    let ghost d = duration.display_q();
    let ghost sq = split_q(m, rhythm@, with_rhythm, t@, d, fuel);
    let dd = duration.duration();
    proof {
        crate::notes::lemma_plain_dur(d);
        lemma_grid_scale(gi);
        lemma_div_ticks(m, gi, nseg, nseg);
    }
    if !dd.is_positive() {
        proof {
            vstd::arithmetic::div_mod::lemma_div_pos_is_pos(gi, d.d);
            assert(d.n * (gi / d.d) <= 0) by (nonlinear_arith)
                requires
                    d.n <= 0,
                    gi / d.d >= 0,
            ;
        }
        return Vec::new();
    }
    let ghost tt = tick(t@, gi);
    let ghost dt = tick(d, gi);
    proof {
        crate::arith::lemma_grid_determined(t@, gi);
        crate::arith::lemma_grid_determined(d, gi);
        crate::arith::lemma_grid_bounds(d, gi);
        lemma_grid_ops(tt, dt, gi);
    }
    let t_end = t.add(dd);
    let mut cur = duration;
    let ghost mut ct: int = dt;
    if with_rhythm {
        proof {
            crate::notes::lemma_tsum(rhythm@, gi);
            lemma_from_tick(tt + dt, gi);
        }
        match clip(rhythm, t, t_end, g, Ghost(bar_t as int)) {
            None => {
                return Vec::new();
            },
            Some(None) => {},
            Some(Some(x)) => {
                cur = plain(x, g);
                proof {
                    ct = tick(x@, gi);
                }
            },
        }
    }
    proof {
        let c = cur.display_q();
        assert(sq == split_rest(m, rhythm@, with_rhythm, t@, c, fuel));
        assert(rest_ends(m, rhythm@, with_rhythm, t@, c, fuel));
        crate::arith::lemma_grid_determined(c, gi);
        assert(c == from_tick(ct, gi));
        assert(0 <= ct <= dt);
    }
    split_settled(metre, rhythm, t, cur, with_rhythm, g, bar_t, Ghost(fuel))
}

/// Whether a note of length `d` starting `off` into the division `seg` (which starts at `ds`)
/// is one of the syncopations written as a single note.
fn is_syncopation(ds: Rational, seg: MetreSegment, off: Rational, d: Rational) -> (b: bool)
    requires
        ds.wf(),
        off.wf(),
        d.wf(),
        seg.wf(),
    ensures
        b == syncopation(ds@, seg, off@, d@),
{
    let sd = seg.duration();
    let subs = seg.subdivisions();
    let sup = seg.superdivision();
    let quarter_duple = sd.numer() == 1 && sd.denom() == 4 && subs == 1 && sup == Superdivision::Duple
        && off.numer() == 1 && off.denom() == 8 && ((d.numer() == 1 && d.denom() == 4) || (d.numer()
        == 3 && d.denom() == 8));
    let quarter_triple = ds.numer() == 0 && ds.denom() == 1 && sd.numer() == 1 && sd.denom() == 4
        && subs == 1 && sup == Superdivision::Triple && off.numer() == 1 && off.denom() == 8
        && d.numer() == 1 && d.denom() == 4;
    let half_duple = sd.numer() == 1 && sd.denom() == 2 && subs == 2 && sup == Superdivision::Duple
        && off.numer() == 1 && off.denom() == 4 && ((d.numer() == 1 && d.denom() == 2) || (d.numer()
        == 3 && d.denom() == 4));
    quarter_duple || quarter_triple || half_duple
}

/// Division `j` in ticks: where it starts, how long it is, and that it lies within the bar.
proof fn lemma_division_span(m: Metre, gi: int, j: int, seg: MetreSegment)
    requires
        m.wf(),
        m.segments().len() >= 1,
        grid_ok(gi),
        0 <= j < m.segments().len(),
        seg == m.segments()[j],
        seg.wf(),
    ensures
        0 <= div_tick(m, j, gi) < div_tick(m, j + 1, gi) <= div_tick(m, m.segments().len() as int, gi),
        seg.ticks() * (gi / 32) == div_tick(m, j + 1, gi) - div_tick(m, j, gi),
        1 <= seg.ticks() * (gi / 32),
        m.start_q(j) == from_tick(div_tick(m, j, gi), gi),
        seg.duration_q() == from_tick(seg.ticks() * (gi / 32), gi),
{
    let nseg = m.segments().len() as int;
    lemma_div_ticks(m, gi, j, nseg);
    lemma_div_ticks(m, gi, j + 1, nseg);
    lemma_div_ticks(m, gi, j, j + 1);
    vstd::arithmetic::div_mod::lemma_fundamental_div_mod(gi, 32);
    assert(seg.ticks() * (gi / 32) >= 1) by (nonlinear_arith)
        requires
            seg.ticks() >= 1,
            gi / 32 >= 1,
    ;
    lemma_refine32(seg.ticks(), gi);
    crate::arith::lemma_grid_determined(seg.duration_q(), 32);
    assert(crate::metre::start_ticks(m.segments(), j + 1) == crate::metre::start_ticks(m.segments(), j)
        + seg.ticks());
    let kk = gi / 32;
    assert(seg.ticks() * kk == div_tick(m, j + 1, gi) - div_tick(m, j, gi)) by (nonlinear_arith)
        requires
            div_tick(m, j + 1, gi) == crate::metre::start_ticks(m.segments(), j + 1) * kk,
            div_tick(m, j, gi) == crate::metre::start_ticks(m.segments(), j) * kk,
            crate::metre::start_ticks(m.segments(), j + 1) == crate::metre::start_ticks(m.segments(), j)
                + seg.ticks(),
    ;
}

/// Where tick `x` falls among the divisions from `i` on: the division it lies in, or none past
/// the end of the bar (a time before the bar falls in the first division).
proof fn lemma_division_any(m: Metre, g: int, x: int, i: int) -> (o: Option<int>)
    requires
        m.wf(),
        m.segments().len() >= 1,
        grid_ok(g),
        0 <= i <= m.segments().len(),
        i == 0 || div_tick(m, i, g) <= x,
    ensures
        crate::metre::division_index(m.segments(), from_tick(x, g), i) == o,
        match o {
            Some(j) => i <= j < m.segments().len() && x < div_tick(m, j + 1, g) && (j == 0 || div_tick(m, j, g)
                <= x),
            None => div_tick(m, m.segments().len() as int, g) <= x,
        },
    decreases m.segments().len() - i,
{
    let nseg = m.segments().len() as int;
    if i >= nseg {
        None
    } else {
        lemma_div_ticks(m, g, i + 1, nseg);
        lemma_ticks(x, div_tick(m, i + 1, g), g);
        if x < div_tick(m, i + 1, g) {
            Some(i)
        } else {
            lemma_division_any(m, g, x, i + 1)
        }
    }
}

/// The division that tick `x` falls in is one of the metre's (the last one past the end).
proof fn lemma_div_seg_wf(m: Metre, g: int, x: int)
    requires
        m.wf(),
        m.segments().len() >= 1,
        grid_ok(g),
    ensures
        div_seg(m, from_tick(x, g)).wf(),
{
    let o = lemma_division_any(m, g, x, 0);
    if o is None {
        assert(m.segments().last() == m.segments()[m.segments().len() - 1]);
    }
}

/// A run of whole divisions from tick `et` ends on the grid, between `et` and the limit `lt`.
proof fn lemma_comp_end(m: Metre, t: Q, lim: Q, te: Q, seg: MetreSegment, fuel: nat, g: int, et: int, lt: int) -> (ct: int)
    requires
        m.wf(),
        m.segments().len() >= 1,
        grid_ok(g),
        seg.wf(),
        te == from_tick(et, g),
        lim == from_tick(lt, g),
        -0x1_0000_0000 <= et <= lt <= 0x1_0000_0000,
    ensures
        comp_end(m, t, lim, te, seg, fuel) == from_tick(ct, g),
        et <= ct <= lt,
    decreases fuel,
{
    if fuel == 0 {
        et
    } else {
        lemma_grid_scale(g);
        lemma_refine32(seg.ticks(), g);
        crate::arith::lemma_grid_determined(seg.duration_q(), 32);
        vstd::arithmetic::div_mod::lemma_fundamental_div_mod(g, 32);
        let st = seg.ticks() * (g / 32);
        assert(1 <= st <= 128 * (g / 32)) by (nonlinear_arith)
            requires
                st == seg.ticks() * (g / 32),
                1 <= seg.ticks() <= 128,
                g / 32 >= 1,
        ;
        lemma_ticks(et, st, g);
        lemma_ticks(lt, et + st, g);
        let t2 = q_add(te, seg.duration_q());
        assert(t2 == from_tick(et + st, g));
        if q_lt(lim, t2) || !printable_q(q_sub(t2, t)) {
            et
        } else {
            lemma_div_seg_wf(m, g, et + st);
            lemma_comp_end(m, t, lim, t2, div_seg(m, t2), (fuel - 1) as nat, g, et + st, lt)
        }
    }
}

/// Where an explicit note cuts a note from tick `tt` to tick `tet` short, in ticks after `tt`.
proof fn lemma_clip_cut(r: Seq<Note>, t: Q, te: Q, g: int, tt: int, tet: int, i: int) -> (c: int)
    requires
        g > 0,
        notes_ok(r),
        notes_on(r, g),
        t == from_tick(tt, g),
        te == from_tick(tet, g),
        0 <= i <= r.len(),
    ensures
        clip_at(r, t, te, i) matches Clip::Cut(x) ==> x == from_tick(c, g) && 0 <= c < tet - tt,
    decreases r.len() - i,
{
    if i >= r.len() {
        0
    } else {
        crate::notes::lemma_start_sub(r, g, i);
        let st = tsum(r.subrange(0, i), g);
        lemma_ticks(tt, st, g);
        lemma_ticks(st, tet, g);
        lemma_ticks(st, tt, g);
        if r[i].1 is Explicit && q_le(t, start_of(r, i)) && q_lt(start_of(r, i), te) {
            st - tt
        } else if r[i].1 is Explicit && q_lt(start_of(r, i), t) && q_lt(t, start_of(r, i + 1)) {
            0
        } else {
            lemma_clip_cut(r, t, te, g, tt, tet, i + 1)
        }
    }
}

/// Within the bar, the spelling of a note comes to an end.
pub(crate) proof fn lemma_split_ends(m: Metre, r: Seq<Note>, with_rhythm: bool, t: Q, d: Q, g: int, fuel: nat)
    requires
        m.wf(),
        m.segments().len() >= 1,
        grid_ok(g),
        notes_ok(r),
        notes_on(r, g),
        reduced(t),
        reduced(d),
        on_grid(t, g),
        on_grid(d, g),
        0 <= tick(t, g),
        tick(t, g) + tick(d, g) <= div_tick(m, m.segments().len() as int, g),
        fuel > tick(d, g),
    ensures
        split_ends(m, r, with_rhythm, t, d, fuel),
    decreases fuel, 1int,
{
    let tt = tick(t, g);
    let dt = tick(d, g);
    crate::arith::lemma_grid_determined(t, g);
    crate::arith::lemma_grid_determined(d, g);
    crate::arith::lemma_grid_bounds(d, g);
    if d.n > 0 {
        lemma_ticks(tt, dt, g);
        lemma_grid_scale(g);
        lemma_div_ticks(m, g, m.segments().len() as int, m.segments().len() as int);
        if with_rhythm {
            let c = lemma_clip_cut(r, t, q_add(t, d), g, tt, tt + dt, 0);
            if let Clip::Cut(x) = clip_at(r, t, q_add(t, d), 0) {
                crate::arith::lemma_tick_fits(c, g);
                lemma_rest_ends(m, r, with_rhythm, t, x, g, fuel);
            } else if clip_at(r, t, q_add(t, d), 0) is Keep {
                lemma_rest_ends(m, r, with_rhythm, t, d, g, fuel);
            }
        } else {
            lemma_rest_ends(m, r, with_rhythm, t, d, g, fuel);
        }
    }
}

/// `lemma_split_ends` once the note's length `c` is settled.
proof fn lemma_rest_ends(m: Metre, r: Seq<Note>, with_rhythm: bool, t: Q, c: Q, g: int, fuel: nat)
    requires
        m.wf(),
        m.segments().len() >= 1,
        grid_ok(g),
        notes_ok(r),
        notes_on(r, g),
        reduced(t),
        reduced(c),
        on_grid(t, g),
        on_grid(c, g),
        0 <= tick(t, g) < div_tick(m, m.segments().len() as int, g),
        0 <= tick(c, g),
        tick(t, g) + tick(c, g) <= div_tick(m, m.segments().len() as int, g),
        fuel > tick(c, g),
        fuel >= 1,
    ensures
        rest_ends(m, r, with_rhythm, t, c, fuel),
    decreases fuel, 0int,
{
    let nseg = m.segments().len() as int;
    let tt = tick(t, g);
    let ct = tick(c, g);
    lemma_grid_scale(g);
    lemma_div_ticks(m, g, nseg, nseg);
    crate::arith::lemma_grid_determined(t, g);
    crate::arith::lemma_grid_determined(c, g);
    let j = lemma_division_found(m, g, tt, 0);
    let seg = m.segments()[j];
    assert(seg.wf());
    lemma_division_span(m, g, j, seg);
    let dst = div_tick(m, j, g);
    let st = seg.ticks() * (g / 32);
    lemma_grid_ops(tt, dst, g);
    lemma_grid_ops(dst, st, g);
    lemma_grid_ops(tt, ct, g);
    lemma_grid_ops(tt + ct, dst + st, g);
    let ds = div_start_q(m, t);
    assert(ds == from_tick(dst, g));
    assert(div_seg(m, t) == seg);
    let de = q_add(ds, seg.duration_q());
    assert(de == from_tick(dst + st, g));
    if !syncopation(ds, seg, q_sub(t, ds), c) && !(t == ds && MetreSegment::subdivision_of(
        seg.subdivisions_spec(),
    ) == Subdivision::Simple) {
        let te = if t == ds {
            comp_end(m, t, q_add(t, c), t, seg, fuel)
        } else {
            t
        };
        if t == ds {
            let cet = lemma_comp_end(m, t, q_add(t, c), t, seg, fuel, g, tt, tt + ct);
            lemma_grid_ops(cet, tt, g);
            crate::arith::lemma_tick_fits(cet, g);
            if q_lt(t, te) {
                lemma_grid_ops(ct, cet - tt, g);
                lemma_split_ends(m, r, with_rhythm, te, q_sub(c, q_sub(te, t)), g, (fuel - 1) as nat);
            }
        }
        if !(t == ds && q_lt(t, te)) && !q_le(q_add(t, c), de) {
            lemma_grid_ops(dst + st, tt, g);
            lemma_grid_ops(ct, dst + st - tt, g);
            lemma_split_ends(m, r, with_rhythm, de, q_sub(c, q_sub(de, t)), g, (fuel - 1) as nat);
        }
    }
}

/// Past the last note of the bar, no explicit note is in the way.
proof fn lemma_clip_past(r: Seq<Note>, t: Q, te: Q, g: int, tt: int, i: int)
    requires
        g > 0,
        notes_ok(r),
        notes_on(r, g),
        t == from_tick(tt, g),
        tsum(r, g) < tt,
        0 <= i <= r.len(),
    ensures
        clip_at(r, t, te, i) == Clip::Keep,
    decreases r.len() - i,
{
    if i < r.len() {
        crate::notes::lemma_start_sub(r, g, i);
        crate::notes::lemma_start_sub(r, g, i + 1);
        crate::notes::lemma_tsum_prefix(r, g, i);
        lemma_ticks(tt, tsum(r.subrange(0, i), g), g);
        lemma_ticks(tt, tsum(r.subrange(0, i + 1), g), g);
        lemma_clip_past(r, t, te, g, tt, i + 1);
    }
}

/// The end of the last division past the end of the bar, in ticks.
pub open spec fn past_end(m: Metre, g: int) -> int {
    div_tick(m, m.segments().len() as int, g) + m.segments().last().ticks() * (g / 32)
}

/// A note that reaches the end of the last division past the end of the bar is split for ever.
proof fn lemma_split_loops(m: Metre, r: Seq<Note>, with_rhythm: bool, p: int, d: Q, g: int, fuel: nat)
    requires
        m.wf(),
        m.segments().len() >= 1,
        grid_ok(g),
        notes_ok(r),
        notes_on(r, g),
        tsum(r, g) <= div_tick(m, m.segments().len() as int, g),
        past_end(m, g) <= p,
        reduced(d),
        on_grid(d, g),
        0 < tick(d, g),
        p + tick(d, g) <= 0x4_0000_0000,
    ensures
        !split_ends(m, r, with_rhythm, from_tick(p, g), d, fuel),
    decreases fuel, 1int,
{
    crate::arith::lemma_grid_bounds(d, g);
    if fuel > 0 {
        let nseg = m.segments().len() as int;
        lemma_grid_scale(g);
        lemma_div_ticks(m, g, nseg, nseg);
        lemma_division_span(m, g, nseg - 1, m.segments()[nseg - 1]);
        assert(m.segments().last() == m.segments()[nseg - 1]);
        crate::arith::lemma_grid_bounds(d, g);
        crate::arith::lemma_grid_determined(d, g);
        if with_rhythm {
            lemma_clip_past(r, from_tick(p, g), q_add(from_tick(p, g), d), g, p, 0);
        }
        lemma_rest_loops(m, r, with_rhythm, p, d, g, fuel);
    }
}

/// `lemma_split_loops` once the note's length `c` is settled (it may be zero past the end of
/// the last division).
proof fn lemma_rest_loops(m: Metre, r: Seq<Note>, with_rhythm: bool, p: int, c: Q, g: int, fuel: nat)
    requires
        m.wf(),
        m.segments().len() >= 1,
        grid_ok(g),
        notes_ok(r),
        notes_on(r, g),
        tsum(r, g) <= div_tick(m, m.segments().len() as int, g),
        past_end(m, g) <= p,
        reduced(c),
        on_grid(c, g),
        0 <= tick(c, g),
        p + tick(c, g) <= 0x4_0000_0000,
        tick(c, g) > 0 || p > past_end(m, g),
    ensures
        !rest_ends(m, r, with_rhythm, from_tick(p, g), c, fuel),
    decreases fuel, 0int,
{
    if fuel > 0 {
        let nseg = m.segments().len() as int;
        let bar_t = div_tick(m, nseg, g);
        let seg = m.segments()[nseg - 1];
        let t = from_tick(p, g);
        let ct = tick(c, g);
        lemma_grid_scale(g);
        lemma_div_ticks(m, g, nseg, nseg);
        assert(seg.wf());
        lemma_division_span(m, g, nseg - 1, seg);
        assert(m.segments().last() == seg);
        let st = seg.ticks() * (g / 32);
        let o = lemma_division_any(m, g, p, 0);
        if let Some(j) = o {
            lemma_div_ticks(m, g, j + 1, nseg);
        }
        assert(o is None);
        crate::arith::lemma_from_tick(bar_t, g);
        let ds = div_start_q(m, t);
        assert(ds == from_tick(bar_t, g));
        assert(div_seg(m, t) == seg);
        crate::arith::lemma_grid_determined(c, g);
        lemma_grid_ops(p, bar_t, g);
        lemma_grid_ops(bar_t, st, g);
        lemma_grid_ops(p, ct, g);
        lemma_grid_ops(p + ct, bar_t + st, g);
        lemma_grid_ops(p - bar_t, st, g);
        let off = q_sub(t, ds);
        assert(off == from_tick(p - bar_t, g));
        assert(seg.duration_q() == from_tick(st, g));
        assert(q_le(seg.duration_q(), off));
        let q8 = Q { n: 1, d: 8 };
        let q4 = Q { n: 1, d: 4 };
        let q2 = Q { n: 1, d: 2 };
        assert(q4.n * q8.d == 8 && q8.n * q4.d == 4 && q2.n * q4.d == 4 && q4.n * q2.d == 2);
        assert(!q_le(q4, q8) && !q_le(q2, q4));
        assert(!syncopation(ds, seg, off, c));
        assert(t != ds);
        let de = q_add(ds, seg.duration_q());
        assert(de == from_tick(bar_t + st, g));
        assert(!q_le(q_add(t, c), de));
        lemma_grid_ops(bar_t + st, p, g);
        lemma_grid_ops(ct, bar_t + st - p, g);
        crate::arith::lemma_tick_fits(ct - (bar_t + st - p), g);
        lemma_split_loops(m, r, with_rhythm, bar_t + st, q_sub(c, q_sub(de, t)), g, (fuel - 1) as nat);
    }
}

/// `metre_split_note` once the note's length `cur` is settled (after the explicit notes).
#[verifier::spinoff_prover]
#[verifier::rlimit(40)]
fn split_settled(
    metre: &Metre,
    rhythm: &Vec<Note>,
    t: Rational,
    cur: Duration,
    with_rhythm: bool,
    g: i64,
    bar_t: i64,
    Ghost(fuel): Ghost<nat>,
) -> (r: Vec<Duration>)
    requires
        metre.wf(),
        metre.segments().len() >= 1,
        grid_ok(g as int),
        bar_t == div_tick(*metre, metre.segments().len() as int, g as int),
        notes_ok(rhythm@),
        notes_on(rhythm@, g as int),
        crate::notes::tsum(rhythm@, g as int) <= bar_t,
        t.wf(),
        on_grid(t@, g as int),
        cur.wf(),
        on_grid(cur.display_q(), g as int),
        cur.tuplet_q() == q_int(1),
        -0x1_0000_0000 <= tick(t@, g as int) <= 0x1_0000_0000,
        0 <= tick(cur.display_q(), g as int),
        tick(t@, g as int) + tick(cur.display_q(), g as int) <= 0x1_0000_0000,
        fuel > tick(cur.display_q(), g as int),
        rest_ends(*metre, rhythm@, with_rhythm, t@, cur.display_q(), fuel),
    ensures
        pieces_are(
            r@,
            split_rest(*metre, rhythm@, with_rhythm, t@, cur.display_q(), fuel),
            cur.is_whole_rest() && rest_whole(*metre, t@, cur.display_q(), fuel),
        ),
        durs_on(r@, g as int),
        dsum(r@, g as int) <= tick(cur.display_q(), g as int),
        !with_rhythm && 0 < tick(cur.display_q(), g as int) ==> dsum(r@, g as int) == tick(
            cur.display_q(),
            g as int,
        ) && durs_pos(r@, g as int),
    decreases fuel, 0int,
{
    let ghost gi = g as int;
    let ghost m = *metre;
    let ghost nseg = m.segments().len() as int;
    let ghost c = cur.display_q();
    let ghost tt = tick(t@, gi);
    let ghost ct = tick(c, gi);
    proof {
        crate::notes::lemma_plain_dur(c);
        lemma_grid_scale(gi);
        lemma_div_ticks(m, gi, nseg, nseg);
        crate::arith::lemma_grid_determined(t@, gi);
        crate::arith::lemma_grid_determined(c, gi);
    }
    let dcur = cur.duration();
    let ghost o = lemma_division_any(m, gi, tt, 0);
    let (ds, segment) = metre.division(t);
    let ghost j: int = match o {
        Some(j) => j,
        None => nseg - 1,
    };
    let ghost dst: int = match o {
        Some(j) => div_tick(m, j, gi),
        None => bar_t as int,
    };
    let ghost st = segment.ticks() * (gi / 32);
    proof {
        assert(m.segments().last() == m.segments()[nseg - 1]);
        assert(segment == m.segments()[j]);
        lemma_division_span(m, gi, j, segment);
        lemma_from_tick(dst, gi);
        lemma_grid_ops(tt, dst, gi);
        lemma_grid_ops(dst, st, gi);
        lemma_grid_ops(tt, ct, gi);
        lemma_grid_ops(tt + ct, dst + st, gi);
        assert(ds@ == div_start_q(m, t@));
        assert(segment == div_seg(m, t@));
    }
    proof {
        assert(cur.duration_q() == c);
        lemma_one_piece(cur, gi);
    }
    let off = t.sub(ds);
    if is_syncopation(ds, segment, off, dcur) {
        return one_piece(cur);
    }
    let at_start = t.eq(&ds);
    if at_start && segment.subdivision() == Subdivision::Simple {
        return one_piece(cur);
    }
    if at_start {
        let lim = t.add(dcur);
        let te = compound_end(metre, t, lim, segment, g, Ghost(fuel));
        if te.gt(&t) {
            let ghost et = tick(te@, gi);
            proof {
                crate::arith::lemma_grid_determined(te@, gi);
                lemma_grid_ops(et, tt, gi);
                lemma_grid_ops(ct, et - tt, gi);
            }
            let first = plain(te.sub(t), g);
            let rest = metre_split_note(
                metre,
                rhythm,
                te,
                plain(dcur.sub(te.sub(t)), g),
                with_rhythm,
                g,
                bar_t,
                Ghost((fuel - 1) as nat),
            );
            let mut split = one_piece(first);
            proof {
                lemma_pieces_concat(
                    split@,
                    seq![q_sub(te@, t@)],
                    rest@,
                    split_q(m, rhythm@, with_rhythm, te@, q_sub(c, q_sub(te@, t@)), (fuel - 1) as nat),
                );
                lemma_first_piece(split@, rest@, gi);
                if !with_rhythm && ct > 0 {
                    assert(tick(split@[0].duration_q(), gi) == et - tt);
                    if ct - (et - tt) <= 0 {
                        assert(rest@ =~= Seq::<Duration>::empty());
                        assert(dsum(rest@, gi) == 0);
                    }
                    lemma_pos_concat(split@, rest@, gi);
                }
            }
            let mut rest = rest;
            split.append(&mut rest);
            return split;
        }
    }
    let de = ds.add(segment.duration());
    if t.add(dcur).le(&de) {
        return one_piece(cur);
    }
    let ghost det = dst + st;
    proof {
        lemma_grid_ops(det, tt, gi);
        lemma_grid_ops(ct, det - tt, gi);
        if det <= tt {
            crate::notes::lemma_tsum(rhythm@, gi);
            lemma_ticks(crate::notes::tsum(rhythm@, gi), bar_t as int, gi);
            lemma_rest_loops(m, rhythm@, with_rhythm, tt, c, gi, fuel);
        }
    }
    let first = plain(de.sub(t), g);
    let rest = metre_split_note(
        metre,
        rhythm,
        de,
        plain(dcur.sub(de.sub(t)), g),
        with_rhythm,
        g,
        bar_t,
        Ghost((fuel - 1) as nat),
    );
    let mut split = one_piece(first);
    proof {
        lemma_pieces_concat(
            split@,
            seq![q_sub(de@, t@)],
            rest@,
            split_q(m, rhythm@, with_rhythm, de@, q_sub(c, q_sub(de@, t@)), (fuel - 1) as nat),
        );
        lemma_first_piece(split@, rest@, gi);
        if !with_rhythm && ct > 0 {
            assert(tick(split@[0].duration_q(), gi) == det - tt);
            lemma_pos_concat(split@, rest@, gi);
        }
    }
    let mut rest = rest;
    split.append(&mut rest);
    split
}

/// An integer on the grid of `1 / g`.
pub(crate) proof fn lemma_int_ticks(k: int, g: int)
    requires
        g > 0,
    ensures
        q_int(k) == from_tick(k * g, g),
{
    crate::arith::lemma_gcd_one(crate::arith::abs(k) as nat);
    assert(g % 1 == 0);
    crate::arith::lemma_grid_determined(q_int(k), g);
    assert(g / 1 == g);
}

impl Bar {
    /// How a note of length `duration` placed at `t` is spelled, as tied pieces.
    ///
    /// An explicit note of the bar that starts under it cuts it short there; one that it would
    /// start inside rules it out (no pieces).  Common syncopations stay one note; at the start of
    /// a simple division the note stays whole; at the start of a compound division it takes as
    /// many whole divisions as stay printable, and the rest of the note follows them; otherwise
    /// it is split at the end of its division.  Past the end of the bar the divisions no longer advance, so the spelling must
    /// come to an end (`split_ends`; it does for every note within the bar, see
    /// `lemma_split_ends_in_bar`), and positions stay within 1024 whole notes of the bar's start;
    /// a note within the bar needs neither stated.
    /// The note is drawn without a tuplet; a whole rest stays one only where it is kept whole.
    pub fn split_note(&self, t: Rational, duration: Duration) -> (r: Vec<Duration>)
        requires
            self.wf(),
            t.wf(),
            duration.wf(),
            duration.tuplet_q() == q_int(1),
            exists|l: int|
                grid_ok(l) && notes_on(self.rhythm_spec(), l) && on_grid(t@, l) && on_grid(
                    duration.display_q(),
                    l,
                ),
            (q_le(q_int(0), t@) && q_le(q_add(t@, duration.display_q()), self.bar_q())) || (q_le(q_int(-1024), t@)
                && q_le(q_add(t@, duration.display_q()), q_int(1024)) && split_ends(
                self.metre_spec(),
                self.rhythm_spec(),
                true,
                t@,
                duration.display_q(),
                split_fuel(),
            )),
        ensures
            pieces_are(
                r@,
                split_q(self.metre_spec(), self.rhythm_spec(), true, t@, duration.display_q(), split_fuel()),
                duration.is_whole_rest() && split_whole(
                    self.metre_spec(),
                    self.rhythm_spec(),
                    true,
                    t@,
                    duration.display_q(),
                    split_fuel(),
                ),
            ),
    {
        let ghost l = choose|l: int|
            grid_ok(l) && notes_on(self.rhythm_spec(), l) && on_grid(t@, l) && on_grid(duration.display_q(), l);
        let ghost m = self.metre_spec();
        let ghost nseg = m.segments().len() as int;
        proof {
            if q_le(q_int(0), t@) && q_le(q_add(t@, duration.display_q()), self.bar_q()) {
                lemma_split_ends_in_bar(*self, t, duration);
                lemma_bar_within(*self, t@, duration.display_q());
            }
        }
        let g0 = grid_of(self.rhythm(), 32, Ghost(l));
        let g1 = i64_lcm(g0, t.denom(), Ghost(l));
        let disp = duration.display_duration();
        proof {
            crate::arith::lemma_lcm(g0 as nat, t@.d as nat, l);
        }
        let g = i64_lcm(g1, disp.denom(), Ghost(l));
        let ghost gi = g as int;
        proof {
            crate::arith::lemma_lcm(g1 as nat, disp@.d as nat, l);
            lemma_divides_trans(32, g0 as int, g1 as int);
            lemma_divides_trans(32, g1 as int, gi);
            lemma_divides_trans(g0 as int, g1 as int, gi);
            lemma_divides_trans(t@.d as int, g1 as int, gi);
            assert(grid_ok(gi));
            lemma_notes_refine(self.rhythm_spec(), g0 as int, gi);
            lemma_grid_scale(gi);
            lemma_div_ticks(m, gi, 0, nseg);
            lemma_div_ticks(m, gi, nseg, nseg);
            lemma_from_tick(div_tick(m, nseg, gi), gi);
            crate::arith::lemma_grid_determined(t@, gi);
            crate::arith::lemma_grid_determined(duration.display_q(), gi);
            crate::arith::lemma_grid_bounds(t@, gi);
            crate::arith::lemma_grid_bounds(duration.display_q(), gi);
            crate::notes::lemma_tsum(self.rhythm_spec(), gi);
        }
        let bar_t = ticks_of(self.metre().duration(), g);
        if !disp.is_positive() {
            return Vec::new();
        }
        proof {
            let tt = tick(t@, gi);
            let dt = tick(duration.display_q(), gi);
            lemma_int_ticks(-1024, gi);
            lemma_int_ticks(1024, gi);
            lemma_ticks(-1024 * gi, tt, gi);
            lemma_ticks(tt, dt, gi);
            lemma_ticks(tt + dt, 1024 * gi, gi);
            lemma_ticks(tsum(self.rhythm_spec(), gi), bar_t as int, gi);
            assert(1024 * gi <= 0x4000_0000) by (nonlinear_arith)
                requires
                    gi <= 0x10_0000,
            ;
        }
        metre_split_note(self.metre(), self.rhythm(), t, duration, true, g, bar_t, Ghost(split_fuel()))
    }
}

/// Every division of the metre is simple.
pub open spec fn all_simple(m: Metre) -> bool {
    forall|j: int|
        0 <= j < m.segments().len() ==> MetreSegment::subdivision_of(
            (#[trigger] m.segments()[j]).subdivisions_spec(),
        ) == Subdivision::Simple
}

/// None of the notes is explicit.
pub open spec fn no_explicit(r: Seq<Note>) -> bool {
    forall|k: int| 0 <= k < r.len() ==> !((#[trigger] r[k]).1 is Explicit)
}

proof fn lemma_keep_without_explicit(r: Seq<Note>, t: Q, te: Q, i: int)
    requires
        no_explicit(r),
    ensures
        clip_at(r, t, te, i) == Clip::Keep,
    decreases r.len() - i,
{
    if 0 <= i < r.len() {
        assert(!(r[i].1 is Explicit));
        lemma_keep_without_explicit(r, t, te, i + 1);
    }
}

proof fn lemma_total_front(x: Q, rest: Seq<Q>, g: int)
    ensures
        tick_total(seq![x] + rest, g) == tick(x, g) + tick_total(rest, g),
    decreases rest.len(),
{
    if rest.len() == 0 {
        assert(seq![x] + rest =~= seq![x]);
        assert(seq![x].drop_last() =~= Seq::<Q>::empty());
        assert(tick_total(Seq::<Q>::empty(), g) == 0);
    } else {
        assert((seq![x] + rest).drop_last() =~= seq![x] + rest.drop_last());
        assert((seq![x] + rest).last() == rest.last());
        lemma_total_front(x, rest.drop_last(), g);
    }
}

proof fn lemma_lens_front(x: Q, rest: Seq<Q>, g: int)
    requires
        reduced(x),
        on_grid(x, g),
        0 <= tick(x, g),
        lens_on(rest, g),
    ensures
        lens_on(seq![x] + rest, g),
{
    assert forall|i: int| 0 <= i < (seq![x] + rest).len() implies reduced(#[trigger] (seq![x] + rest)[i])
        && on_grid((seq![x] + rest)[i], g) && 0 <= tick((seq![x] + rest)[i], g) by {
        if i > 0 {
            assert((seq![x] + rest)[i] == rest[i - 1]);
        }
    }
}

/// In a metre of simple divisions, with nothing in the way, the pieces of a note lie on the
/// grid and add up to its length.
proof fn lemma_simple_split(m: Metre, r: Seq<Note>, with_rhythm: bool, t: Q, d: Q, g: int, fuel: nat)
    requires
        m.wf(),
        m.segments().len() >= 1,
        grid_ok(g),
        all_simple(m),
        with_rhythm ==> no_explicit(r),
        reduced(t),
        reduced(d),
        on_grid(t, g),
        on_grid(d, g),
        0 <= tick(t, g),
        0 < tick(d, g),
        tick(t, g) + tick(d, g) <= div_tick(m, m.segments().len() as int, g),
        fuel > div_tick(m, m.segments().len() as int, g) - tick(t, g),
    ensures
        lens_on(split_q(m, r, with_rhythm, t, d, fuel), g),
        tick_total(split_q(m, r, with_rhythm, t, d, fuel), g) == tick(d, g),
    decreases fuel,
{
    let nseg = m.segments().len() as int;
    let tt = tick(t, g);
    let dt = tick(d, g);
    lemma_grid_scale(g);
    lemma_div_ticks(m, g, nseg, nseg);
    crate::arith::lemma_grid_determined(t, g);
    crate::arith::lemma_grid_determined(d, g);
    crate::arith::lemma_grid_bounds(d, g);
    if with_rhythm {
        lemma_keep_without_explicit(r, t, q_add(t, d), 0);
    }
    let sq = split_q(m, r, with_rhythm, t, d, fuel);
    assert(sq == split_rest(m, r, with_rhythm, t, d, fuel));
    let j = lemma_division_found(m, g, tt, 0);
    let seg = m.segments()[j];
    assert(seg.wf());
    lemma_division_span(m, g, j, seg);
    let dst = div_tick(m, j, g);
    let st = seg.ticks() * (g / 32);
    lemma_grid_ops(tt, dst, g);
    lemma_grid_ops(dst, st, g);
    lemma_grid_ops(tt, dt, g);
    lemma_grid_ops(tt + dt, dst + st, g);
    let ds = div_start_q(m, t);
    assert(ds == from_tick(dst, g));
    assert(div_seg(m, t) == seg);
    assert(MetreSegment::subdivision_of(seg.subdivisions_spec()) == Subdivision::Simple);
    let de = q_add(ds, seg.duration_q());
    assert(de == from_tick(dst + st, g));
    if sq == seq![d] {
        assert(seq![d].drop_last() =~= Seq::<Q>::empty());
        assert(tick_total(Seq::<Q>::empty(), g) == 0);
        assert(lens_on(seq![d], g));
    } else {
        assert(t != ds);
        assert(!q_le(q_add(t, d), de));
        let first = q_sub(de, t);
        lemma_grid_ops(dst + st, tt, g);
        assert(first == from_tick(dst + st - tt, g));
        lemma_grid_ops(dt, dst + st - tt, g);
        let rest_d = q_sub(d, first);
        assert(rest_d == from_tick(dt - (dst + st - tt), g));
        let rest = split_q(m, r, with_rhythm, de, rest_d, (fuel - 1) as nat);
        assert(sq == seq![first] + rest);
        lemma_simple_split(m, r, with_rhythm, de, rest_d, g, (fuel - 1) as nat);
        lemma_total_front(first, rest, g);
        lemma_lens_front(first, rest, g);
    }
}

/// In a metre whose divisions are all simple, the pieces that `Bar::split_note` gives a note of
/// positive length with no explicit note of the bar in its way add up to the note's length.
pub proof fn lemma_split_note_fills(bar: Bar, t: Rational, duration: Duration)
    requires
        bar.wf(),
        t.wf(),
        duration.wf(),
        duration.tuplet_q() == q_int(1),
        q_le(q_int(0), t@),
        q_lt(q_int(0), duration.display_q()),
        q_le(q_add(t@, duration.display_q()), bar.bar_q()),
        exists|l: int|
            grid_ok(l) && notes_on(bar.rhythm_spec(), l) && on_grid(t@, l) && on_grid(duration.display_q(), l),
        all_simple(bar.metre_spec()),
        no_explicit(bar.rhythm_spec()),
    ensures
        q_total(split_q(bar.metre_spec(), bar.rhythm_spec(), true, t@, duration.display_q(), split_fuel()))
            == duration.display_q(),
{
    let l = choose|l: int|
        grid_ok(l) && notes_on(bar.rhythm_spec(), l) && on_grid(t@, l) && on_grid(duration.display_q(), l);
    let m = bar.metre_spec();
    let nseg = m.segments().len() as int;
    let d = duration.display_q();
    lemma_grid_scale(l);
    lemma_div_ticks(m, l, nseg, nseg);
    crate::arith::lemma_grid_determined(t@, l);
    crate::arith::lemma_grid_determined(d, l);
    crate::notes::lemma_zero_tick(l);
    let tt = tick(t@, l);
    let dt = tick(d, l);
    lemma_ticks(0, tt, l);
    lemma_ticks(0, dt, l);
    lemma_ticks(tt, dt, l);
    lemma_ticks(tt + dt, div_tick(m, nseg, l), l);
    lemma_simple_split(m, bar.rhythm_spec(), true, t@, d, l, split_fuel());
    lemma_total_ticks(split_q(m, bar.rhythm_spec(), true, t@, d, split_fuel()), l);
}

/// The spelling of a note that lies within the bar comes to an end: `Bar::split_note` can be
/// asked about any such note.
/// A note within a bar lies within 1024 whole notes of the bar's start.
pub proof fn lemma_bar_within(bar: Bar, t: Q, d: Q)
    requires
        bar.wf(),
        reduced(t),
        reduced(d),
        q_le(q_int(0), t),
        q_le(q_add(t, d), bar.bar_q()),
    ensures
        q_le(q_int(-1024), t),
        q_le(q_add(t, d), q_int(1024)),
{
    let m = bar.metre_spec();
    let nseg = m.segments().len() as int;
    lemma_grid_scale(32);
    lemma_div_ticks(m, 32, nseg, nseg);
    lemma_from_tick(div_tick(m, nseg, 32), 32);
    assert(div_tick(m, nseg, 32) <= 255 * 128);
    lemma_int_ticks(1024, 32);
    crate::arith::lemma_from_tick(32768int, 32);
    crate::arith::lemma_grid_order(bar.bar_q(), q_int(1024), 32);
    let bq = bar.bar_q();
    let sq = q_add(t, d);
    assert(t.d * d.d > 0) by (nonlinear_arith)
        requires
            t.d > 0,
            d.d > 0,
    ;
    crate::arith::lemma_canon(t.n * d.d + d.n * t.d, t.d * d.d);
    assert(q_le(bq, q_int(1024)));
    assert(bq.d > 0);
    assert(sq.n <= 1024 * sq.d) by (nonlinear_arith)
        requires
            sq.n * bq.d <= bq.n * sq.d,
            bq.n * 1 <= 1024 * bq.d,
            sq.d > 0,
            bq.d > 0,
    ;
}

pub proof fn lemma_split_ends_in_bar(bar: Bar, t: Rational, duration: Duration)
    requires
        bar.wf(),
        q_le(q_int(0), t@),
        q_le(q_add(t@, duration.display_q()), bar.bar_q()),
        exists|l: int|
            grid_ok(l) && notes_on(bar.rhythm_spec(), l) && on_grid(t@, l) && on_grid(duration.display_q(), l),
        reduced(t@),
        reduced(duration.display_q()),
    ensures
        split_ends(bar.metre_spec(), bar.rhythm_spec(), true, t@, duration.display_q(), split_fuel()),
{
    let l = choose|l: int|
        grid_ok(l) && notes_on(bar.rhythm_spec(), l) && on_grid(t@, l) && on_grid(duration.display_q(), l);
    let m = bar.metre_spec();
    let nseg = m.segments().len() as int;
    let d = duration.display_q();
    lemma_grid_scale(l);
    lemma_div_ticks(m, l, nseg, nseg);
    crate::arith::lemma_grid_determined(t@, l);
    crate::arith::lemma_grid_determined(d, l);
    crate::notes::lemma_zero_tick(l);
    let tt = tick(t@, l);
    let dt = tick(d, l);
    lemma_ticks(0, tt, l);
    lemma_ticks(tt, dt, l);
    lemma_ticks(tt + dt, div_tick(m, nseg, l), l);
    lemma_split_ends(m, bar.rhythm_spec(), true, t@, d, l, split_fuel());
}

} // verus!
