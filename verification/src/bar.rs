//! `Bar`: the rests, notes and chords of one voice in one bar, kept filling the bar exactly.
//!
//! Gaps are automatic rests, which the bar re-spells after every edit so that they follow the
//! beats of the metre.  Notes that are not automatic rests keep their place and length through
//! every re-spelling.
use crate::arith::{Q, from_tick, lemma_from_tick, lemma_ticks, on_grid, q_add, q_int, tick};
use crate::notes::{Note, auto_rest, holds_fixed, wrote_one, auto_count, cleared, denom_lcm, div_tick, fixed, grid_of, grid_ok, keeps, kept_around, last_lifetime_of, lemma_auto_count_mono, lemma_beat_lcm_divides, lemma_count_bounds, lemma_div_ticks, lemma_divides_trans, lemma_dur_reduced, lemma_fixed_amend, lemma_fixed_auto_suffix, lemma_fixed_empty, lemma_fixed_push, lemma_fixed_push_has, lemma_grid_scale, lemma_keeps_one, lemma_keeps_trans, lemma_kept_extend, lemma_kept_keeps, lemma_last_ticks, lemma_notes_refine, lemma_refine32, lemma_same_lengths, lemma_start_prefix, lemma_start_sub, lemma_starts_grow, lemma_total_push, lemma_tsum, lemma_tsum_prefix, lemma_unowned_mono, lemma_wrote_keeps, lemma_zero_tick, note_dur, note_ok, notes_ok, notes_on, plain_note, rational_of, rest_of, start_of, ticks_of, total_of, tsum, tuplet_kinds, unowned_count, write_replacement, wrote};
use crate::spell::{Spelling, beat_t, lemma_tick_multiple, reach, respell, search, start_spelling, ticks_list};
use crate::duration::Duration;
use crate::entity::EntitiesRes;
use crate::entity::Entity;
use crate::lifetime::Lifetime;
use crate::metre::Metre;
use crate::rational::Rational;
use vstd::prelude::*;

verus! {

/// The rhythm and metre of a voice in a single bar.
#[derive(Clone, Debug)]
pub struct Bar {
    /// Time signature and beat grouping.
    metre: Metre,
    /// The rests, notes and chords that fill this bar; empty for a whole rest.
    rhythm: Vec<Note>,
    /// Entities standing for the automatic rests.
    managed: Vec<Entity>,
}

impl Bar {
    pub closed spec fn metre_spec(&self) -> Metre {
        self.metre
    }

    pub closed spec fn rhythm_spec(&self) -> Seq<Note> {
        self.rhythm@
    }

    pub closed spec fn managed_spec(&self) -> Seq<Entity> {
        self.managed@
    }

    /// The length of the bar, in whole notes.
    pub open spec fn bar_q(&self) -> Q {
        self.metre_spec().start_q(self.metre_spec().segments().len() as int)
    }

    /// The rhythm fits a usable grid.
    pub open spec fn on_some_grid(&self) -> bool {
        exists|l: int| grid_ok(l) && notes_on(self.rhythm_spec(), l)
    }

    /// A bar of at least one segment whose notes (if any) fill it exactly.
    pub open spec fn wf(&self) -> bool {
        &&& self.metre_spec().wf()
        &&& self.metre_spec().segments().len() >= 1
        &&& notes_ok(self.rhythm_spec())
        &&& self.on_some_grid()
        &&& (self.rhythm_spec().len() == 0 || total_of(self.rhythm_spec()) == self.bar_q())
    }

    /// A bar holding a whole rest.  It is well formed (and can be edited) when the metre has at
    /// least one segment.
    pub fn new(metre: Metre) -> (b: Bar)
        requires
            metre.wf(),
        ensures
            metre.segments().len() >= 1 ==> b.wf(),
            b.metre_spec() == metre,
            b.rhythm_spec() == Seq::<Note>::empty(),
            b.managed_spec() == Seq::<Entity>::empty(),
    {
        let b = Bar { metre, rhythm: Vec::new(), managed: Vec::new() };
        assert(grid_ok(32) && notes_on(b.rhythm_spec(), 32));
        b
    }

    /// Whether the bar holds nothing but a whole rest.
    pub fn whole_rest(&self) -> (r: bool)
        ensures
            r == (self.rhythm_spec().len() == 0),
    {
        self.rhythm.len() == 0
    }

    pub fn metre(&self) -> (r: &Metre)
        ensures
            *r == self.metre_spec(),
    {
        &self.metre
    }

    pub fn rhythm(&self) -> (r: &Vec<Note>)
        ensures
            r@ == self.rhythm_spec(),
    {
        &self.rhythm
    }

    pub fn managed(&self) -> (r: &Vec<Entity>)
        ensures
            r@ == self.managed_spec(),
    {
        &self.managed
    }
}

impl Bar {
    /// Segment starts and the bar's end, in steps of `1 / g`.
    fn division_ticks(&self, g: i64) -> (v: Vec<i64>)
        requires
            self.metre_spec().wf(),
            grid_ok(g as int),
        ensures
            v@.len() == self.metre_spec().segments().len() + 1,
            forall|j: int| 0 <= j < v@.len() ==> #[trigger] v@[j] == div_tick(self.metre_spec(), j, g as int),
    {
        let starts = self.metre.division_starts();
        let mut v: Vec<i64> = Vec::new();
        let mut j: usize = 0;
        while j < starts.len()
            invariant
                self.metre_spec().wf(),
                grid_ok(g as int),
                starts@.len() == self.metre_spec().segments().len() + 1,
                forall|k: int| 0 <= k < starts@.len() ==> (#[trigger] starts@[k]).wf() && starts@[k]@ == self.metre_spec().start_q(k),
                j <= starts@.len(),
                v@.len() == j,
                forall|k: int| 0 <= k < j ==> #[trigger] v@[k] == div_tick(self.metre_spec(), k, g as int),
            decreases starts@.len() - j,
        {
            proof {
                let m = self.metre_spec();
                lemma_div_ticks(m, g as int, j as int, j as int);
                lemma_refine32(crate::metre::start_ticks(m.segments(), j as int), g as int);
                lemma_grid_scale(g as int);
            }
            let x = ticks_of(starts[j], g);
            v.push(x);
            j = j + 1;
        }
        v
    }
}

/// The least common multiple of the denominators of the lengths in `r` and of the beats of
/// `m`: the finest step, in whole notes, that spelling the rests of `r` in `m` uses.
pub open spec fn spell_lcm(r: Seq<Note>, m: Metre) -> nat {
    crate::arith::lcm(
        crate::notes::denoms_lcm(r, 1, r.len() as int),
        crate::metre::beat_lcm(m.segments(), m.segments().len() as int),
    )
}

/// The grid, in steps per whole note, on which the rests of `r` are spelled in `m`.
pub open spec fn spell_grid(r: Seq<Note>, m: Metre) -> int {
    crate::arith::lcm(spell_lcm(r, m), 32) as int
}

/// `tks` holds the tuplet ratios of `notes`, each once, in increasing order.
pub open spec fn kinds_of(notes: Seq<Note>, tks: Seq<Rational>) -> bool {
    &&& forall|i: int, j: int| 0 <= i < j < tks.len() ==> crate::arith::q_lt(tks[i]@, tks[j]@)
    &&& forall|i: int| 0 <= i < notes.len() ==> crate::notes::has_kind(tks, (#[trigger] notes[i]).0.tuplet_q())
    &&& forall|j: int| 0 <= j < tks.len() ==> crate::notes::used_kind(notes, notes.len() as int, (#[trigger] tks[j])@)
}

/// `b` is the spelling of the automatic rests of `r` in `m` that the best-first search takes
/// off its queue first among the complete ones (`search`), on steps of `1 / spell_grid`, with
/// rests made of whole steps of `1 / spell_lcm`, in the tuplet ratios `tks` of `r`.  It is
/// reached by the search, and no complete spelling the search reaches scores better.
pub(crate) open spec fn best_spelling(r: Seq<Note>, m: Metre, tks: Seq<Rational>, b: Spelling) -> bool {
    let g = spell_grid(r, m);
    let k = g / (spell_lcm(r, m) as int);
    &&& b.todo.len() == 0
    &&& exists|f: nat| #[trigger] search(m, g, k, tks, seq![start_spelling(r)], f) == Some(b)
    &&& exists|n: nat| #[trigger] reach(m, g, k, tks, start_spelling(r), b, n)
    &&& forall|c: Spelling, n: nat|
        c.todo.len() == 0 && #[trigger] reach(m, g, k, tks, start_spelling(r), c, n) ==> c.score <= b.score
}

/// `out` is what re-spelling the automatic rests of `r` in `m` gives: the whole rest stays, and
/// otherwise a best-scoring complete spelling (see `best_spelling`).
pub closed spec fn respelled(m: Metre, r: Seq<Note>, out: Seq<Note>) -> bool {
    if r.len() == 0 {
        out.len() == 0
    } else {
        exists|tks: Seq<Rational>, b: Spelling| kinds_of(r, tks) && b.done == out && #[trigger] best_spelling(r, m, tks, b)
    }
}

/// The superdivision of the segment that starts at step `x` of `1 / g`, if one does.
pub open spec fn kind_at(m: Metre, x: int, g: int) -> Option<crate::metre::Superdivision> {
    match crate::metre::division_at(m.segments(), from_tick(x, g), 0) {
        Some(j) => Some(m.segments()[j].superdivision_spec()),
        None => None,
    }
}

/// Whether the last note of `s`, ending at step `t` of `1 / g`, is an automatic rest that may
/// grow by `duration` steps: it starts at or after `division_start`, or the longer rest starts
/// and ends on divisions outside triple metre (or at the bar's end, step `total`), does not
/// start in the middle of a quadruple division, and can be drawn.
pub open spec fn amendable(m: Metre, g: int, total: int, division_start: int, s: Seq<Note>, t: int, duration: int) -> bool {
    &&& s.len() > 0
    &&& s.last().1 is AutomaticRest
    &&& {
        let ld = tick(note_dur(s.last()), g);
        let prior = t - ld;
        ||| prior >= division_start
        ||| {
            &&& kind_at(m, prior, g) matches Some(k) && k != crate::metre::Superdivision::Triple
            &&& (kind_at(m, t + duration, g) matches Some(k) && k != crate::metre::Superdivision::Triple)
                || t + duration == total
            &&& !(kind_at(m, t, g) matches Some(k) && k == crate::metre::Superdivision::Quadruple)
            &&& crate::duration::printable_q(from_tick(ld + duration, g))
        }
    }
}

/// `new` after an automatic rest of `dur` steps of `1 / g` is written at step `t`, in the
/// division that starts at step `ds`: the last rest of `new` grows when it may
/// (`amendable`), else the rest is added.
pub open spec fn write_rest(m: Metre, g: int, total: int, ds: int, new: Seq<Note>, t: int, dur: int) -> Seq<Note> {
    if amendable(m, g, total, ds, new, t, dur) {
        new.update(new.len() - 1, auto_rest(tick(note_dur(new.last()), g) + dur, g))
    } else {
        new.push(auto_rest(dur, g))
    }
}

/// Where merging and splitting the automatic rests of a bar has got to: the index of the next
/// division start not yet passed, the start of the division being written, the step reached
/// (of `1 / g`), and the notes written.
pub struct SimpState {
    pub p: int,
    pub ds: int,
    pub t: int,
    pub new: Seq<Note>,
}

/// The index, from `p` on, of the first division start after step `t`.
pub open spec fn next_div(m: Metre, g: int, p: int, t: int) -> int
    decreases m.segments().len() - p,
{
    if p < m.segments().len() && t >= div_tick(m, p, g) {
        next_div(m, g, p + 1, t)
    } else {
        p
    }
}

/// Writes the rest of an automatic rest that crosses into later divisions, up to step `tr`:
/// one rest per division, each merged into the one before where it may.
pub open spec fn fill_to(m: Metre, g: int, total: int, s: SimpState, tr: int) -> SimpState
    decreases m.segments().len() - s.p,
{
    if s.t >= tr || s.p >= m.segments().len() {
        s
    } else {
        let ds = div_tick(m, s.p, g);
        let p = s.p + 1;
        let nx = div_tick(m, p, g);
        let pp = if tr <= nx {
            tr
        } else {
            nx
        };
        fill_to(m, g, total, SimpState { p, ds, t: pp, new: write_rest(m, g, total, ds, s.new, s.t, pp - ds) }, tr)
    }
}

/// Writes note `n`: an automatic rest that crosses the next division start is split there (and
/// at every later start it crosses), one that does not is merged into the rest before where it
/// may, and any other note is kept.
pub open spec fn simp_step(m: Metre, g: int, total: int, s: SimpState, n: Note) -> SimpState {
    let p = next_div(m, g, s.p, s.t);
    let ds = if p == s.p {
        s.ds
    } else {
        div_tick(m, p - 1, g)
    };
    let d = tick(note_dur(n), g);
    let end = s.t + d;
    let next = div_tick(m, p, g);
    if n.1 is AutomaticRest && s.t < next && next < end {
        let f = fill_to(
            m,
            g,
            total,
            SimpState { p, ds, t: next, new: write_rest(m, g, total, ds, s.new, s.t, next - s.t) },
            end,
        );
        SimpState { p: f.p, ds: f.ds, t: end, new: f.new }
    } else if n.1 is AutomaticRest && amendable(m, g, total, ds, s.new, s.t, d) {
        SimpState { p, ds, t: end, new: write_rest(m, g, total, ds, s.new, s.t, d) }
    } else {
        SimpState { p, ds, t: end, new: s.new.push(n) }
    }
}

/// The first `i` notes of `r` written.
pub open spec fn simp_upto(m: Metre, g: int, total: int, r: Seq<Note>, i: int) -> SimpState
    decreases i,
{
    if i <= 0 {
        SimpState { p: 0, ds: 0, t: 0, new: Seq::empty() }
    } else {
        simp_step(m, g, total, simp_upto(m, g, total, r, i - 1), r[i - 1])
    }
}

/// The grid on which a bar's rests are merged and split: the least common multiple of 32 and
/// the denominators of its lengths.
pub open spec fn simp_grid(r: Seq<Note>) -> int {
    crate::notes::denoms_lcm(r, 32, r.len() as int) as int
}

/// The rhythm `r` in `m` with its automatic rests merged within divisions (and across whole
/// divisions where `amendable` allows) and split where they cross into a later division; a
/// rhythm of nothing but automatic rests becomes the whole rest.
pub open spec fn simplified(m: Metre, r: Seq<Note>) -> Seq<Note> {
    let g = simp_grid(r);
    if exists|j: int| 0 <= j < r.len() && !((#[trigger] r[j]).1 is AutomaticRest) {
        simp_upto(m, g, div_tick(m, m.segments().len() as int, g), r, r.len() as int).new
    } else {
        Seq::empty()
    }
}

impl Bar {
    /// Lengthens the last note of `new` by `duration` steps when it is an automatic rest and the
    /// longer rest stays within its division, or spans whole divisions (outside triple metre,
    /// without crossing the middle of 12/8) and can be drawn.
    fn try_amend(
        &self,
        g: i64,
        total: i64,
        division_start: i64,
        new: &mut Vec<Note>,
        t: i64,
        duration: i64,
    ) -> (r: bool)
        requires
            self.metre_spec().wf(),
            grid_ok(g as int),
            total == div_tick(self.metre_spec(), self.metre_spec().segments().len() as int, g as int),
            notes_ok(old(new)@),
            notes_on(old(new)@, g as int),
            total_of(old(new)@) == from_tick(t as int, g as int),
            0 <= t,
            0 < duration,
            t + duration <= total,
        ensures
            r == amendable(self.metre_spec(), g as int, total as int, division_start as int, old(new)@, t as int, duration as int),
            r ==> final(new)@.len() == old(new)@.len(),
            r ==> final(new)@.drop_last() == old(new)@.drop_last(),
            r ==> final(new)@.last().1 is AutomaticRest,
            r ==> final(new)@ == old(new)@.update(
                old(new)@.len() - 1,
                auto_rest(tick(note_dur(old(new)@.last()), g as int) + duration, g as int),
            ),
            r ==> final(new)@.last().0.display_q() == from_tick(tick(note_dur(old(new)@.last()), g as int) + duration, g as int),
            r ==> final(new)@.last().0.tuplet_q() == q_int(1),
            r ==> !final(new)@.last().0.is_whole_rest(),
            r ==> fixed(final(new)@) == fixed(old(new)@),
            r ==> total_of(final(new)@) == from_tick(t + duration, g as int),
            !r ==> final(new)@ == old(new)@,
            notes_ok(final(new)@),
            notes_on(final(new)@, g as int),
    {
        if new.len() == 0 {
            return false;
        }
        let last_idx = new.len() - 1;
        let last = new[last_idx];
        if !last.1.is_automatic() {
            return false;
        }
        proof {
            lemma_grid_scale(g as int);
            crate::metre::lemma_start_ticks(self.metre_spec().segments(), self.metre_spec().segments().len() as int, self.metre_spec().segments().len() as int);
            lemma_div_ticks(self.metre_spec(), g as int, self.metre_spec().segments().len() as int, self.metre_spec().segments().len() as int);
            assert(note_ok(new@[last_idx as int]));
            assert(on_grid(note_dur(new@[last_idx as int]), g as int));
        }
        let ghost x = lemma_last_ticks(new@, g as int, t as int);
        proof {
            lemma_from_tick(t as int - x, g as int);
        }
        let last_dur = ticks_of(last.0.duration(), g);
        proof {
            lemma_ticks(t - last_dur, t as int - x, g as int);
        }
        let prior_note_t = t - last_dur;
        let amended = rest_of(last_dur + duration, g);
        let amended_starts_on_division = match self.metre.on_division(rational_of(prior_note_t, g)) {
            Some(d) => d.superdivision() != crate::metre::Superdivision::Triple,
            None => false,
        };
        let amended_ends_on_division = match self.metre.on_division(rational_of(t + duration, g)) {
            Some(d) => d.superdivision() != crate::metre::Superdivision::Triple,
            None => false,
        } || t + duration == total;
        let amended_does_not_cross_quad = match self.metre.on_division(rational_of(t, g)) {
            Some(d) => d.superdivision() != crate::metre::Superdivision::Quadruple,
            None => true,
        };
        let valid_multi_segment = amended_starts_on_division && amended_ends_on_division
            && amended_does_not_cross_quad && amended.0.printable();
        if prior_note_t >= division_start || valid_multi_segment {
            let ghost before = new@;
            new.set(last_idx, amended);
            proof {
                lemma_fixed_amend(before, amended);
                lemma_start_prefix(before, new@, last_idx as int);
                assert(new@[last_idx as int] == amended);
                assert(total_of(new@) == q_add(start_of(new@, last_idx as int), note_dur(new@[last_idx as int])));
                lemma_ticks(x, last_dur + duration, g as int);
                lemma_from_tick(last_dur + duration, g as int);
                assert forall|j: int| 0 <= j < new@.len() implies #[trigger] note_ok(new@[j]) && on_grid(note_dur(new@[j]), g as int) by {
                    if j != last_idx {
                        assert(new@[j] == before[j]);
                        assert(note_ok(before[j]));
                        assert(on_grid(note_dur(before[j]), g as int));
                    }
                }
                assert(new@.drop_last() =~= before.drop_last());
            }
            return true;
        }
        false
    }
}

impl Bar {
    /// Merges automatic rests within a division, or spanning several divisions (outside triple
    /// metre), and splits automatic rests that cross into a later division.  A bar with nothing
    /// but automatic rests becomes a whole rest.  Some merges go too far; `optimize` splits them
    /// up again.
    fn simplify(&mut self)
        requires
            old(self).wf(),
        ensures
            final(self).wf(),
            final(self).metre_spec() == old(self).metre_spec(),
            final(self).managed_spec() == old(self).managed_spec(),
            fixed(final(self).rhythm_spec()) == fixed(old(self).rhythm_spec()),
            (final(self).rhythm_spec().len() == 0) == (fixed(old(self).rhythm_spec()).len() == 0),
            final(self).rhythm_spec() == simplified(old(self).metre_spec(), old(self).rhythm_spec()),
    {
        let ghost l = choose|l: int| grid_ok(l) && notes_on(self.rhythm@, l);
        let g = grid_of(&self.rhythm, 32, Ghost(l));
        let divs = self.division_ticks(g);
        let ghost m = self.metre_spec().segments().len() as int;
        let ghost old_r = self.rhythm@;
        let total = divs[divs.len() - 1];
        let ghost mm = self.metre_spec();
        let ghost gi = g as int;
        let ghost tot = total as int;
        proof {
            lemma_grid_scale(g as int);
            lemma_div_ticks(self.metre_spec(), g as int, m, m);
            lemma_div_ticks(self.metre_spec(), g as int, 0, m);
        }
        let mut p: usize = 0;
        let mut division_start: i64 = 0;
        let mut t_read: i64 = 0;
        let mut new: Vec<Note> = Vec::new();
        let mut idx: usize = 0;
        proof {
            lemma_zero_tick(g as int);
            assert(start_of(old_r, 0) == q_int(0));
            assert(total_of(new@) == q_int(0));
            assert(old_r.subrange(0, 0) =~= Seq::<Note>::empty());
            assert forall|j: int| 0 <= j <= m implies 0 <= #[trigger] divs@[j] by {
                lemma_div_ticks(self.metre_spec(), g as int, j, m);
            }
        }
        while idx < self.rhythm.len()
            invariant
                self.wf(),
                self.rhythm@ == old_r,
                grid_ok(g as int),
                notes_on(old_r, g as int),
                divs@.len() == m + 1,
                m == self.metre_spec().segments().len(),
                forall|j: int| 0 <= j <= m ==> #[trigger] divs@[j] == div_tick(self.metre_spec(), j, g as int),
                total == divs@[m],
                total <= 255 * 128 * (g / 32) <= 0x400_0000_0000,
                idx <= old_r.len(),
                p <= m,
                division_start == (if p == 0 { 0 } else { divs@[p - 1] }),
                0 <= division_start <= t_read,
                forall|j: int| 0 <= j <= m ==> 0 <= #[trigger] divs@[j],
                start_of(old_r, idx as int) == from_tick(t_read as int, g as int),
                0 <= t_read <= total,
                total_of(new@) == from_tick(t_read as int, g as int),
                notes_ok(new@),
                notes_on(new@, g as int),
                fixed(new@) == fixed(old_r.subrange(0, idx as int)),
                mm == self.metre_spec(),
                gi == g,
                tot == total,
                (SimpState { p: p as int, ds: division_start as int, t: t_read as int, new: new@ }) == simp_upto(mm, gi, tot, old_r, idx as int),
            decreases old_r.len() - idx,
        {
            let ghost s0 = simp_upto(mm, gi, tot, old_r, idx as int);
            let existing = self.rhythm[idx];
            proof {
                assert(note_ok(old_r[idx as int]));
                assert(on_grid(note_dur(old_r[idx as int]), g as int));
                lemma_dur_reduced(old_r[idx as int]);
                crate::arith::lemma_grid_determined(note_dur(old_r[idx as int]), g as int);
                crate::arith::lemma_grid_bounds(note_dur(old_r[idx as int]), g as int);
                let d = tick(note_dur(old_r[idx as int]), g as int);
                lemma_ticks(t_read as int, d, g as int);
                assert(start_of(old_r, idx + 1) == q_add(start_of(old_r, idx as int), note_dur(old_r[idx as int])));
                lemma_div_ticks(self.metre_spec(), g as int, m, m);
                if idx + 1 < old_r.len() {
                    lemma_starts_grow(old_r, g as int, idx + 1, old_r.len() as int);
                }
                lemma_ticks(t_read + d, total as int, g as int);
                assert(t_read + d <= total);
            }
            let d = ticks_of(existing.0.duration(), g);
            let existing_end = t_read + d;
            let mut next = divs[p];
            while t_read >= next
                invariant
                    divs@.len() == m + 1,
                    forall|j: int| 0 <= j <= m ==> #[trigger] divs@[j] == div_tick(self.metre_spec(), j, g as int),
                    self.metre_spec().wf(),
                    grid_ok(g as int),
                    m == self.metre_spec().segments().len(),
                    total == divs@[m],
                    p <= m,
                    next == divs@[p as int],
                    t_read < total,
                    division_start == (if p == 0 { 0 } else { divs@[p - 1] }),
                    0 <= division_start <= t_read,
                    forall|j: int| 0 <= j <= m ==> 0 <= #[trigger] divs@[j],
                    mm == self.metre_spec(),
                    gi == g,
                    t_read == s0.t,
                    s0.p <= p,
                    p == s0.p ==> division_start == s0.ds,
                    next_div(mm, gi, p as int, t_read as int) == next_div(mm, gi, s0.p, s0.t),
                decreases m - p,
            {
                proof {
                    if p == m {
                        assert(false);
                    }
                }
                division_start = divs[p];
                p = p + 1;
                next = divs[p];
            }
            let ghost p1 = p as int;
            let ghost ds1 = division_start as int;
            let ghost d1 = d as int;
            proof {
                assert(p1 == next_div(mm, gi, s0.p, s0.t));
                assert(ds1 == (if p1 == s0.p { s0.ds } else { div_tick(mm, p1 - 1, gi) }));
                assert(d1 == tick(note_dur(old_r[idx as int]), gi));
                assert(next == div_tick(mm, p1, gi));
                assert(existing == old_r[idx as int]);
            }
            let ghost pre = old_r.subrange(0, idx as int);
            proof {
                assert(old_r.subrange(0, idx + 1) =~= pre.push(existing));
                lemma_fixed_push(pre, existing);
                lemma_start_prefix(old_r, pre, idx as int);
                assert(total_of(pre) == start_of(old_r, idx as int));
            }
            if existing.1.is_automatic() && t_read < next && next < existing_end {
                let new_duration = next - t_read;
                if !self.try_amend(g, total, division_start, &mut new, t_read, new_duration) {
                    let r = rest_of(new_duration, g);
                    proof {
                        lemma_total_push(new@, r);
                        lemma_fixed_push(new@, r);
                        lemma_ticks(t_read as int, new_duration as int, g as int);
                        lemma_from_tick(new_duration as int, g as int);
                    }
                    new.push(r);
                    proof {
                        assert forall|j: int| 0 <= j < new@.len() implies #[trigger] note_ok(new@[j]) && on_grid(note_dur(new@[j]), g as int) by {
                            if j < new@.len() - 1 {
                                assert(note_ok(new@.drop_last()[j]));
                                assert(on_grid(note_dur(new@.drop_last()[j]), g as int));
                            }
                        }
                    }
                }
                let mut t_write = t_read + new_duration;
                t_read = existing_end;
                let ghost target = fill_to(mm, gi, tot, SimpState { p: p as int, ds: division_start as int, t: t_write as int, new: new@ }, t_read as int);
                proof {
                    assert(new@ == write_rest(mm, gi, tot, ds1, s0.new, s0.t, next - s0.t));
                    assert(simp_step(mm, gi, tot, s0, existing) == (SimpState { p: target.p, ds: target.ds, t: t_read as int, new: target.new }));
                }
                while t_write < t_read
                    invariant
                        divs@.len() == m + 1,
                        forall|j: int| 0 <= j <= m ==> #[trigger] divs@[j] == div_tick(self.metre_spec(), j, g as int),
                        self.metre_spec().wf(),
                        grid_ok(g as int),
                        m == self.metre_spec().segments().len(),
                        total == divs@[m],
                        total <= 0x400_0000_0000,
                        p <= m,
                        next == divs@[p as int],
                        t_write <= t_read <= total,
                        t_write < t_read ==> t_write == next,
                        0 <= division_start <= t_write,
                        forall|j: int| 0 <= j <= m ==> 0 <= #[trigger] divs@[j],
                        division_start == (if p == 0 { 0 } else { divs@[p - 1] }),
                        total_of(new@) == from_tick(t_write as int, g as int),
                        notes_ok(new@),
                        notes_on(new@, g as int),
                        fixed(new@) == fixed(pre),
                        mm == self.metre_spec(),
                        gi == g,
                        tot == total,
                        fill_to(mm, gi, tot, SimpState { p: p as int, ds: division_start as int, t: t_write as int, new: new@ }, t_read as int) == target,
                    decreases t_read - t_write,
                {
                    let ghost before = new@;
                    let ghost tw0 = t_write as int;
                    proof {
                        if p == m {
                            assert(false);
                        }
                        lemma_div_ticks(self.metre_spec(), g as int, p as int, p + 1);
                    }
                    division_start = divs[p];
                    p = p + 1;
                    next = divs[p];
                    let pp = if t_read <= next {
                        t_read
                    } else {
                        next
                    };
                    let nd = pp - division_start;
                    if !self.try_amend(g, total, division_start, &mut new, t_write, nd) {
                        let r = rest_of(nd, g);
                        proof {
                            lemma_total_push(new@, r);
                            lemma_fixed_push(new@, r);
                            lemma_ticks(t_write as int, nd as int, g as int);
                            lemma_from_tick(nd as int, g as int);
                        }
                        new.push(r);
                        proof {
                            assert forall|j: int| 0 <= j < new@.len() implies #[trigger] note_ok(new@[j]) && on_grid(note_dur(new@[j]), g as int) by {
                                if j < new@.len() - 1 {
                                    assert(note_ok(new@.drop_last()[j]));
                                    assert(on_grid(note_dur(new@.drop_last()[j]), g as int));
                                }
                            }
                        }
                    }
                    proof {
                        assert(new@ == write_rest(mm, gi, tot, division_start as int, before, tw0, nd as int));
                    }
                    t_write = pp;
                }
                proof {
                    assert(target == (SimpState { p: p as int, ds: division_start as int, t: t_write as int, new: new@ }));
                }
            } else {
                let amended = existing.1.is_automatic() && self.try_amend(
                    g,
                    total,
                    division_start,
                    &mut new,
                    t_read,
                    d,
                );
                proof {
                    if amended {
                        assert(new@ == write_rest(mm, gi, tot, ds1, s0.new, s0.t, d1));
                    }
                }
                if !amended {
                    proof {
                        lemma_total_push(new@, existing);
                        lemma_fixed_push(new@, existing);
                    }
                    new.push(existing);
                    proof {
                        assert forall|j: int| 0 <= j < new@.len() implies #[trigger] note_ok(new@[j]) && on_grid(note_dur(new@[j]), g as int) by {
                            if j < new@.len() - 1 {
                                assert(note_ok(new@.drop_last()[j]));
                                assert(on_grid(note_dur(new@.drop_last()[j]), g as int));
                            }
                        }
                    }
                }
                t_read = existing_end;
            }
            proof {
                assert(simp_upto(mm, gi, tot, old_r, idx + 1) == simp_step(mm, gi, tot, s0, old_r[idx as int]));
            }
            idx = idx + 1;
        }
        proof {
            assert(old_r.subrange(0, old_r.len() as int) =~= old_r);
            assert(gi == simp_grid(old_r));
            assert(tot == div_tick(mm, m, gi));
        }
        let mut any = false;
        let mut i: usize = 0;
        while i < self.rhythm.len()
            invariant
                self.rhythm@ == old_r,
                i <= old_r.len(),
                any == exists|j: int| 0 <= j < i && !((#[trigger] old_r[j]).1 is AutomaticRest),
            decreases old_r.len() - i,
        {
            if !self.rhythm[i].1.is_automatic() {
                any = true;
            }
            i = i + 1;
        }
        proof {
            lemma_fixed_empty(old_r);
        }
        if any {
            proof {
                lemma_div_ticks(self.metre_spec(), g as int, m, m);
                assert(total_of(old_r) == from_tick(t_read as int, g as int));
                lemma_ticks(t_read as int, total as int, g as int);
                lemma_fixed_empty(new@);
                if new@.len() == 0 {
                    assert(fixed(new@).len() == 0);
                }
            }
            self.rhythm = new;
        } else {
            self.rhythm.clear();
        }
        proof {
            assert(grid_ok(g as int) && notes_on(self.rhythm@, g as int));
        }
    }
}

impl Bar {
    /// Replaces a whole rest by one automatic rest per segment.
    fn fill(&mut self)
        requires
            old(self).wf(),
        ensures
            final(self).wf(),
            final(self).metre_spec() == old(self).metre_spec(),
            final(self).managed_spec() == old(self).managed_spec(),
            old(self).rhythm_spec().len() > 0 ==> final(self).rhythm_spec() == old(self).rhythm_spec(),
            old(self).rhythm_spec().len() == 0 ==> final(self).rhythm_spec() == filled_rests(old(self).metre_spec()),
            final(self).rhythm_spec().len() > 0,
            fixed(final(self).rhythm_spec()) == fixed(old(self).rhythm_spec()),
            forall|l: int| grid_ok(l) && notes_on(old(self).rhythm_spec(), l) ==> notes_on(final(self).rhythm_spec(), l),
    {
        if self.rhythm.len() > 0 {
            return;
        }
        let ghost m = self.metre_spec();
        let ghost nseg = m.segments().len() as int;
        let divs = self.division_ticks(32);
        let mut new: Vec<Note> = Vec::new();
        let mut j: usize = 0;
        proof {
            lemma_grid_scale(32);
            lemma_zero_tick(32);
            lemma_div_ticks(m, 32, 0, nseg);
        }
        while j + 1 < divs.len()
            invariant
                m == self.metre_spec(),
                m.wf(),
                nseg == m.segments().len(),
                nseg >= 1,
                divs@.len() == nseg + 1,
                forall|i: int| 0 <= i <= nseg ==> #[trigger] divs@[i] == div_tick(m, i, 32),
                j <= nseg,
                notes_ok(new@),
                notes_on(new@, 32),
                forall|i: int| 0 <= i < new@.len() ==> (#[trigger] new@[i]).1 is AutomaticRest,
                total_of(new@) == from_tick(divs@[j as int] as int, 32),
                new@.len() == j,
                forall|i: int| 0 <= i < j ==> #[trigger] new@[i] == auto_rest(div_tick(m, i + 1, 32) - div_tick(m, i, 32), 32),
            decreases nseg - j,
        {
            proof {
                lemma_div_ticks(m, 32, j as int, j + 1);
                lemma_div_ticks(m, 32, j + 1, nseg);
                lemma_grid_scale(32);
            }
            let r = rest_of(divs[j + 1] - divs[j], 32);
            proof {
                lemma_total_push(new@, r);
                lemma_ticks(divs@[j as int] as int, divs@[j + 1] - divs@[j as int], 32);
                lemma_from_tick(divs@[j + 1] - divs@[j as int], 32);
            }
            new.push(r);
            proof {
                assert forall|i: int| 0 <= i < j + 1 implies #[trigger] new@[i] == auto_rest(div_tick(m, i + 1, 32) - div_tick(m, i, 32), 32) by {
                    if i < j {
                        assert(new@[i] == new@.drop_last()[i]);
                    }
                }
                assert forall|i: int| 0 <= i < new@.len() implies #[trigger] note_ok(new@[i]) && on_grid(note_dur(new@[i]), 32) && new@[i].1 is AutomaticRest by {
                    if i < new@.len() - 1 {
                        assert(new@[i] == new@.drop_last()[i]);
                        assert(note_ok(new@.drop_last()[i]));
                        assert(on_grid(note_dur(new@.drop_last()[i]), 32));
                    }
                }
            }
            j = j + 1;
        }
        proof {
            lemma_div_ticks(m, 32, nseg, nseg);
            lemma_fixed_auto_suffix(Seq::<Note>::empty(), new@);
            assert(Seq::<Note>::empty() + new@ =~= new@);
            assert forall|l: int| grid_ok(l) implies notes_on(new@, l) by {
                assert forall|i: int| 0 <= i < new@.len() implies on_grid(#[trigger] note_dur(new@[i]), l) by {
                    assert(on_grid(note_dur(new@[i]), 32));
                    lemma_divides_trans(note_dur(new@[i]).d, 32, l);
                }
            }
            if new@.len() == 0 {
                lemma_div_ticks(m, 32, 0, nseg);
                lemma_ticks(0, div_tick(m, nseg, 32), 32);
            }
            assert(new@ =~= filled_rests(m));
        }
        self.rhythm = new;
        proof {
            assert(grid_ok(32) && notes_on(self.rhythm@, 32));
        }
    }
}

/// Where writing a replacement into a bar has got to: the step read up to in the old notes,
/// the step written up to, and the notes written.
pub struct SpliceState {
    pub tr: int,
    pub tw: int,
    pub new: Seq<Note>,
}

/// Takes the old note `n` while writing `repl` from step `s_t` (of `1 / g`) into a bar of
/// `bar_t` steps: the note under `s_t` is cut short there and the replacement follows it,
/// padded with an automatic rest up to where that note ended; a note under the written span
/// gives way to an automatic rest for its part after the span; any other note is kept.
pub open spec fn splice_step(st: SpliceState, n: Note, s_t: int, repl: Seq<Note>, g: int, bar_t: int) -> SpliceState {
    let end = st.tr + tick(note_dur(n), g);
    if st.tr <= s_t && s_t < end {
        let cut = s_t - st.tr;
        let new1 = if cut > 0 {
            st.new.push((crate::duration::plain_spec(from_tick(cut, g)), n.1))
        } else {
            st.new
        };
        let tw1 = if cut > 0 {
            st.tw + cut
        } else {
            st.tw
        };
        let new2 = crate::notes::write_repl_spec(new1, tw1, repl, g, bar_t, repl.len() as int);
        let tw2 = if tw1 + tsum(repl, g) <= bar_t {
            tw1 + tsum(repl, g)
        } else {
            bar_t
        };
        if end - tw2 > 0 {
            SpliceState { tr: end, tw: end, new: new2.push(auto_rest(end - tw2, g)) }
        } else {
            SpliceState { tr: end, tw: tw2, new: new2 }
        }
    } else if st.tr < st.tw {
        if end - st.tw > 0 {
            SpliceState { tr: end, tw: end, new: st.new.push(auto_rest(end - st.tw, g)) }
        } else {
            SpliceState { tr: end, tw: st.tw, new: st.new }
        }
    } else {
        SpliceState { tr: end, tw: end, new: st.new.push(n) }
    }
}

/// The first `i` old notes of `r` taken while writing `repl` from step `s_t`.
pub open spec fn splice_upto(r: Seq<Note>, s_t: int, repl: Seq<Note>, g: int, bar_t: int, i: int) -> SpliceState
    decreases i,
{
    if i <= 0 {
        SpliceState { tr: 0, tw: 0, new: Seq::empty() }
    } else {
        splice_step(splice_upto(r, s_t, repl, g, bar_t, i - 1), r[i - 1], s_t, repl, g, bar_t)
    }
}

/// A whole rest spelled out: one automatic rest per segment of `m`.
pub open spec fn filled_rests(m: Metre) -> Seq<Note> {
    Seq::new(m.segments().len() as nat, |i: int| auto_rest(div_tick(m, i + 1, 32) - div_tick(m, i, 32), 32))
}

/// The notes of a bar with rhythm `r` in `m` once `repl` is written from time `s`, before its
/// automatic rests are merged and re-spelled (see `Bar::splice`).
pub open spec fn spliced(m: Metre, r: Seq<Note>, s: Q, repl: Seq<Note>) -> Seq<Note> {
    let f = if r.len() == 0 {
        filled_rests(m)
    } else {
        r
    };
    if s.n < 0 {
        f
    } else {
        let g = crate::arith::lcm(
            crate::notes::denoms_lcm(repl, crate::notes::denoms_lcm(f, 32, f.len() as int), repl.len() as int),
            s.d as nat,
        ) as int;
        splice_upto(f, tick(s, g), repl, g, div_tick(m, m.segments().len() as int, g), f.len() as int).new
    }
}

impl Bar {
    /// The notes after writing `repl` from step `s_t` of a bar without a whole rest: notes
    /// before are kept, the note under `s_t` is cut short there, notes under the written span
    /// give way to automatic rests for the parts outside it, and notes after are kept.
    #[verifier::rlimit(40)]
    fn splice_notes(&self, s_t: i64, repl: &Vec<Note>, g: i64, bar_t: i64) -> (new: Vec<Note>)
        requires
            self.wf(),
            self.rhythm_spec().len() > 0,
            grid_ok(g as int),
            notes_on(self.rhythm_spec(), g as int),
            bar_t == div_tick(self.metre_spec(), self.metre_spec().segments().len() as int, g as int),
            0 <= s_t < bar_t,
            notes_ok(repl@),
            notes_on(repl@, g as int),
            tsum(repl@, g as int) <= 0x4000_0000,
        ensures
            notes_ok(new@),
            notes_on(new@, g as int),
            total_of(new@) == self.bar_q(),
            new@.len() > 0,
            kept_around(
                new@,
                self.rhythm_spec(),
                self.rhythm_spec().len() as int,
                from_tick(s_t as int, g as int),
                from_tick(s_t + tsum(repl@, g as int), g as int),
            ),
            wrote(new@, repl@, repl@.len() as int, s_t as int, g as int, bar_t as int),
            new@ == splice_upto(self.rhythm_spec(), s_t as int, repl@, g as int, bar_t as int, self.rhythm_spec().len() as int).new,
    {
        let ghost gi = g as int;
        let ghost fr = self.rhythm@;
        let ghost m = self.metre_spec();
        let ghost nseg = m.segments().len() as int;
        let ghost r_t = tsum(repl@, gi);
        let ghost w_t = if s_t + r_t <= bar_t { s_t + r_t } else { bar_t as int };
        let ghost sq = from_tick(s_t as int, gi);
        let ghost wq = from_tick(s_t + r_t, gi);
        let mut t_read: i64 = 0;
        let mut t_write: i64 = 0;
        let mut new: Vec<Note> = Vec::new();
        let mut idx: usize = 0;
        proof {
            lemma_grid_scale(gi);
            lemma_div_ticks(m, gi, nseg, nseg);
            lemma_zero_tick(gi);
            lemma_tsum(repl@, gi);
            assert(kept_around(new@, fr, 0, sq, wq)) by {
                reveal(kept_around);
            }
        }
        while idx < self.rhythm.len()
            invariant
                self.wf(),
                self.rhythm@ == fr,
                fr.len() > 0,
                grid_ok(gi),
                gi == g,
                notes_on(fr, gi),
                m == self.metre_spec(),
                nseg == m.segments().len(),
                bar_t == div_tick(m, nseg, gi),
                bar_t <= 0x4000_0000,
                0 <= s_t < bar_t,
                notes_ok(repl@),
                notes_on(repl@, gi),
                r_t == tsum(repl@, gi),
                0 <= r_t <= 0x4000_0000,
                w_t == (if s_t + r_t <= bar_t { s_t + r_t } else { bar_t as int }),
                sq == from_tick(s_t as int, gi),
                wq == from_tick(s_t + r_t, gi),
                idx <= fr.len(),
                start_of(fr, idx as int) == from_tick(t_read as int, gi),
                0 <= t_read <= bar_t,
                total_of(new@) == from_tick(t_write as int, gi),
                0 <= t_write <= bar_t,
                notes_ok(new@),
                notes_on(new@, gi),
                t_read <= s_t ==> t_write == t_read,
                t_read > s_t ==> t_read <= t_write && (t_write <= t_read || t_write <= w_t),
                t_read > s_t ==> wrote(new@, repl@, repl@.len() as int, s_t as int, gi, bar_t as int),
                kept_around(new@, fr, idx as int, sq, wq),
                (SpliceState { tr: t_read as int, tw: t_write as int, new: new@ }) == splice_upto(fr, s_t as int, repl@, gi, bar_t as int, idx as int),
            decreases fr.len() - idx,
        {
            let ghost st0 = splice_upto(fr, s_t as int, repl@, gi, bar_t as int, idx as int);
            let existing = self.rhythm[idx];
            proof {
                assert(note_ok(fr[idx as int]));
                assert(on_grid(note_dur(fr[idx as int]), gi));
                lemma_dur_reduced(fr[idx as int]);
                crate::arith::lemma_grid_determined(note_dur(fr[idx as int]), gi);
                crate::arith::lemma_grid_bounds(note_dur(fr[idx as int]), gi);
                let d = tick(note_dur(fr[idx as int]), gi);
                lemma_ticks(t_read as int, d, gi);
                assert(start_of(fr, idx + 1) == q_add(start_of(fr, idx as int), note_dur(fr[idx as int])));
                if idx + 1 < fr.len() {
                    lemma_starts_grow(fr, gi, idx + 1, fr.len() as int);
                }
                lemma_div_ticks(m, gi, nseg, nseg);
                lemma_ticks(t_read + d, bar_t as int, gi);
                lemma_ticks(t_read + d, s_t as int, gi);
                lemma_ticks(s_t as int, t_read as int, gi);
                lemma_ticks(s_t + r_t, t_read as int, gi);
            }
            let d = ticks_of(existing.0.duration(), g);
            let existing_end = t_read + d;
            let ghost before = new@;
            if t_read <= s_t && s_t < existing_end {
                let new_duration = s_t - t_read;
                if new_duration > 0 {
                    let n = plain_note(new_duration, g, existing.1);
                    proof {
                        lemma_total_push(new@, n);
                        lemma_ticks(t_write as int, new_duration as int, gi);
                        lemma_keeps_one(new@, n);
                    }
                    new.push(n);
                    t_write = t_write + new_duration;
                    proof {
                        assert forall|i: int| 0 <= i < new@.len() implies #[trigger] note_ok(new@[i]) && on_grid(note_dur(new@[i]), gi) by {
                            if i < before.len() {
                                assert(new@[i] == before[i]);
                                assert(note_ok(before[i]));
                                assert(on_grid(note_dur(before[i]), gi));
                            } else {
                                assert(new@[i] == n);
                            }
                        }
                    }
                } else {
                    proof {
                        lemma_keeps_one(new@, existing);
                    }
                }
                t_read = existing_end;
                let ghost mid = new@;
                t_write = write_replacement(&mut new, t_write, repl, g, bar_t);
                let pad_end = t_read - t_write;
                if pad_end > 0 {
                    let r = rest_of(pad_end, g);
                    proof {
                        lemma_total_push(new@, r);
                        lemma_ticks(t_write as int, pad_end as int, gi);
                        lemma_keeps_one(new@, r);
                        lemma_wrote_keeps(new@, new@.push(r), repl@, repl@.len() as int, s_t as int, gi, bar_t as int);
                    }
                    let ghost before_pad = new@;
                    new.push(r);
                    t_write = t_write + pad_end;
                    proof {
                        assert forall|i: int| 0 <= i < new@.len() implies #[trigger] note_ok(new@[i]) && on_grid(note_dur(new@[i]), gi) by {
                            if i < before_pad.len() {
                                assert(new@[i] == before_pad[i]);
                                assert(note_ok(before_pad[i]));
                                assert(on_grid(note_dur(before_pad[i]), gi));
                            } else {
                                lemma_from_tick(pad_end as int, gi);
                                assert(new@[i] == r);
                            }
                        }
                        lemma_keeps_trans(mid, before_pad, new@);
                    }
                } else {
                    proof {
                        lemma_keeps_one(new@, existing);
                    }
                }
                proof {
                    lemma_keeps_trans(before, mid, new@);
                    lemma_kept_keeps(before, new@, fr, idx as int, sq, wq);
                    lemma_kept_extend(new@, fr, idx as int, sq, wq);
                }
            } else if t_read < t_write {
                let new_duration = existing_end - t_write;
                if new_duration > 0 {
                    let r = rest_of(new_duration, g);
                    proof {
                        lemma_total_push(new@, r);
                        lemma_ticks(t_write as int, new_duration as int, gi);
                        lemma_keeps_one(new@, r);
                        lemma_wrote_keeps(new@, new@.push(r), repl@, repl@.len() as int, s_t as int, gi, bar_t as int);
                        lemma_kept_keeps(new@, new@.push(r), fr, idx as int, sq, wq);
                    }
                    new.push(r);
                    t_read = existing_end;
                    t_write = t_write + new_duration;
                    proof {
                        lemma_from_tick(new_duration as int, gi);
                        assert forall|i: int| 0 <= i < new@.len() implies #[trigger] note_ok(new@[i]) && on_grid(note_dur(new@[i]), gi) by {
                            if i < before.len() {
                                assert(new@[i] == before[i]);
                                assert(note_ok(before[i]));
                                assert(on_grid(note_dur(before[i]), gi));
                            } else {
                                assert(new@[i] == r);
                            }
                        }
                    }
                } else {
                    t_read = existing_end;
                }
                proof {
                    lemma_kept_extend(new@, fr, idx as int, sq, wq);
                }
            } else {
                proof {
                    lemma_total_push(new@, existing);
                    lemma_keeps_one(new@, existing);
                    if !(existing.1 is AutomaticRest) {
                        lemma_fixed_push_has(new@, existing);
                        assert(holds_fixed(new@.push(existing), (total_of(new@), existing))) by {
                            reveal(holds_fixed);
                        }
                    }
                    lemma_kept_keeps(new@, new@.push(existing), fr, idx as int, sq, wq);
                    if t_read > s_t {
                        lemma_wrote_keeps(new@, new@.push(existing), repl@, repl@.len() as int, s_t as int, gi, bar_t as int);
                    }
                }
                new.push(existing);
                t_read = existing_end;
                t_write = existing_end;
                proof {
                    assert forall|i: int| 0 <= i < new@.len() implies #[trigger] note_ok(new@[i]) && on_grid(note_dur(new@[i]), gi) by {
                        if i < before.len() {
                            assert(new@[i] == before[i]);
                            assert(note_ok(before[i]));
                            assert(on_grid(note_dur(before[i]), gi));
                        } else {
                            assert(new@[i] == fr[idx as int]);
                        }
                    }
                    lemma_kept_extend(new@, fr, idx as int, sq, wq);
                }
            }
            proof {
                assert(existing == fr[idx as int]);
                assert(splice_upto(fr, s_t as int, repl@, gi, bar_t as int, idx + 1) == splice_step(st0, existing, s_t as int, repl@, gi, bar_t as int));
            }
            idx = idx + 1;
        }
        proof {
            lemma_div_ticks(m, gi, nseg, nseg);
            assert(start_of(fr, fr.len() as int) == total_of(fr));
            lemma_ticks(t_read as int, bar_t as int, gi);
            if new@.len() == 0 {
                lemma_zero_tick(gi);
                lemma_ticks(0, t_write as int, gi);
            }
        }
        new
    }
}

impl Bar {
    /// Starting at `splice_start`, in whole notes, replaces existing notes with `replacement`,
    /// then re-spells the automatic rests.
    ///
    /// Lengths are played lengths, as opposed to drawn ones.  If the splice starts at or after
    /// the end of the bar, nothing changes.  Parts of the replacement beyond the end of the bar
    /// are left out (the note that crosses the end is cut short).  An existing note that starts
    /// before the splice and reaches into it is cut short at the splice; existing notes under
    /// the replacement are removed, their parts outside it becoming automatic rests; existing
    /// notes entirely after it are kept.
    pub fn splice(&mut self, splice_start: Rational, replacement: Vec<Note>)
        requires
            old(self).wf(),
            splice_start.wf(),
            crate::arith::q_lt(splice_start@, old(self).bar_q()) ==> notes_ok(replacement@),
            crate::arith::q_lt(splice_start@, old(self).bar_q()) ==> crate::arith::q_le(
                total_of(replacement@),
                q_int(1024),
            ),
            crate::arith::q_lt(splice_start@, old(self).bar_q()) ==> exists|l: int|
                grid_ok(l) && notes_on(old(self).rhythm_spec(), l) && notes_on(replacement@, l)
                    && on_grid(splice_start@, l),
        ensures
            final(self).wf(),
            final(self).metre_spec() == old(self).metre_spec(),
            final(self).managed_spec() == old(self).managed_spec(),
            !crate::arith::q_lt(splice_start@, old(self).bar_q()) ==> *final(self) == *old(self),
            crate::arith::q_lt(splice_start@, q_int(0)) ==> fixed(final(self).rhythm_spec()) == fixed(
                old(self).rhythm_spec(),
            ),
            crate::arith::q_le(q_int(0), splice_start@) && crate::arith::q_lt(splice_start@, old(self).bar_q())
                ==> forall|k: int|
                0 <= k < replacement@.len() && !((#[trigger] replacement@[k]).1 is AutomaticRest)
                    && crate::arith::q_le(
                    q_add(splice_start@, start_of(replacement@, k + 1)),
                    old(self).bar_q(),
                ) ==> fixed(final(self).rhythm_spec()).contains(
                    (q_add(splice_start@, start_of(replacement@, k)), replacement@[k]),
                ),
            crate::arith::q_le(q_int(0), splice_start@) && crate::arith::q_lt(splice_start@, old(self).bar_q())
                ==> kept_around(
                final(self).rhythm_spec(),
                old(self).rhythm_spec(),
                old(self).rhythm_spec().len() as int,
                splice_start@,
                q_add(splice_start@, total_of(replacement@)),
            ),
            crate::arith::q_lt(splice_start@, old(self).bar_q()) ==> ((final(self).rhythm_spec().len() == 0) == (fixed(
                final(self).rhythm_spec(),
            ).len() == 0)),
            crate::arith::q_lt(splice_start@, old(self).bar_q()) ==> respelled(
                old(self).metre_spec(),
                simplified(
                    old(self).metre_spec(),
                    spliced(old(self).metre_spec(), old(self).rhythm_spec(), splice_start@, replacement@),
                ),
                final(self).rhythm_spec(),
            ),
    {
        let bar_duration = self.metre.duration();
        if splice_start.ge(&bar_duration) {
            return;
        }
        let ghost l = choose|l: int|
            grid_ok(l) && notes_on(self.rhythm@, l) && notes_on(replacement@, l) && on_grid(splice_start@, l);
        let ghost old_r = self.rhythm@;
        let ghost m = self.metre_spec();
        let ghost nseg = m.segments().len() as int;
        self.fill();
        let g0 = grid_of(&self.rhythm, 32, Ghost(l));
        let g1 = grid_of(&replacement, g0, Ghost(l));
        let g = crate::rational::i64_lcm(g1, splice_start.denom(), Ghost(l));
        let ghost gi = g as int;
        proof {
            crate::arith::lemma_lcm(g1 as nat, splice_start@.d as nat, l);
            lemma_divides_trans(32, g1 as int, gi);
            assert(grid_ok(gi));
            lemma_divides_trans(g0 as int, g1 as int, gi);
            lemma_notes_refine(self.rhythm@, g0 as int, gi);
            lemma_notes_refine(replacement@, g1 as int, gi);
            lemma_grid_scale(gi);
            lemma_div_ticks(m, gi, 0, nseg);
            lemma_div_ticks(m, gi, nseg, nseg);
            lemma_from_tick(div_tick(m, nseg, gi), gi);
        }
        let bar_t = ticks_of(bar_duration, g);
        let ghost filled = self.rhythm@;
        if !splice_start.is_negative() {
            proof {
                lemma_ticks(tick(splice_start@, gi), bar_t as int, gi);
                crate::arith::lemma_grid_determined(splice_start@, gi);
                crate::arith::lemma_grid_bounds(splice_start@, gi);
                lemma_tsum(replacement@, gi);
                crate::arith::lemma_gcd_one(1024);
                crate::arith::lemma_grid_determined(q_int(1024), gi);
                assert(1024 * (gi / 1) == 1024 * gi) by (nonlinear_arith);
                lemma_ticks(tsum(replacement@, gi), 1024 * gi, gi);
            }
            let s_t = ticks_of(splice_start, g);
            let new = self.splice_notes(s_t, &replacement, g, bar_t);
            proof {
                let r_t = tsum(replacement@, gi);
                lemma_ticks(s_t as int, r_t, gi);
                assert(q_add(splice_start@, total_of(replacement@)) == from_tick(s_t + r_t, gi));
            }
            self.rhythm = new;
            proof {
                assert(grid_ok(gi) && notes_on(self.rhythm@, gi));
            }
        }
        let ghost written = self.rhythm@;
        proof {
            assert(splice_start@.n * 1 == splice_start@.n && 0 * splice_start@.d == 0) by (nonlinear_arith);
            assert(splice_start@.n < 0 <==> crate::arith::q_lt(splice_start@, q_int(0)));
            if splice_start@.n < 0 {
                assert(written == filled);
            }
        }
        self.simplify();
        let ghost mid = self.rhythm@;
        self.optimize();
        proof {
            lemma_fixed_empty(mid);
            lemma_fixed_empty(self.rhythm@);
            if mid.len() > 0 {
                let (tks, b) = choose|tks: Seq<Rational>, b: Spelling| kinds_of(mid, tks) && b.done == self.rhythm@ && #[trigger] best_spelling(mid, self.metre_spec(), tks, b);
                assert(best_spelling(mid, self.metre_spec(), tks, b));
            }
            assert(respelled(self.metre_spec(), simplified(self.metre_spec(), written), self.rhythm@));
            assert(written == spliced(m, old_r, splice_start@, replacement@));
        }
        proof {
            reveal(keeps);
            reveal(holds_fixed);
            assert(keeps(written, self.rhythm@));
            if crate::arith::q_le(q_int(0), splice_start@) {
                let s_t = tick(splice_start@, gi);
                let r_t = tsum(replacement@, gi);
                crate::arith::lemma_grid_determined(splice_start@, gi);
                lemma_tsum(replacement@, gi);
                lemma_ticks(s_t, r_t, gi);
                assert(splice_start@ == from_tick(s_t, gi));
                assert(q_add(splice_start@, total_of(replacement@)) == from_tick(s_t + r_t, gi));
                if old_r.len() > 0 {
                    lemma_kept_keeps(written, self.rhythm@, filled, filled.len() as int, splice_start@, q_add(splice_start@, total_of(replacement@)));
                } else {
                    reveal(kept_around);
                }
                assert forall|k: int|
                    0 <= k < replacement@.len() && !((#[trigger] replacement@[k]).1 is AutomaticRest)
                        && crate::arith::q_le(
                        q_add(splice_start@, start_of(replacement@, k + 1)),
                        old(self).bar_q(),
                    ) implies fixed(self.rhythm@).contains(
                    (q_add(splice_start@, start_of(replacement@, k)), replacement@[k]),
                ) by {
                    lemma_start_sub(replacement@, gi, k);
                    lemma_start_sub(replacement@, gi, k + 1);
                    lemma_tsum_prefix(replacement@, gi, k);
                    lemma_ticks(s_t, tsum(replacement@.subrange(0, k), gi), gi);
                    lemma_ticks(s_t, tsum(replacement@.subrange(0, k + 1), gi), gi);
                    lemma_ticks(s_t + tsum(replacement@.subrange(0, k + 1), gi), bar_t as int, gi);
                    reveal(wrote);
                    assert(wrote_one(written, replacement@, k, s_t, gi, bar_t as int));
                    assert(fixed(written).contains((from_tick(s_t + tsum(replacement@.subrange(0, k), gi), gi), replacement@[k])));
                }
            }
        }
    }
}

/// A note of `s` that is not an automatic rest is among the explicit notes `fixed(s)`.
proof fn lemma_fixed_has(s: Seq<Note>, k: int) -> (j: int)
    requires
        0 <= k < s.len(),
        !(s[k].1 is AutomaticRest),
    ensures
        0 <= j < fixed(s).len(),
        fixed(s)[j].1 == s[k],
    decreases s.len(),
{
    let a = s.drop_last();
    if k < s.len() - 1 {
        assert(a[k] == s[k]);
        let j = lemma_fixed_has(a, k);
        if !(s.last().1 is AutomaticRest) {
            assert(fixed(s)[j] == fixed(a)[j]);
        }
        j
    } else {
        fixed(a).len() as int
    }
}

/// An entry of `fixed(s)` is a note of `s` that is not an automatic rest.
proof fn lemma_fixed_from(s: Seq<Note>, j: int) -> (k: int)
    requires
        0 <= j < fixed(s).len(),
    ensures
        0 <= k < s.len(),
        fixed(s)[j].1 == s[k],
        !(s[k].1 is AutomaticRest),
    decreases s.len(),
{
    let a = s.drop_last();
    if s.last().1 is AutomaticRest {
        let k = lemma_fixed_from(a, j);
        assert(a[k] == s[k]);
        k
    } else if j < fixed(a).len() {
        assert(fixed(s)[j] == fixed(a)[j]);
        let k = lemma_fixed_from(a, j);
        assert(a[k] == s[k]);
        k
    } else {
        s.len() - 1
    }
}

/// Once `remove(e)` has run, no note of the bar belongs to `e`: its notes became automatic
/// rests, and the re-spelling keeps every other note that is not an automatic rest.
pub proof fn lemma_removed_entity_gone(before: Bar, after: Bar, e: Entity)
    requires
        fixed(after.rhythm_spec()) == fixed(cleared(before.rhythm_spec(), e)),
    ensures
        forall|k: int|
            0 <= k < after.rhythm_spec().len() ==> (#[trigger] after.rhythm_spec()[k]).1.entity_spec() != Some(e),
{
    let s = after.rhythm_spec();
    let c = cleared(before.rhythm_spec(), e);
    assert forall|k: int| 0 <= k < s.len() implies (#[trigger] s[k]).1.entity_spec() != Some(e) by {
        if !(s[k].1 is AutomaticRest) {
            let j = lemma_fixed_has(s, k);
            let i = lemma_fixed_from(c, j);
            assert(c[i] == s[k]);
        }
    }
}

impl Bar {
    /// Turns the notes of entity `rnc` into automatic rests and re-spells the rests; returns the
    /// lifetime of the last such note, if any.
    pub fn remove(&mut self, rnc: Entity) -> (r: Option<Lifetime>)
        requires
            old(self).wf(),
        ensures
            final(self).wf(),
            final(self).metre_spec() == old(self).metre_spec(),
            final(self).managed_spec() == old(self).managed_spec(),
            r == last_lifetime_of(old(self).rhythm_spec(), rnc, old(self).rhythm_spec().len() as int),
            fixed(final(self).rhythm_spec()) == fixed(cleared(old(self).rhythm_spec(), rnc)),
            (final(self).rhythm_spec().len() == 0) == (fixed(final(self).rhythm_spec()).len() == 0),
            respelled(
                old(self).metre_spec(),
                simplified(old(self).metre_spec(), cleared(old(self).rhythm_spec(), rnc)),
                final(self).rhythm_spec(),
            ),
    {
        let ghost old_r = self.rhythm@;
        let mut ret: Option<Lifetime> = None;
        let mut i: usize = 0;
        while i < self.rhythm.len()
            invariant
                self.metre_spec() == old(self).metre_spec(),
                self.managed_spec() == old(self).managed_spec(),
                old_r == old(self).rhythm_spec(),
                self.rhythm@.len() == old_r.len(),
                i <= old_r.len(),
                forall|j: int| 0 <= j < old_r.len() ==> #[trigger] self.rhythm@[j] == (if j < i { cleared(old_r, rnc)[j] } else { old_r[j] }),
                ret == last_lifetime_of(old_r, rnc, i as int),
            decreases old_r.len() - i,
        {
            let (d, lifetime) = self.rhythm[i];
            let hit = match lifetime.to_option() {
                Some(e) => e.id() == rnc.id(),
                None => false,
            };
            proof {
                if hit {
                    Entity::lemma_id_injective(lifetime.entity_spec()->0, rnc);
                }
            }
            if hit {
                ret = Some(lifetime);
                self.rhythm.set(i, (d, Lifetime::AutomaticRest));
            }
            i = i + 1;
        }
        proof {
            let c = cleared(old_r, rnc);
            assert(self.rhythm@ =~= c);
            assert forall|j: int| 0 <= j < c.len() implies note_dur(#[trigger] c[j]) == note_dur(old_r[j]) && note_ok(c[j]) by {
                assert(note_ok(old_r[j]));
            }
            lemma_same_lengths(c, old_r, c.len() as int);
            let l = choose|l: int| grid_ok(l) && notes_on(old_r, l);
            assert forall|j: int| 0 <= j < c.len() implies on_grid(#[trigger] note_dur(c[j]), l) by {
                assert(note_dur(c[j]) == note_dur(old_r[j]));
                assert(on_grid(note_dur(old_r[j]), l));
            }
            assert(grid_ok(l) && notes_on(self.rhythm@, l));
        }
        self.simplify();
        let ghost mid = self.rhythm@;
        self.optimize();
        proof {
            lemma_fixed_empty(mid);
            lemma_fixed_empty(self.rhythm@);
            if mid.len() > 0 {
                let (tks, b) = choose|tks: Seq<Rational>, b: Spelling| kinds_of(mid, tks) && b.done == self.rhythm@ && #[trigger] best_spelling(mid, self.metre_spec(), tks, b);
                assert(best_spelling(mid, self.metre_spec(), tks, b));
            }
        }
        ret
    }

    /// How many automatic entities the bar wants: one per automatic rest, or one for a whole
    /// rest.
    fn target_managed_count(&self) -> (r: usize)
        requires
            self.wf(),
        ensures
            r == (if self.rhythm_spec().len() == 0 { 1 } else { auto_count(self.rhythm_spec(), self.rhythm_spec().len() as int) }),
    {
        if self.whole_rest() {
            return 1;
        }
        let mut count: usize = 0;
        let mut i: usize = 0;
        while i < self.rhythm.len()
            invariant
                i <= self.rhythm_spec().len(),
                count == auto_count(self.rhythm_spec(), i as int),
            decreases self.rhythm_spec().len() - i,
        {
            proof {
                lemma_count_bounds(self.rhythm_spec(), i as int);
            }
            if self.rhythm[i].1.is_automatic() {
                count = count + 1;
            }
            i = i + 1;
        }
        count
    }
}

impl Bar {
    /// How many managed entities the bar wants: one per automatic rest, or one for a whole
    /// rest.
    pub open spec fn wanted_managed(&self) -> int {
        if self.rhythm_spec().len() == 0 {
            1
        } else {
            auto_count(self.rhythm_spec(), self.rhythm_spec().len() as int)
        }
    }

    /// Creates a managed entity exactly when the bar has fewer managed entities than it wants
    /// (`managed().len() < wanted_managed()`), for the first automatic rest (or the whole rest)
    /// without one, and returns that rest's duration and the entity.  With as many or more,
    /// nothing is created, so calling this until it returns `None` gives every automatic rest
    /// its entity.
    pub fn push_managed_entity(&mut self, entities: &mut EntitiesRes) -> (r: Option<(Duration, Entity)>)
        requires
            old(self).wf(),
            old(entities).next_spec() < usize::MAX,
        ensures
            (r is Some) == (old(self).managed_spec().len() < old(self).wanted_managed()),
            final(self).wf(),
            final(self).metre_spec() == old(self).metre_spec(),
            final(self).rhythm_spec() == old(self).rhythm_spec(),
            match r {
                Some((d, e)) => {
                    &&& e.id_spec() == old(entities).next_spec()
                    &&& final(entities).next_spec() == old(entities).next_spec() + 1
                    &&& final(self).managed_spec() == old(self).managed_spec().push(e)
                    &&& if old(self).rhythm_spec().len() == 0 {
                        &&& old(self).managed_spec().len() == 0
                        &&& d.is_whole_rest()
                        &&& d.display_q() == old(self).bar_q()
                        &&& d.tuplet_q() == q_int(1)
                    } else {
                        exists|j: int|
                            0 <= j < old(self).rhythm_spec().len() && (#[trigger] old(self).rhythm_spec()[j]).1 is AutomaticRest
                                && auto_count(old(self).rhythm_spec(), j) == old(self).managed_spec().len()
                                && d == old(self).rhythm_spec()[j].0
                    }
                },
                None => {
                    &&& *final(entities) == *old(entities)
                    &&& final(self).managed_spec() == old(self).managed_spec()
                },
            },
            r is Some <==> (if old(self).rhythm_spec().len() == 0 {
                old(self).managed_spec().len() == 0
            } else {
                auto_count(old(self).rhythm_spec(), old(self).rhythm_spec().len() as int) > old(self).managed_spec().len()
            }),
    {
        let ghost s = self.rhythm@;
        let mut managed_idx = self.managed.len();
        proof {
            lemma_count_bounds(s, s.len() as int);
        }
        if self.whole_rest() && managed_idx == 0 {
            let entity = entities.create();
            self.managed.push(entity);
            let d = Duration::new_whole_rest(self.metre.duration());
            return Some((d, entity));
        }
        let mut i: usize = 0;
        while i < self.rhythm.len()
            invariant
                self.rhythm@ == s,
                self.managed_spec() == old(self).managed_spec(),
                self.metre_spec() == old(self).metre_spec(),
                old(self).wf(),
                *entities == *old(entities),
                old(entities).next_spec() < usize::MAX,
                s == old(self).rhythm_spec(),
                i <= s.len(),
                managed_idx + auto_count(s, i as int) == old(self).managed_spec().len(),
            decreases s.len() - i,
        {
            if self.rhythm[i].1.is_automatic() {
                if managed_idx == 0 {
                    let entity = entities.create();
                    self.managed.push(entity);
                    proof {
                        lemma_auto_count_mono(s, i + 1, s.len() as int);
                        assert(auto_count(s, i + 1) == auto_count(s, i as int) + 1);
                    }
                    return Some((self.rhythm[i].0, entity));
                }
                managed_idx = managed_idx - 1;
            }
            i = i + 1;
        }
        None
    }

    /// Removes the last managed entity and returns it exactly when the bar has more managed
    /// entities than it wants (`wanted_managed() < managed().len()`).  With as many or fewer,
    /// nothing is removed, so calling this until it returns `None` leaves one per automatic
    /// rest.
    pub fn pop_managed_entity(&mut self) -> (r: Option<Entity>)
        requires
            old(self).wf(),
        ensures
            (r is Some) == (old(self).wanted_managed() < old(self).managed_spec().len()),
            final(self).wf(),
            final(self).metre_spec() == old(self).metre_spec(),
            final(self).rhythm_spec() == old(self).rhythm_spec(),
            (if old(self).rhythm_spec().len() == 0 { 1 } else { auto_count(old(self).rhythm_spec(), old(self).rhythm_spec().len() as int) }) < old(self).managed_spec().len() ==> {
                &&& r == Some(old(self).managed_spec().last())
                &&& final(self).managed_spec() == old(self).managed_spec().drop_last()
            },
            !((if old(self).rhythm_spec().len() == 0 { 1 } else { auto_count(old(self).rhythm_spec(), old(self).rhythm_spec().len() as int) }) < old(self).managed_spec().len()) ==> {
                &&& r is None
                &&& final(self).managed_spec() == old(self).managed_spec()
            },
    {
        if self.target_managed_count() < self.managed.len() {
            return self.managed.pop();
        }
        None
    }

    /// The rests, notes and chords of the bar: duration, start time, entity (an automatic
    /// entity, in order, for each note without an entity of its own) and whether it is an
    /// automatic rest.  A whole rest gives a single entry.  The bar holds an automatic entity
    /// for each rest without an entity of its own (see `push_managed_entity`).
    pub fn children(&self) -> (r: Vec<(Duration, Rational, Entity, bool)>)
        requires
            self.wf(),
            self.managed_spec().len() >= (if self.rhythm_spec().len() == 0 { 1 } else { unowned_count(self.rhythm_spec(), self.rhythm_spec().len() as int) }),
        ensures
            self.rhythm_spec().len() == 0 ==> {
                &&& r@.len() == 1
                &&& r@[0].0.is_whole_rest()
                &&& r@[0].0.display_q() == self.bar_q()
                &&& r@[0].0.tuplet_q() == q_int(1)
                &&& r@[0].1@ == q_int(0)
                &&& r@[0].2 == self.managed_spec()[0]
                &&& r@[0].3
            },
            self.rhythm_spec().len() > 0 ==> {
                &&& r@.len() == self.rhythm_spec().len()
                &&& forall|i: int| 0 <= i < r@.len() ==> {
                    &&& (#[trigger] r@[i]).0 == self.rhythm_spec()[i].0
                    &&& r@[i].1.wf()
                    &&& r@[i].1@ == start_of(self.rhythm_spec(), i)
                    &&& r@[i].2 == match self.rhythm_spec()[i].1.entity_spec() {
                        Some(e) => e,
                        None => self.managed_spec()[unowned_count(self.rhythm_spec(), i)],
                    }
                    &&& r@[i].3 == self.rhythm_spec()[i].1 is AutomaticRest
                }
            },
    {
        if self.whole_rest() {
            let mut v: Vec<(Duration, Rational, Entity, bool)> = Vec::new();
            v.push((Duration::new_whole_rest(self.metre.duration()), Rational::zero(), self.managed[0], true));
            return v;
        }
        let ghost s = self.rhythm@;
        let ghost l = choose|l: int| grid_ok(l) && notes_on(s, l);
        let g = grid_of(&self.rhythm, 32, Ghost(l));
        let ghost m = self.metre_spec();
        let ghost nseg = m.segments().len() as int;
        proof {
            lemma_grid_scale(g as int);
            lemma_div_ticks(m, g as int, nseg, nseg);
            lemma_zero_tick(g as int);
            lemma_tsum(s, g as int);
            lemma_ticks(tsum(s, g as int), div_tick(m, nseg, g as int), g as int);
        }
        let mut v: Vec<(Duration, Rational, Entity, bool)> = Vec::new();
        let mut next_managed: usize = 0;
        let mut start: i64 = 0;
        let mut i: usize = 0;
        while i < self.rhythm.len()
            invariant
                self.wf(),
                self.rhythm@ == s,
                s.len() > 0,
                grid_ok(g as int),
                notes_on(s, g as int),
                tsum(s, g as int) <= 0x4000_0000,
                self.managed_spec().len() >= unowned_count(s, s.len() as int),
                i <= s.len(),
                next_managed == unowned_count(s, i as int),
                start == tsum(s.subrange(0, i as int), g as int),
                v@.len() == i,
                forall|j: int| 0 <= j < i ==> {
                    &&& (#[trigger] v@[j]).0 == s[j].0
                    &&& v@[j].1.wf()
                    &&& v@[j].1@ == start_of(s, j)
                    &&& v@[j].2 == match s[j].1.entity_spec() {
                        Some(e) => e,
                        None => self.managed_spec()[unowned_count(s, j)],
                    }
                    &&& v@[j].3 == s[j].1 is AutomaticRest
                },
            decreases s.len() - i,
        {
            let (rhy, entity) = self.rhythm[i];
            proof {
                lemma_tsum_prefix(s, g as int, i as int);
                lemma_start_sub(s, g as int, i as int);
                lemma_unowned_mono(s, i + 1, s.len() as int);
                lemma_count_bounds(s, i as int);
                assert(note_ok(s[i as int]));
                assert(on_grid(note_dur(s[i as int]), g as int));
            }
            let e = match entity.to_option() {
                Some(e) => e,
                None => {
                    let m = self.managed[next_managed];
                    next_managed = next_managed + 1;
                    m
                },
            };
            let start_r = rational_of(start, g);
            v.push((rhy, start_r, e, entity.is_automatic()));
            let d = ticks_of(rhy.duration(), g);
            start = start + d;
            i = i + 1;
        }
        v
    }
}

impl Bar {
    /// Splits the automatic rests so that they show the metre.  A best-first search over ways of
    /// spelling them: each rest is cut into a whole number of steps of the finest grid the bar
    /// needs, drawn in one of the bar's tuplet ratios; the queue gives up its greatest spelling
    /// first in the order score, time reached, notes to spell, notes spelled (`spell_gt`), and
    /// the first complete spelling taken off it wins (`search`).  Notes that are not automatic
    /// rests keep their place.
    fn optimize(&mut self)
        requires
            old(self).wf(),
        ensures
            final(self).wf(),
            final(self).metre_spec() == old(self).metre_spec(),
            final(self).managed_spec() == old(self).managed_spec(),
            fixed(final(self).rhythm_spec()) == fixed(old(self).rhythm_spec()),
            (final(self).rhythm_spec().len() == 0) == (old(self).rhythm_spec().len() == 0),
            old(self).rhythm_spec().len() > 0 ==> exists|tks: Seq<Rational>, b: Spelling|
                kinds_of(old(self).rhythm_spec(), tks) && b.done == final(self).rhythm_spec()
                    && #[trigger] best_spelling(old(self).rhythm_spec(), old(self).metre_spec(), tks, b),
    {
        if self.rhythm.len() == 0 {
            return;
        }
        let ghost l = choose|l: int| grid_ok(l) && notes_on(self.rhythm@, l);
        let ghost old_r = self.rhythm@;
        let ghost m = self.metre_spec();
        let ghost nseg = m.segments().len() as int;
        let l0 = denom_lcm(&self.rhythm, 1, Ghost(l));
        let ml = self.metre.lcm();
        proof {
            lemma_divides_trans(ml as int, 32, l);
        }
        let big_l = crate::rational::i64_lcm(l0, ml, Ghost(l));
        let g = crate::rational::i64_lcm(big_l, 32, Ghost(l));
        proof {
            crate::arith::lemma_lcm(l0 as nat, ml as nat, l);
            crate::arith::lemma_lcm(big_l as nat, 32, l);
            assert(grid_ok(g as int));
            vstd::arithmetic::div_mod::lemma_mod_is_zero(g as nat, big_l as nat);
        }
        let k = g / big_l;
        let ghost gi = g as int;
        proof {
            vstd::arithmetic::div_mod::lemma_fundamental_div_mod(gi, big_l as int);
            assert(k >= 1) by (nonlinear_arith)
                requires
                    gi == big_l * k + gi % (big_l as int),
                    gi % (big_l as int) == 0,
                    gi > 0,
                    big_l > 0,
            ;
            lemma_grid_scale(gi);
            lemma_div_ticks(m, gi, 0, nseg);
            lemma_div_ticks(m, gi, nseg, nseg);
            lemma_from_tick(div_tick(m, nseg, gi), gi);
            assert forall|i: int| 0 <= i < old_r.len() implies on_grid(#[trigger] note_dur(old_r[i]), gi) && tick(note_dur(old_r[i]), gi) % (k as int) == 0 by {
                assert(on_grid(note_dur(old_r[i]), l0 as int));
                lemma_divides_trans(note_dur(old_r[i]).d, l0 as int, big_l as int);
                lemma_tick_multiple(note_dur(old_r[i]), big_l as int, gi);
            }
            assert forall|j: int| 0 <= j < nseg implies k <= beat_t(#[trigger] m.segments()[j], gi) by {
                let seg = m.segments()[j];
                assert(seg.wf());
                let bt = seg.ticks() / seg.subdivisions_spec();
                lemma_beat_lcm_divides(m.segments(), nseg, j);
                lemma_from_tick(bt, 32);
                let bq = from_tick(bt, 32);
                lemma_divides_trans(bq.d, ml as int, big_l as int);
                lemma_tick_multiple(bq, big_l as int, gi);
                lemma_refine32(bt, gi);
                vstd::arithmetic::div_mod::lemma_fundamental_div_mod(seg.ticks(), seg.subdivisions_spec());
                assert(bt >= 1) by (nonlinear_arith)
                    requires
                        seg.ticks() == seg.subdivisions_spec() * bt + seg.ticks() % seg.subdivisions_spec(),
                        seg.ticks() % seg.subdivisions_spec() == 0,
                        seg.ticks() >= 1,
                        seg.subdivisions_spec() >= 1,
                ;
                assert(bt * (gi / 32) >= 1) by (nonlinear_arith)
                    requires
                        bt >= 1,
                        gi / 32 >= 1,
                ;
                vstd::arithmetic::div_mod::lemma_mod_is_zero((bt * (gi / 32)) as nat, k as nat);
            }
            lemma_tsum(old_r, gi);
            lemma_ticks(tsum(old_r, gi), div_tick(m, nseg, gi), gi);
        }
        let bar_t = ticks_of(self.metre.duration(), g);
        let tks = tuplet_kinds(&self.rhythm);
        let todo_ticks = ticks_list(&self.rhythm, g, Ghost(bar_t as int));
        proof {
            assert(bar_t * tks@.len() >= 0) by (nonlinear_arith)
                requires
                    bar_t >= 0,
            ;
        }
        let ghost base: nat = (bar_t * tks@.len() + 1) as nat;
        let done = respell(&self.metre, &self.rhythm, g, k, bar_t, &tks, todo_ticks, Ghost(base));
        proof {
            assert(l0 == crate::notes::denoms_lcm(old_r, 1, old_r.len() as int));
            assert(big_l == spell_lcm(old_r, m));
            assert(g == spell_grid(old_r, m));
            assert(k == spell_grid(old_r, m) / (spell_lcm(old_r, m) as int));
            let (b, n) = choose|b: Spelling, n: nat|
                b.done == done@ && b.todo.len() == 0 && #[trigger] reach(m, gi, k as int, tks@, start_spelling(old_r), b, n)
                    && (forall|c: Spelling, n2: nat|
                    c.todo.len() == 0 && #[trigger] reach(m, gi, k as int, tks@, start_spelling(old_r), c, n2)
                        ==> c.score <= b.score) && exists|f: nat|
                    search(m, gi, k as int, tks@, seq![start_spelling(old_r)], f) == Some(b);
            let f = choose|f: nat| search(m, gi, k as int, tks@, seq![start_spelling(old_r)], f) == Some(b);
            assert(search(m, gi, k as int, tks@, seq![start_spelling(old_r)], f) == Some(b));
            assert(best_spelling(old_r, m, tks@, b));
            assert(kinds_of(old_r, tks@));
        }
        proof {
            lemma_tsum(done@, gi);
            lemma_ticks(tsum(done@, gi), div_tick(m, nseg, gi), gi);
            lemma_div_ticks(m, gi, nseg, nseg);
        }
        self.rhythm = done;
        proof {
            assert(grid_ok(gi) && notes_on(self.rhythm@, gi));
            if self.rhythm@.len() == 0 {
                assert(tsum(self.rhythm@, gi) == 0);
            }
        }
    }
}

} // verus!
