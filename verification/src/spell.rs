//! Spelling automatic rests: a best-first search over the ways of cutting them into drawable
//! rests that show the metre.
use crate::arith::{Q, from_tick, lemma_from_tick, on_grid, q_int, q_mul, tick};
use crate::duration::{display_base, dots_search, pow2q};
use crate::notes::{Note, copy_vec, div_tick, fixed, grid_ok, lemma_div_ticks, lemma_division_found, lemma_fixed_replace, lemma_grid_scale, lemma_notes_concat, lemma_refine32, lemma_tsum, lemma_tsum_concat, lemma_tsum_front, lemma_tsum_prefix, lemma_tuplet_fits, note_dur, note_ok, notes_compare, notes_ok, notes_order, lemma_notes_order, notes_on, rational_of, tail_vec, ticks_of, tsum, tuplet_kind_ok, tuplet_rest};
use crate::duration::Duration;
use crate::lifetime::Lifetime;
use crate::metre::Metre;
use crate::rational::Rational;
use vstd::prelude::*;

verus! {

/// A partial spelling of a bar's rests: the score so far (in hundredths of a point, higher is
/// better), the time reached, the notes still to spell and the notes spelled, with the played
/// length of each note in steps of the search grid.
struct Partial {
    score: i128,
    done_time: i64,
    todo: Vec<Note>,
    todo_ticks: Vec<i64>,
    done: Vec<Note>,
    done_ticks: Vec<i64>,
}

/// `t` lists the step counts of the notes of `s`.
pub open spec fn ticks_match(s: Seq<Note>, t: Seq<i64>, g: int) -> bool {
    s.len() == t.len() && forall|j: int| 0 <= j < s.len() ==> #[trigger] t[j] == tick(note_dur(s[j]), g)
}

/// A partial spelling of `rhythm` on grid `g`, in multiples of `k` steps where still to spell,
/// covering `bar_t` steps, having lost at most `dmax` per spelled note.
spec fn partial_ok(p: Partial, rhythm: Seq<Note>, g: int, k: int, bar_t: int, dmax: int) -> bool {
    &&& ticks_match(p.todo@, p.todo_ticks@, g)
    &&& ticks_match(p.done@, p.done_ticks@, g)
    &&& notes_ok(p.done@)
    &&& notes_ok(p.todo@)
    &&& notes_on(p.done@, g)
    &&& notes_on(p.todo@, g)
    &&& forall|j: int| 0 <= j < p.todo@.len() ==> (#[trigger] p.todo_ticks@[j] as int) % k == 0
    &&& tsum(p.done@, g) == p.done_time
    &&& tsum(p.done@ + p.todo@, g) == bar_t
    &&& fixed(p.done@ + p.todo@) == fixed(rhythm)
    &&& -(dmax * p.done@.len()) <= p.score <= 0
}

/// Work left in a partial spelling: one per note, plus the steps of each automatic rest.
spec fn pmeasure(todo: Seq<Note>, tt: Seq<i64>) -> nat
    decreases todo.len(),
{
    if todo.len() == 0 || tt.len() == 0 {
        0
    } else {
        (1 + (if todo[0].1 is AutomaticRest && tt[0] >= 0 { tt[0] as nat } else { 0 }) + pmeasure(
            todo.drop_first(),
            tt.drop_first(),
        )) as nat
    }
}

/// `b` to the power `e`.
pub(crate) open spec fn wpow(b: nat, e: nat) -> nat
    decreases e,
{
    if e == 0 {
        1
    } else {
        b * wpow(b, (e - 1) as nat)
    }
}

/// Powers of a base of at least one are positive and grow with the exponent.
pub(crate) proof fn lemma_wpow(b: nat, e1: nat, e2: nat)
    requires
        b >= 1,
        e1 <= e2,
    ensures
        1 <= wpow(b, e1) <= wpow(b, e2),
    decreases e2,
{
    if e2 > 0 {
        if e1 < e2 {
            lemma_wpow(b, e1, (e2 - 1) as nat);
        } else {
            lemma_wpow(b, (e2 - 1) as nat, (e2 - 1) as nat);
        }
        let w = wpow(b, (e2 - 1) as nat);
        assert(w <= b * w) by (nonlinear_arith)
            requires
                b >= 1,
                w >= 1,
        ;
    }
}

/// Work left in all partial spellings: a power of `b` per spelling.
spec fn hmeasure(h: Seq<Partial>, b: nat) -> nat
    decreases h.len(),
{
    if h.len() == 0 {
        0
    } else {
        hmeasure(h.drop_last(), b) + wpow(b, pmeasure(h.last().todo@, h.last().todo_ticks@))
    }
}

proof fn lemma_hmeasure_concat(a: Seq<Partial>, c: Seq<Partial>, b: nat)
    ensures
        hmeasure(a + c, b) == hmeasure(a, b) + hmeasure(c, b),
    decreases c.len(),
{
    if c.len() == 0 {
        assert(a + c =~= a);
    } else {
        lemma_hmeasure_concat(a, c.drop_last(), b);
        assert((a + c).drop_last() =~= a + c.drop_last());
        assert((a + c).last() == c.last());
    }
}

/// Removing a spelling takes away its power.
proof fn lemma_hmeasure_remove(h: Seq<Partial>, i: int, b: nat)
    requires
        0 <= i < h.len(),
    ensures
        hmeasure(h.remove(i), b) + wpow(b, pmeasure(h[i].todo@, h[i].todo_ticks@)) == hmeasure(h, b),
{
    let a = h.subrange(0, i);
    let c = h.subrange(i + 1, h.len() as int);
    assert(h =~= a + seq![h[i]] + c);
    assert(h.remove(i) =~= a + c);
    lemma_hmeasure_concat(a + seq![h[i]], c, b);
    lemma_hmeasure_concat(a, seq![h[i]], b);
    lemma_hmeasure_concat(a, c, b);
    assert(seq![h[i]].drop_last() =~= Seq::<Partial>::empty());
    assert(hmeasure(seq![h[i]], b) == hmeasure(Seq::<Partial>::empty(), b) + wpow(b, pmeasure(h[i].todo@, h[i].todo_ticks@)));
}

/// Adding a spelling adds its power.
proof fn lemma_hmeasure_push(h: Seq<Partial>, x: Partial, b: nat)
    ensures
        hmeasure(h.push(x), b) == hmeasure(h, b) + wpow(b, pmeasure(x.todo@, x.todo_ticks@)),
{
    assert(h.push(x).drop_last() =~= h);
}

/// `a` comes after `b` in the order score, time reached, notes to spell, notes spelled: the
/// order in which the search takes spellings off its queue, greatest first.
pub(crate) open spec fn spell_gt(a: Spelling, b: Spelling) -> bool {
    if a.score != b.score {
        a.score > b.score
    } else if a.done_time != b.done_time {
        a.done_time > b.done_time
    } else if notes_order(a.todo, b.todo) != 0 {
        notes_order(a.todo, b.todo) > 0
    } else {
        notes_order(a.done, b.done) > 0
    }
}

/// `spell_gt` on partial spellings.
spec fn partial_gt(a: Partial, b: Partial) -> bool {
    spell_gt(sp(a), sp(b))
}

/// The order of partial spellings is irreflexive and transitive.
proof fn lemma_partial_gt(a: Partial, b: Partial, c: Partial)
    requires
        notes_ok(a.todo@) && notes_ok(a.done@),
        notes_ok(b.todo@) && notes_ok(b.done@),
        notes_ok(c.todo@) && notes_ok(c.done@),
    ensures
        !partial_gt(a, a),
        partial_gt(a, b) && partial_gt(b, c) ==> partial_gt(a, c),
        !partial_gt(a, b) && !partial_gt(b, a) ==> sp(a) == sp(b),
{
    lemma_notes_order(a.todo@, b.todo@, c.todo@);
    lemma_notes_order(a.done@, b.done@, c.done@);
    lemma_notes_order(a.todo@, a.todo@, a.todo@);
    lemma_notes_order(a.done@, a.done@, a.done@);
    lemma_notes_order(a.todo@, c.todo@, b.todo@);
    lemma_notes_order(a.done@, c.done@, b.done@);
    lemma_notes_order(b.todo@, c.todo@, a.todo@);
    lemma_notes_order(b.done@, c.done@, a.done@);
}

/// Whether `a` comes after `b` in the order score, time reached, notes to spell, notes spelled.
fn partial_greater(a: &Partial, b: &Partial) -> (r: bool)
    requires
        notes_ok(a.todo@),
        notes_ok(a.done@),
        notes_ok(b.todo@),
        notes_ok(b.done@),
    ensures
        r == partial_gt(*a, *b),
{
    if a.score != b.score {
        return a.score > b.score;
    }
    if a.done_time != b.done_time {
        return a.done_time > b.done_time;
    }
    let c = notes_compare(&a.todo, &b.todo);
    if c != 0 {
        return c > 0;
    }
    notes_compare(&a.done, &b.done) > 0
}

/// The index of a greatest partial spelling (the one a max-heap would pop).
fn best_index(h: &Vec<Partial>) -> (r: usize)
    requires
        h@.len() >= 1,
        forall|i: int| 0 <= i < h@.len() ==> notes_ok((#[trigger] h@[i]).todo@) && notes_ok(h@[i].done@),
    ensures
        r < h@.len(),
        forall|j: int| 0 <= j < h@.len() ==> !partial_gt(#[trigger] h@[j], h@[r as int]),
        forall|j: int| 0 <= j < r ==> partial_gt(h@[r as int], #[trigger] h@[j]),
{
    let mut best: usize = 0;
    let mut i: usize = 1;
    proof {
        lemma_partial_gt(h@[0], h@[0], h@[0]);
    }
    while i < h.len()
        invariant
            1 <= i <= h@.len(),
            best < i,
            forall|j: int| 0 <= j < h@.len() ==> notes_ok((#[trigger] h@[j]).todo@) && notes_ok(h@[j].done@),
            forall|j: int| 0 <= j < i ==> !partial_gt(#[trigger] h@[j], h@[best as int]),
            forall|j: int| 0 <= j < best ==> partial_gt(h@[best as int], #[trigger] h@[j]),
        decreases h@.len() - i,
    {
        proof {
            assert(notes_ok(h@[i as int].todo@));
            assert(notes_ok(h@[best as int].todo@));
        }
        if partial_greater(&h[i], &h[best]) {
            proof {
                assert forall|j: int| 0 <= j <= i implies !partial_gt(#[trigger] h@[j], h@[i as int]) by {
                    assert(notes_ok(h@[j].todo@) && notes_ok(h@[j].done@));
                    lemma_partial_gt(h@[j], h@[i as int], h@[best as int]);
                }
                assert forall|j: int| 0 <= j < i implies partial_gt(h@[i as int], #[trigger] h@[j]) by {
                    assert(notes_ok(h@[j].todo@) && notes_ok(h@[j].done@));
                    lemma_partial_gt(h@[i as int], h@[best as int], h@[j]);
                    lemma_partial_gt(h@[j], h@[best as int], h@[i as int]);
                    if j != best && !partial_gt(h@[best as int], h@[j]) {
                        assert(sp(h@[best as int]) == sp(h@[j]));
                    }
                }
            }
            best = i;
        }
        i = i + 1;
    }
    best
}

/// The number of dots a rest of `x` whole notes (other than a whole rest) is drawn with.
pub(crate) open spec fn dots_of(x: Q) -> Option<nat> {
    match display_base(x) {
        Some(v) => dots_search(pow2q(v.log2_spec()), x, 0),
        None => None,
    }
}

/// What step count `p` adds to the stress of step `i` of a division of `div_parts` steps
/// when it stresses it: groups of three give the first (more in compound time), middle and
/// last beat slightly different weights.
pub(crate) open spec fn power_add(div_parts: int, p: int, i: int, compound: bool, exposed_first: bool, tk_one: bool) -> int {
    if div_parts / p == 3 {
        let r = (i / p) % 3;
        if r == 0 {
            if compound {
                22
            } else {
                21
            }
        } else if r == 1 {
            21
        } else if exposed_first && tk_one {
            20
        } else {
            21
        }
    } else {
        20
    }
}

/// The stress of step `i` from the step counts `1..=pmax`: each count `p` that divides
/// `div_parts` and whose length (`p` times `k` steps of `1 / g`, in tuplet `tk`) is drawn
/// without dots stresses every `p`-th step.
pub(crate) open spec fn power_upto(
    div_parts: int,
    k: int,
    g: int,
    tk: Q,
    compound: bool,
    exposed_first: bool,
    i: int,
    pmax: int,
) -> int
    decreases pmax,
{
    if pmax <= 0 {
        0
    } else {
        power_upto(div_parts, k, g, tk, compound, exposed_first, i, pmax - 1) + if div_parts % pmax
            == 0 && dots_of(q_mul(from_tick(k * pmax, g), tk)) == Some(0nat) && i % pmax == 0 {
            power_add(div_parts, pmax, i, compound, exposed_first, tk == q_int(1))
        } else {
            0
        }
    }
}

/// The stress of each of the `div_parts` steps of a division.
pub(crate) open spec fn power_seq(
    div_parts: int,
    k: int,
    g: int,
    tk: Q,
    compound: bool,
    exposed_first: bool,
) -> Seq<i64> {
    Seq::new(
        div_parts as nat,
        |i: int| power_upto(div_parts, k, g, tk, compound, exposed_first, i, div_parts) as i64,
    )
}

/// How strongly each of the `div_parts` steps of a division is stressed, in twentieths: each
/// step count `p` that divides the division and is drawn without dots stresses every `p`-th
/// step; groups of three give the first (more in compound time), middle and last beat slightly
/// different weights.
pub(crate) fn get_powers(
    div_parts: i64,
    k: i64,
    g: i64,
    tuplet_kind: Rational,
    compound: bool,
    exposed_first: bool,
) -> (powers: Vec<i64>)
    requires
        grid_ok(g as int),
        k >= 1,
        0 < div_parts <= 0x4000_0000,
        k * div_parts <= 0x4000_0000,
        tuplet_kind_ok(tuplet_kind),
    ensures
        powers@ == power_seq(div_parts as int, k as int, g as int, tuplet_kind@, compound, exposed_first),
        powers@.len() == div_parts,
        forall|i: int| 0 <= i < div_parts ==> 0 <= #[trigger] powers@[i] <= 22 * div_parts,
{
    let ghost dp = div_parts as int;
    let ghost tk = tuplet_kind@;
    let mut powers: Vec<i64> = Vec::new();
    let mut i: i64 = 0;
    while i < div_parts
        invariant
            0 <= i <= div_parts,
            powers@.len() == i,
            forall|j: int| 0 <= j < i ==> #[trigger] powers@[j] == 0,
        decreases div_parts - i,
    {
        powers.push(0);
        i = i + 1;
    }
    let mut p: i64 = 1;
    while p <= div_parts
        invariant
            grid_ok(g as int),
            k >= 1,
            0 < div_parts <= 0x4000_0000,
            k * div_parts <= 0x4000_0000,
            tuplet_kind_ok(tuplet_kind),
            dp == div_parts,
            tk == tuplet_kind@,
            1 <= p <= div_parts + 1,
            powers@.len() == div_parts,
            forall|j: int| 0 <= j < div_parts ==> 0 <= #[trigger] powers@[j] <= 22 * (p - 1),
            forall|j: int|
                0 <= j < div_parts ==> #[trigger] powers@[j] == power_upto(dp, k as int, g as int, tk, compound, exposed_first, j, p - 1),
        decreases div_parts + 1 - p,
    {
        let ghost pi = p as int;
        if div_parts % p == 0 {
            proof {
                assert(0 < k * p <= k * div_parts) by (nonlinear_arith)
                    requires
                        k >= 1,
                        1 <= p <= div_parts,
                ;
                lemma_tuplet_fits((k * p) as int, g as int, tuplet_kind@);
            }
            let d = Duration::exact(rational_of(k * p, g).mul(tuplet_kind), Some(tuplet_kind));
            let plain = match d.display_dots() {
                Some(dots) => dots == 0,
                None => false,
            };
            proof {
                assert(plain == (dots_of(q_mul(from_tick(k * pi, g as int), tk)) == Some(0nat)));
            }
            if plain {
                let tk_one = tuplet_kind.is_one();
                let mut i: i64 = 0;
                while i < div_parts
                    invariant
                        1 <= p <= div_parts,
                        pi == p,
                        dp == div_parts,
                        tk == tuplet_kind@,
                        div_parts % p == 0,
                        div_parts <= 0x4000_0000,
                        tuplet_kind_ok(tuplet_kind),
                        tk_one == (tk == q_int(1)),
                        dots_of(q_mul(from_tick(k * pi, g as int), tk)) == Some(0nat),
                        0 <= i <= div_parts,
                        powers@.len() == div_parts,
                        forall|j: int| 0 <= j < div_parts ==> 0 <= #[trigger] powers@[j] <= 22 * (p - 1) + (if j < i { 22int } else { 0 }),
                        forall|j: int|
                            0 <= j < div_parts ==> #[trigger] powers@[j] == power_upto(dp, k as int, g as int, tk, compound, exposed_first, j, if j < i { pi } else { pi - 1 }),
                    decreases div_parts - i,
                {
                    let ghost ii = i as int;
                    let ghost prev = powers@;
                    if i % p == 0 {
                        let add: i64 = if div_parts / p == 3 {
                            let r = (i / p) % 3;
                            if r == 0 {
                                if compound {
                                    22
                                } else {
                                    21
                                }
                            } else if r == 1 {
                                21
                            } else if exposed_first && tk_one {
                                20
                            } else {
                                21
                            }
                        } else {
                            20
                        };
                        proof {
                            assert(22 * (p - 1) + 22 <= 22 * div_parts);
                            assert(add == power_add(dp, pi, ii, compound, exposed_first, tk == q_int(1)));
                        }
                        let v = powers[i as usize] + add;
                        powers.set(i as usize, v);
                    }
                    proof {
                        assert(power_upto(dp, k as int, g as int, tk, compound, exposed_first, ii, pi)
                            == power_upto(dp, k as int, g as int, tk, compound, exposed_first, ii, pi - 1)
                            + if ii % pi == 0 { power_add(dp, pi, ii, compound, exposed_first, tk == q_int(1)) } else { 0 });
                        assert forall|j: int| 0 <= j < div_parts && j != ii implies #[trigger] powers@[j] == prev[j] by {}
                    }
                    i = i + 1;
                }
            } else {
                proof {
                    assert forall|j: int| 0 <= j < div_parts implies #[trigger] powers@[j] == power_upto(dp, k as int, g as int, tk, compound, exposed_first, j, pi) by {
                        assert(power_upto(dp, k as int, g as int, tk, compound, exposed_first, j, pi)
                            == power_upto(dp, k as int, g as int, tk, compound, exposed_first, j, pi - 1));
                    }
                }
            }
        } else {
            proof {
                assert forall|j: int| 0 <= j < div_parts implies #[trigger] powers@[j] == power_upto(dp, k as int, g as int, tk, compound, exposed_first, j, pi) by {
                    assert(power_upto(dp, k as int, g as int, tk, compound, exposed_first, j, pi)
                        == power_upto(dp, k as int, g as int, tk, compound, exposed_first, j, pi - 1));
                }
            }
        }
        p = p + 1;
    }
    proof {
        assert(powers@ =~= power_seq(dp, k as int, g as int, tk, compound, exposed_first));
    }
    powers
}

/// The step at which note `i` of `s` starts.
pub(crate) open spec fn t_at(s: Seq<Note>, g: int, i: int) -> int {
    tsum(s.subrange(0, i), g)
}

/// Some note of `s` starts at or after `ds`, before `ds + sub_t`, and ends after it: the
/// first beat of the division starting at `ds` is covered.
pub(crate) open spec fn covers_first_beat(s: Seq<Note>, g: int, ds: int, sub_t: int) -> bool {
    exists|i: int|
        0 <= i < s.len() && ds <= #[trigger] t_at(s, g, i) && t_at(s, g, i) < ds + sub_t && ds + sub_t
            < t_at(s, g, i + 1)
}

/// Some automatic rest of `s` starts at `ds` and ends at `e`.
pub(crate) open spec fn rest_spans(s: Seq<Note>, g: int, ds: int, e: int) -> bool {
    exists|i: int|
        0 <= i < s.len() && #[trigger] t_at(s, g, i) == ds && t_at(s, g, i + 1) == e
            && s[i].1 is AutomaticRest
}

/// Whether the spelled notes cover the first beat of the division, and whether an automatic
/// rest starting at the division ends exactly on its first or its second beat.
pub(crate) fn beat_flags(
    output: &Vec<Note>,
    out_t: &Vec<i64>,
    g: i64,
    ds: i64,
    seg_t: i64,
    sub_t: i64,
    subs: i64,
) -> (r: (bool, bool, bool))
    requires
        g > 0,
        ticks_match(output@, out_t@, g as int),
        notes_ok(output@),
        notes_on(output@, g as int),
        tsum(output@, g as int) <= 0x4000_0000,
        0 <= ds,
        1 <= subs <= 4,
        0 <= sub_t,
        sub_t * subs == seg_t,
        ds + seg_t <= 0x4000_0000,
    ensures
        r.0 == covers_first_beat(output@, g as int, ds as int, sub_t as int),
        r.1 == rest_spans(output@, g as int, ds as int, ds + sub_t),
        r.2 == (subs >= 2 && rest_spans(output@, g as int, ds as int, ds + 2 * sub_t)),
{
    let ghost s = output@;
    let ghost gi = g as int;
    let mut covered_first = false;
    let mut exposed_first = false;
    let mut exposed_second = false;
    let mut t: i64 = 0;
    let mut oi: usize = 0;
    proof {
        assert(output@.subrange(0, 0) =~= Seq::<Note>::empty());
        assert(sub_t <= seg_t) by (nonlinear_arith)
            requires
                sub_t * subs == seg_t,
                subs >= 1,
                sub_t >= 0,
        ;
    }
    while oi < output.len()
        invariant
            s == output@,
            gi == g,
            g > 0,
            ticks_match(output@, out_t@, g as int),
            notes_ok(output@),
            notes_on(output@, g as int),
            tsum(output@, g as int) <= 0x4000_0000,
            0 <= ds,
            1 <= subs <= 4,
            0 <= sub_t <= seg_t,
            sub_t * subs == seg_t,
            ds + seg_t <= 0x4000_0000,
            oi <= output@.len(),
            t == tsum(output@.subrange(0, oi as int), g as int),
            covered_first == exists|i: int|
                0 <= i < oi && ds <= #[trigger] t_at(s, gi, i) && t_at(s, gi, i) < ds + sub_t && ds
                    + sub_t < t_at(s, gi, i + 1),
            exposed_first == exists|i: int|
                0 <= i < oi && #[trigger] t_at(s, gi, i) == ds && t_at(s, gi, i + 1) == ds + sub_t
                    && s[i].1 is AutomaticRest,
            exposed_second == (subs >= 2 && exists|i: int|
                0 <= i < oi && #[trigger] t_at(s, gi, i) == ds && t_at(s, gi, i + 1) == ds + 2
                    * sub_t && s[i].1 is AutomaticRest),
        decreases output@.len() - oi,
    {
        proof {
            lemma_tsum_prefix(output@, g as int, oi as int);
        }
        let t_next = t + out_t[oi];
        let ghost cf0 = covered_first;
        let ghost ef0 = exposed_first;
        let ghost es0 = exposed_second;
        let ghost auto = output@[oi as int].1 is AutomaticRest;
        if t >= ds && t <= ds + seg_t {
            let mut b: i64 = 1;
            while b <= subs
                invariant
                    oi < output@.len(),
                    1 <= b <= subs + 1,
                    1 <= subs <= 4,
                    0 <= sub_t,
                    sub_t * subs == seg_t,
                    0 <= ds,
                    ds + seg_t <= 0x4000_0000,
                    auto == (output@[oi as int].1 is AutomaticRest),
                    covered_first == (cf0 || (b > 1 && t < ds + sub_t && ds + sub_t < t_next)),
                    exposed_first == (ef0 || (b > 1 && !(t < ds + sub_t && ds + sub_t < t_next)
                        && ds + sub_t == t_next && auto && t == ds)),
                    exposed_second == (es0 || (b > 2 && !(t < ds + 2 * sub_t && ds + 2 * sub_t
                        < t_next) && ds + 2 * sub_t == t_next && auto && t == ds)),
                decreases subs + 1 - b,
            {
                proof {
                    assert(sub_t * b <= sub_t * subs) by (nonlinear_arith)
                        requires
                            0 <= sub_t,
                            b <= subs,
                    ;
                }
                let t_beat = sub_t * b + ds;
                proof {
                    if b == 1 {
                        assert(t_beat == ds + sub_t);
                    }
                    if b == 2 {
                        assert(t_beat == ds + 2 * sub_t);
                    }
                }
                if t < t_beat && t_beat < t_next {
                    if b == 1 {
                        covered_first = true;
                    }
                } else if t_beat == t_next && output[oi].1.is_automatic() && t == ds {
                    if b == 1 {
                        exposed_first = true;
                    }
                    if b == 2 {
                        exposed_second = true;
                    }
                }
                b = b + 1;
            }
        }
        proof {
            let oi1 = oi as int;
            assert(t_at(s, gi, oi1) == t);
            assert(t_at(s, gi, oi1 + 1) == t_next);
            if covered_first && !cf0 {
                assert(0 <= oi1 < oi1 + 1 && ds <= t_at(s, gi, oi1) && t_at(s, gi, oi1) < ds + sub_t
                    && ds + sub_t < t_at(s, gi, oi1 + 1));
            }
            if exposed_first && !ef0 {
                assert(t_at(s, gi, oi1) == ds && t_at(s, gi, oi1 + 1) == ds + sub_t && s[oi1].1 is AutomaticRest);
            }
            if exposed_second && !es0 {
                assert(t_at(s, gi, oi1) == ds && t_at(s, gi, oi1 + 1) == ds + 2 * sub_t && s[oi1].1 is AutomaticRest);
            }
        }
        t = t_next;
        oi = oi + 1;
    }
    (covered_first, exposed_first, exposed_second)
}

/// The penalty (in hundredths) for the steps strictly between `s` and `q` that are at least as
/// strong as step `s`: 20 points and the difference in strength, each.
pub(crate) open spec fn stress_upto(p: Seq<i64>, s: int, q: int) -> int
    decreases q - s,
{
    if q <= s + 1 {
        0
    } else {
        stress_upto(p, s, q - 1) + if p[q - 1] >= p[s] {
            (20 + p[q - 1] - p[s]) * 10
        } else {
            0
        }
    }
}

/// Penalty (in hundredths) for a rest from step `start_q` to `end_q` of a division that hides
/// a step at least as strong as the one it starts on.
pub(crate) fn stress_penalty(powers: &Vec<i64>, start_q: i64, end_q: i64) -> (pen: i128)
    requires
        0 <= start_q <= 0x4000_0000,
        end_q <= powers@.len(),
        powers@.len() <= 0x4000_0000,
        forall|i: int| 0 <= i < powers@.len() ==> 0 <= #[trigger] powers@[i] <= 22 * powers@.len(),
    ensures
        pen == stress_upto(powers@, start_q as int, end_q as int),
        0 <= pen <= powers@.len() * ((20 + 22 * powers@.len()) * 10),
{
    let ghost n = powers@.len() as int;
    let ghost step = (20 + 22 * n) * 10;
    let mut pen: i128 = 0;
    let mut qq = start_q + 1;
    while qq < end_q
        invariant
            0 <= start_q,
            end_q <= n,
            n == powers@.len(),
            n <= 0x4000_0000,
            step == (20 + 22 * n) * 10,
            forall|i: int| 0 <= i < n ==> 0 <= #[trigger] powers@[i] <= 22 * n,
            start_q + 1 <= qq,
            qq <= end_q || end_q <= start_q + 1,
            end_q <= start_q + 1 ==> qq == start_q + 1,
            0 <= pen <= (qq - start_q - 1) * step,
            pen == stress_upto(powers@, start_q as int, qq as int),
        decreases end_q - qq,
    {
        let ps = powers[start_q as usize];
        let pq = powers[qq as usize];
        proof {
            assert((qq - start_q - 1) * step + step == (qq - start_q) * step) by (nonlinear_arith);
            assert((qq - start_q) * step <= n * step) by (nonlinear_arith)
                requires
                    qq - start_q <= n,
                    step >= 0,
            ;
            assert(n * step <= 0x4000_0000 * ((20 + 22 * 0x4000_0000) * 10)) by (nonlinear_arith)
                requires
                    n <= 0x4000_0000,
                    step == (20 + 22 * n) * 10,
                    n >= 0,
            ;
        }
        if pq >= ps {
            pen = pen + ((20 + pq - ps) * 10) as i128;
        }
        qq = qq + 1;
    }
    proof {
        if end_q > start_q + 1 {
            assert(qq == end_q);
            assert((end_q - start_q - 1) * step <= n * step) by (nonlinear_arith)
                requires
                    end_q - start_q - 1 <= n,
                    step >= 0,
            ;
            assert(pen <= n * step);
        } else {
            assert((qq - start_q - 1) * step == 0) by (nonlinear_arith)
                requires
                    qq - start_q - 1 == 0,
            ;
            assert(0 <= n * step) by (nonlinear_arith)
                requires
                    n >= 0,
                    step >= 0,
            ;
        }
        assert(n * step == powers@.len() * ((20 + 22 * powers@.len()) * 10));
    }
    pen
}

/// The most that spelling one rest can cost, in hundredths.
pub(crate) open spec fn dmax_of(bar_t: int) -> int {
    1_000_199 + bar_t * ((20 + 22 * bar_t) * 10)
}

/// Steps of `1 / g` in a beat of segment `s`.
pub open spec fn beat_t(s: crate::metre::MetreSegment, g: int) -> int {
    (s.ticks() / s.subdivisions_spec()) * (g / 32)
}

/// A partial spelling as values: score, time reached, notes still to spell, notes spelled.
pub(crate) struct Spelling {
    pub score: int,
    pub done_time: int,
    pub todo: Seq<Note>,
    pub done: Seq<Note>,
}

/// The values of a partial spelling.
spec fn sp(p: Partial) -> Spelling {
    Spelling { score: p.score as int, done_time: p.done_time as int, todo: p.todo@, done: p.done@ }
}

/// `n` is an automatic rest drawn as `x` steps of `1 / g` in tuplet `tk`.
pub(crate) open spec fn rest_note(n: Note, x: int, g: int, tk: Q) -> bool {
    &&& n.0.wf()
    &&& n.1 is AutomaticRest
    &&& n.0.display_q() == q_mul(from_tick(x, g), tk)
    &&& n.0.tuplet_q() == tk
    &&& !n.0.is_whole_rest()
}

/// The division in which step `x` of `1 / g` lies.
pub(crate) open spec fn div_of(m: Metre, x: int, g: int) -> int {
    match crate::metre::division_index(m.segments(), from_tick(x, g), 0) {
        Some(j) => j,
        None => m.segments().len() - 1,
    }
}

/// Starting the automatic rest that `p` has still to spell with `dur` steps in tuplet `tk`
/// is not refused: a dotted rest longer than a beat of a simple-time division is.
pub(crate) open spec fn child_allowed(m: Metre, g: int, p: Spelling, dur: int, tk: Q) -> bool {
    let seg = m.segments()[div_of(m, p.done_time, g)];
    let sub_t = tick(from_tick(seg.ticks() / seg.subdivisions_spec(), crate::metre::metre_grid()), g);
    !((dots_of(q_mul(from_tick(dur, g), tk)) matches Some(d) && d > 0)
        && crate::metre::MetreSegment::subdivision_of(seg.subdivisions_spec())
        == crate::metre::Subdivision::Simple && dur > sub_t)
}

/// `c` is what `p` becomes when the automatic rest it has still to spell starts with a rest
/// of `dur` steps in tuplet `tk`, scored with quantum `k`.
pub(crate) open spec fn child_rel(m: Metre, g: int, k: int, p: Spelling, dur: int, tk: Q, c: Spelling) -> bool {
    let j = div_of(m, p.done_time, g);
    let seg = m.segments()[j];
    let ds = tick(m.start_q(j), g);
    let seg_t = tick(seg.duration_q(), g);
    let subs = seg.subdivisions_spec();
    let sub_t = tick(from_tick(seg.ticks() / subs, crate::metre::metre_grid()), g);
    let ft = tick(note_dur(p.todo[0]), g);
    let cost = cost_of(
        c.done,
        g,
        k,
        p.done_time,
        dur,
        ds,
        seg_t,
        sub_t,
        subs,
        crate::metre::MetreSegment::subdivision_of(subs) == crate::metre::Subdivision::Compound,
        tk,
        crate::duration::printable_q(q_mul(from_tick(dur, g), tk)),
    );
    &&& child_allowed(m, g, p, dur, tk)
    &&& c.done.len() == p.done.len() + 1
    &&& c.done.drop_last() == p.done
    &&& rest_note(c.done.last(), dur, g, tk)
    &&& if ft > dur {
        &&& c.todo.len() == p.todo.len()
        &&& c.todo.drop_first() == p.todo.drop_first()
        &&& rest_note(c.todo[0], ft - dur, g, tk)
    } else {
        c.todo == p.todo.drop_first()
    }
    &&& c.done_time == p.done_time + dur
    &&& 0 <= cost
    &&& c.score == p.score - cost
}

/// `c` follows `p` in the search: `p` passes its first note on if that is not an automatic
/// rest, and otherwise starts that rest with a whole number of quanta `k` and one of the tuplet
/// ratios `tks`.
pub(crate) open spec fn succ(m: Metre, g: int, k: int, tks: Seq<Rational>, p: Spelling, c: Spelling) -> bool {
    &&& p.todo.len() > 0
    &&& if p.todo[0].1 is AutomaticRest {
        exists|dur: int, a: int|
            0 < dur <= tick(note_dur(p.todo[0]), g) && dur % k == 0 && 0 <= a < tks.len()
                && #[trigger] child_rel(m, g, k, p, dur, tks[a]@, c)
    } else {
        c == Spelling {
            score: p.score,
            done_time: p.done_time + tick(note_dur(p.todo[0]), g),
            todo: p.todo.drop_first(),
            done: p.done.push(p.todo[0]),
        }
    }
}

/// What follows `p` when its first note, not an automatic rest, is passed on.
pub(crate) open spec fn pass_on(p: Spelling, g: int) -> Spelling {
    Spelling {
        score: p.score,
        done_time: p.done_time + tick(note_dur(p.todo[0]), g),
        todo: p.todo.drop_first(),
        done: p.done.push(p.todo[0]),
    }
}

/// What follows `p` when its automatic rest starts with `dur` steps in tuplet `tk`.
pub(crate) open spec fn child_of(m: Metre, g: int, k: int, p: Spelling, dur: int, tk: Q) -> Spelling {
    choose|c: Spelling| child_rel(m, g, k, p, dur, tk, c)
}

/// The spellings that follow `p` with a rest of `dur` steps, in the first `j` tuplet ratios of
/// `tks`, in that order (ratios that give a refused rest are left out).
pub(crate) open spec fn kids_tk(m: Metre, g: int, k: int, tks: Seq<Rational>, p: Spelling, dur: int, j: int) -> Seq<Spelling>
    decreases j,
{
    if j <= 0 {
        Seq::empty()
    } else {
        kids_tk(m, g, k, tks, p, dur, j - 1) + if child_allowed(m, g, p, dur, tks[j - 1]@) {
            seq![child_of(m, g, k, p, dur, tks[j - 1]@)]
        } else {
            Seq::empty()
        }
    }
}

/// The spellings that follow `p` with rests of `hi` quanta down to `lo + 1` quanta, longest
/// first.
pub(crate) open spec fn kids_range(m: Metre, g: int, k: int, tks: Seq<Rational>, p: Spelling, hi: int, lo: int) -> Seq<Spelling>
    decreases hi - lo,
{
    if lo >= hi {
        Seq::empty()
    } else {
        kids_range(m, g, k, tks, p, hi, lo + 1) + kids_tk(m, g, k, tks, p, k * (lo + 1), tks.len() as int)
    }
}

/// The spellings the search puts on its queue after taking `p` off it, in order.
pub(crate) open spec fn kids(m: Metre, g: int, k: int, tks: Seq<Rational>, p: Spelling) -> Seq<Spelling> {
    if p.todo[0].1 is AutomaticRest {
        kids_range(m, g, k, tks, p, tick(note_dur(p.todo[0]), g) / k, 0)
    } else {
        seq![pass_on(p, g)]
    }
}

/// The values of a queue of partial spellings.
spec fn views(h: Seq<Partial>) -> Seq<Spelling> {
    h.map_values(|p: Partial| sp(p))
}

/// `c` is reached from `s` in `n` steps of the search.
pub(crate) open spec fn reach(m: Metre, g: int, k: int, tks: Seq<Rational>, s: Spelling, c: Spelling, n: nat) -> bool
    decreases n,
{
    if n == 0 {
        s == c
    } else {
        exists|q: Spelling| reach(m, g, k, tks, s, q, (n - 1) as nat) && #[trigger] succ(m, g, k, tks, q, c)
    }
}

/// A path of the search can be split after its first step.
proof fn lemma_reach_first(m: Metre, g: int, k: int, tks: Seq<Rational>, s: Spelling, c: Spelling, n: nat) -> (q: Spelling)
    requires
        n >= 1,
        reach(m, g, k, tks, s, c, n),
    ensures
        succ(m, g, k, tks, s, q),
        reach(m, g, k, tks, q, c, (n - 1) as nat),
    decreases n,
{
    let q0 = choose|q: Spelling| reach(m, g, k, tks, s, q, (n - 1) as nat) && #[trigger] succ(m, g, k, tks, q, c);
    if n == 1 {
        c
    } else {
        let q = lemma_reach_first(m, g, k, tks, s, q0, (n - 1) as nat);
        assert(reach(m, g, k, tks, q, q0, (n - 2) as nat) && succ(m, g, k, tks, q0, c));
        q
    }
}

/// Scores never grow along the search.
proof fn lemma_reach_score(m: Metre, g: int, k: int, tks: Seq<Rational>, s: Spelling, c: Spelling, n: nat)
    requires
        reach(m, g, k, tks, s, c, n),
    ensures
        c.score <= s.score,
    decreases n,
{
    if n > 0 {
        let q = choose|q: Spelling| reach(m, g, k, tks, s, q, (n - 1) as nat) && #[trigger] succ(m, g, k, tks, q, c);
        lemma_reach_score(m, g, k, tks, s, q, (n - 1) as nat);
        if q.todo[0].1 is AutomaticRest {
            let (d, a) = choose|d: int, a: int|
                0 < d <= tick(note_dur(q.todo[0]), g) && d % k == 0 && 0 <= a < tks.len()
                    && #[trigger] child_rel(m, g, k, q, d, tks[a]@, c);
        }
    }
}

/// Nothing follows a complete spelling.
proof fn lemma_reach_complete(m: Metre, g: int, k: int, tks: Seq<Rational>, s: Spelling, c: Spelling, n: nat)
    requires
        s.todo.len() == 0,
        reach(m, g, k, tks, s, c, n),
    ensures
        c == s,
{
    if n >= 1 {
        let q = lemma_reach_first(m, g, k, tks, s, c, n);
    }
}

/// Two automatic rests of the same drawn length and tuplet are the same note.
proof fn lemma_rest_note_unique(a: Note, b: Note, x: int, g: int, tk: Q)
    requires
        rest_note(a, x, g, tk),
        rest_note(b, x, g, tk),
    ensures
        a == b,
{
    crate::duration::lemma_duration_order(a.0, b.0, b.0);
}

/// A step of the search with given length and tuplet has one outcome.
proof fn lemma_child_rel_unique(m: Metre, g: int, k: int, p: Spelling, dur: int, tk: Q, c1: Spelling, c2: Spelling)
    requires
        child_rel(m, g, k, p, dur, tk, c1),
        child_rel(m, g, k, p, dur, tk, c2),
    ensures
        c1 == c2,
{
    lemma_rest_note_unique(c1.done.last(), c2.done.last(), dur, g, tk);
    assert(c1.done =~= c2.done) by {
        assert forall|i: int| 0 <= i < c1.done.len() implies c1.done[i] == c2.done[i] by {
            if i < c1.done.len() - 1 {
                assert(c1.done[i] == c1.done.drop_last()[i]);
                assert(c2.done[i] == c2.done.drop_last()[i]);
            }
        }
    }
    let ft = tick(note_dur(p.todo[0]), g);
    if ft > dur {
        lemma_rest_note_unique(c1.todo[0], c2.todo[0], ft - dur, g, tk);
        assert(c1.todo =~= c2.todo) by {
            assert forall|i: int| 0 <= i < c1.todo.len() implies c1.todo[i] == c2.todo[i] by {
                if i > 0 {
                    assert(c1.todo[i] == c1.todo.drop_first()[i - 1]);
                    assert(c2.todo[i] == c2.todo.drop_first()[i - 1]);
                }
            }
        }
    }
}

/// What a partial spelling becomes when its first note, an automatic rest of `ft` steps, gives
/// way to `displayed` (of `dur` steps) and, if any is left, a rest of the remaining steps in the
/// same tuplet: the notes still to spell and the notes spelled, with their step counts.
fn child_notes(
    parent: &Partial,
    displayed: Note,
    dur: i64,
    tuplet_kind: Rational,
    g: i64,
    k: i64,
    Ghost(rhythm): Ghost<Seq<Note>>,
    Ghost(bar_t): Ghost<int>,
    Ghost(dmax): Ghost<int>,
) -> (r: (Vec<Note>, Vec<i64>, Vec<Note>, Vec<i64>))
    requires
        grid_ok(g as int),
        k >= 1,
        bar_t <= 0x4000_0000,
        partial_ok(*parent, rhythm, g as int, k as int, bar_t, dmax),
        parent.todo@.len() > 0,
        parent.todo@[0].1 is AutomaticRest,
        0 < dur <= parent.todo_ticks@[0],
        (dur as int) % (k as int) == 0,
        tuplet_kind_ok(tuplet_kind),
        note_ok(displayed),
        displayed.1 is AutomaticRest,
        on_grid(note_dur(displayed), g as int),
        tick(note_dur(displayed), g as int) == dur,
    ensures
        ticks_match(r.0@, r.1@, g as int),
        ticks_match(r.2@, r.3@, g as int),
        notes_ok(r.2@),
        notes_ok(r.0@),
        notes_on(r.2@, g as int),
        notes_on(r.0@, g as int),
        forall|j: int| 0 <= j < r.0@.len() ==> (#[trigger] r.1@[j] as int) % (k as int) == 0,
        tsum(r.2@, g as int) == parent.done_time + dur,
        tsum(r.2@ + r.0@, g as int) == bar_t,
        fixed(r.2@ + r.0@) == fixed(rhythm),
        r.2@.len() == parent.done@.len() + 1,
        pmeasure(r.0@, r.1@) < pmeasure(parent.todo@, parent.todo_ticks@),
        r.2@ == parent.done@.push(displayed),
        parent.todo_ticks@[0] > dur ==> r.0@.len() == parent.todo@.len() && r.0@.drop_first()
            == parent.todo@.drop_first() && rest_note(r.0@[0], parent.todo_ticks@[0] - dur, g as int, tuplet_kind@),
        parent.todo_ticks@[0] <= dur ==> r.0@ == parent.todo@.drop_first(),
{
    let ghost gi = g as int;
    let ft = parent.todo_ticks[0];
    let first = parent.todo[0];
    proof {
        lemma_tsum_concat(parent.done@, parent.todo@, gi);
        lemma_tsum_front(parent.todo@, gi);
        lemma_tsum(parent.done@, gi);
        assert(ft == tick(note_dur(parent.todo@[0]), gi));
    }
    let remainder_t = ft - dur;
    let ghost post = parent.todo@.drop_first();
    let ghost mid2: Seq<Note>;
    let mut new_input: Vec<Note>;
    let mut new_ticks: Vec<i64>;
    if remainder_t > 0 {
        let rem = tuplet_rest(remainder_t, g, tuplet_kind, first.1);
        new_input = copy_vec(&parent.todo);
        new_ticks = copy_vec(&parent.todo_ticks);
        new_input.set(0, rem);
        new_ticks.set(0, remainder_t);
        proof {
            mid2 = seq![displayed, rem];
            assert(new_input@ =~= seq![rem] + post);
            assert(new_input@.drop_first() =~= post);
            assert(new_ticks@.drop_first() =~= parent.todo_ticks@.drop_first());
            assert(mid2.drop_last() =~= seq![displayed]);
            assert(seq![displayed].drop_last() =~= Seq::<Note>::empty());
            assert(mid2.last() == rem);
            assert(seq![displayed].last() == displayed);
            assert(tsum(seq![displayed], gi) == tsum(Seq::<Note>::empty(), gi) + dur);
            assert(tsum(mid2, gi) == tsum(seq![displayed], gi) + remainder_t);
            let a = ft / k;
            let b = dur / k;
            vstd::arithmetic::div_mod::lemma_fundamental_div_mod(ft as int, k as int);
            vstd::arithmetic::div_mod::lemma_fundamental_div_mod(dur as int, k as int);
            assert(remainder_t == k * (a - b)) by (nonlinear_arith)
                requires
                    ft == k * a + ft % k,
                    dur == k * b + dur % k,
                    ft % k == 0,
                    dur % k == 0,
                    remainder_t == ft - dur,
            ;
            crate::arith::lemma_multiple_mod(k as int, a - b);
        }
    } else {
        new_input = tail_vec(&parent.todo);
        new_ticks = tail_vec(&parent.todo_ticks);
        proof {
            mid2 = seq![displayed];
            assert(mid2.drop_last() =~= Seq::<Note>::empty());
            assert(mid2.last() == displayed);
            assert(tsum(mid2, gi) == tsum(Seq::<Note>::empty(), gi) + dur);
        }
    }
    let mut output = copy_vec(&parent.done);
    output.push(displayed);
    let mut out_t = copy_vec(&parent.done_ticks);
    out_t.push(dur);
    proof {
        if remainder_t > 0 {
            assert(new_input@.drop_first() =~= post);
        }
        let pre = parent.done@;
        let mid1 = seq![first];
        assert(mid1.drop_last() =~= Seq::<Note>::empty());
        assert(mid1.last() == first);
        assert(tsum(mid1, gi) == tsum(Seq::<Note>::empty(), gi) + ft);
        assert(parent.done@ + parent.todo@ =~= pre + mid1 + post);
        assert(output@ + new_input@ =~= pre + mid2 + post);
        assert(output@.drop_last() =~= pre);
        assert forall|i: int| 0 <= i < post.len() implies #[trigger] note_ok(post[i]) && on_grid(note_dur(post[i]), gi) by {
            assert(post[i] == parent.todo@[i + 1]);
            assert(note_ok(parent.todo@[i + 1]));
            assert(on_grid(note_dur(parent.todo@[i + 1]), gi));
        }
        assert(note_ok(first) && on_grid(note_dur(first), gi)) by {
            assert(note_ok(parent.todo@[0]));
            assert(on_grid(note_dur(parent.todo@[0]), gi));
        }
        assert(notes_ok(mid1) && notes_on(mid1, gi));
        assert(notes_ok(mid2) && notes_on(mid2, gi));
        lemma_notes_concat(pre, mid1, gi);
        lemma_notes_concat(pre + mid1, post, gi);
        lemma_notes_concat(pre, mid2, gi);
        lemma_notes_concat(pre + mid2, post, gi);
        lemma_fixed_replace(pre, mid1, mid2, post, gi);
        assert(notes_ok(output@) && notes_on(output@, gi)) by {
            assert(output@ =~= pre + seq![displayed]);
            lemma_notes_concat(pre, seq![displayed], gi);
        }
        assert(notes_ok(new_input@) && notes_on(new_input@, gi)) by {
            if remainder_t > 0 {
                lemma_notes_concat(seq![new_input@[0]], post, gi);
                assert(new_input@ =~= seq![new_input@[0]] + post);
            } else {
                assert(new_input@ =~= post);
            }
        }
        assert(pmeasure(parent.todo@, parent.todo_ticks@) == 1 + ft + pmeasure(post, parent.todo_ticks@.drop_first()));
        assert forall|j: int| 0 <= j < new_input@.len() implies (#[trigger] new_ticks@[j] as int) % (k as int) == 0 by {
            if remainder_t <= 0 || j > 0 {
                assert(new_ticks@[j] == parent.todo_ticks@[if remainder_t > 0 { j } else { j + 1 }]);
            }
        }
    }
    (new_input, new_ticks, output, out_t)
}

/// What spelling a rest of `dur` steps at `done_time`, the last of `output`, costs in
/// hundredths, in a division of `seg_t` steps from `ds` with `subs` beats of `sub_t` steps,
/// stressed in quanta of `k` steps.
pub(crate) open spec fn cost_of(
    output: Seq<Note>,
    g: int,
    k: int,
    done_time: int,
    dur: int,
    ds: int,
    seg_t: int,
    sub_t: int,
    subs: int,
    compound: bool,
    tk: Q,
    printable: bool,
) -> int {
    let div_parts = seg_t / k;
    let start_q = (done_time - ds) / k;
    let end_q = (done_time + dur - ds) / k;
    let second = ds + sub_t * 2;
    (if printable {
        0int
    } else {
        1_000_000int
    }) + 100 + (if compound && done_time <= second && second <= done_time + dur && subs >= 2
        && rest_spans(output, g, ds, ds + 2 * sub_t) && covers_first_beat(output, g, ds, sub_t) {
        99int
    } else {
        0int
    }) + (if end_q <= div_parts {
        stress_upto(
            power_seq(div_parts, k, g, tk, compound, rest_spans(output, g, ds, ds + sub_t)),
            start_q,
            end_q,
        )
    } else {
        0int
    })
}

/// What spelling a rest of `dur` steps at `done_time` costs, in hundredths: a large penalty if
/// it cannot be drawn, one point per rest, a bonus for covering the first two beats of a
/// compound division at once, and a penalty for hiding steps at least as strong as its start.
fn child_cost(
    output: &Vec<Note>,
    out_t: &Vec<i64>,
    g: i64,
    k: i64,
    bar_t: i64,
    done_time: i64,
    dur: i64,
    ds: i64,
    seg_t: i64,
    sub_t: i64,
    subs: i64,
    compound: bool,
    tuplet_kind: Rational,
    printable: bool,
) -> (cost: i128)
    requires
        grid_ok(g as int),
        ticks_match(output@, out_t@, g as int),
        notes_ok(output@),
        notes_on(output@, g as int),
        tsum(output@, g as int) <= 0x4000_0000,
        1 <= k <= sub_t,
        0 <= ds <= done_time,
        0 < dur,
        done_time + dur <= bar_t,
        ds + seg_t <= bar_t,
        bar_t <= 0x4000_0000,
        1 <= subs <= 4,
        sub_t * subs == seg_t,
        tuplet_kind_ok(tuplet_kind),
    ensures
        cost == cost_of(output@, g as int, k as int, done_time as int, dur as int, ds as int,
            seg_t as int, sub_t as int, subs as int, compound, tuplet_kind@, printable),
        0 <= cost <= dmax_of(bar_t as int),
{
    let mut cost: i128 = 0;
    if !printable {
        cost = cost + 1_000_000;
    }
    cost = cost + 100;
    proof {
        assert(sub_t <= seg_t) by (nonlinear_arith)
            requires
                sub_t * subs == seg_t,
                subs >= 1,
                sub_t >= 0,
        ;
    }
    let second_div = ds + sub_t * 2;
    let (covered_first, exposed_first, exposed_second) = beat_flags(
        output,
        out_t,
        g,
        ds,
        seg_t,
        sub_t,
        subs,
    );
    if compound && done_time <= second_div && second_div <= done_time + dur && exposed_second
        && covered_first {
        cost = cost + 99;
    }
    let div_parts = seg_t / k;
    let start_q = (done_time - ds) / k;
    let end_q = (done_time + dur - ds) / k;
    let ghost pen_max = bar_t * ((20 + 22 * bar_t) * 10);
    proof {
        vstd::arithmetic::div_mod::lemma_fundamental_div_mod(seg_t as int, k as int);
        vstd::arithmetic::div_mod::lemma_div_pos_is_pos(seg_t as int, k as int);
        vstd::arithmetic::div_mod::lemma_div_pos_is_pos((done_time - ds) as int, k as int);
        vstd::arithmetic::div_mod::lemma_div_is_ordered_by_denominator(seg_t as int, 1, k as int);
        vstd::arithmetic::div_mod::lemma_div_is_ordered_by_denominator((done_time - ds) as int, 1, k as int);
        vstd::arithmetic::div_mod::lemma_div_is_ordered(k as int, seg_t as int, k as int);
        vstd::arithmetic::div_mod::lemma_div_by_self(k as int);
        assert(k * div_parts <= seg_t) by (nonlinear_arith)
            requires
                seg_t == k * div_parts + seg_t % k,
                seg_t % k >= 0,
        ;
        assert(div_parts * ((20 + 22 * div_parts) * 10) <= pen_max) by (nonlinear_arith)
            requires
                0 <= div_parts <= bar_t,
                pen_max == bar_t * ((20 + 22 * bar_t) * 10),
        ;
        assert(pen_max <= 0x100_0000_0000_0000_0000) by (nonlinear_arith)
            requires
                0 <= bar_t <= 0x4000_0000,
                pen_max == bar_t * ((20 + 22 * bar_t) * 10),
        ;
    }
    if end_q <= div_parts {
        let powers = get_powers(div_parts, k, g, tuplet_kind, compound, exposed_first);
        let pen = stress_penalty(&powers, start_q, end_q);
        cost = cost + pen;
    }
    cost
}

/// A value on a grid `big_l` dividing `g` has a step count on `g` that is a multiple of
/// `g / big_l`.
pub(crate) proof fn lemma_tick_multiple(q: Q, big_l: int, g: int)
    requires
        big_l > 0,
        g > 0,
        g % big_l == 0,
        on_grid(q, big_l),
    ensures
        on_grid(q, g),
        tick(q, g) % (g / big_l) == 0,
        g / big_l >= 1,
{
    vstd::arithmetic::div_mod::lemma_fundamental_div_mod(g, big_l);
    vstd::arithmetic::div_mod::lemma_fundamental_div_mod(big_l, q.d);
    let k = g / big_l;
    let r = big_l / q.d;
    assert(g == q.d * (r * k)) by (nonlinear_arith)
        requires
            g == big_l * k,
            big_l == q.d * r,
    ;
    crate::arith::lemma_multiple_mod(q.d, r * k);
    vstd::arithmetic::div_mod::lemma_div_multiples_vanish(r * k, q.d);
    assert(tick(q, g) == k * (q.n * r)) by (nonlinear_arith)
        requires
            tick(q, g) == q.n * (g / q.d),
            g / q.d == r * k,
    ;
    assert(k >= 1) by (nonlinear_arith)
        requires
            g == big_l * k,
            g > 0,
            big_l > 0,
    ;
    crate::arith::lemma_multiple_mod(k, q.n * r);
}

/// Step counts of the notes of `notes`.
pub(crate) fn ticks_list(notes: &Vec<Note>, g: i64, Ghost(bar_t): Ghost<int>) -> (r: Vec<i64>)
    requires
        grid_ok(g as int),
        notes_ok(notes@),
        notes_on(notes@, g as int),
        tsum(notes@, g as int) <= bar_t <= 0x4000_0000,
    ensures
        ticks_match(notes@, r@, g as int),
{
    let mut r: Vec<i64> = Vec::new();
    let mut i: usize = 0;
    while i < notes.len()
        invariant
            grid_ok(g as int),
            notes_ok(notes@),
            notes_on(notes@, g as int),
            tsum(notes@, g as int) <= bar_t <= 0x4000_0000,
            i <= notes@.len(),
            r@.len() == i,
            forall|j: int| 0 <= j < i ==> #[trigger] r@[j] == tick(note_dur(notes@[j]), g as int),
        decreases notes@.len() - i,
    {
        proof {
            lemma_tsum_prefix(notes@, g as int, i as int);
            assert(note_ok(notes@[i as int]));
            assert(on_grid(note_dur(notes@[i as int]), g as int));
        }
        let x = ticks_of(notes[i].0.duration(), g);
        r.push(x);
        i = i + 1;
    }
    r
}

/// The fixed facts of one search: grid `g`, quantum `k` steps, bar of `bar_t` steps, tuplet
/// ratios `tks`, and the base of the termination measure.
pub(crate) open spec fn search_ok(m: Metre, g: int, k: int, bar_t: int, tks: Seq<Rational>, base: nat) -> bool {
    &&& m.wf()
    &&& m.segments().len() >= 1
    &&& grid_ok(g)
    &&& k >= 1
    &&& bar_t == div_tick(m, m.segments().len() as int, g)
    &&& 0 < bar_t <= 0x4000_0000
    &&& forall|j: int| 0 <= j < m.segments().len() ==> k <= beat_t(#[trigger] m.segments()[j], g)
    &&& forall|a: int| 0 <= a < tks.len() ==> tuplet_kind_ok(#[trigger] tks[a])
    &&& tks.len() >= 1
    &&& base == bar_t * tks.len() + 1
}

/// The partial spelling that follows `parent` with an automatic rest of `dur` steps drawn in
/// `tuplet_kind`, scored; `None` for a dotted rest longer than a beat of a simple-time
/// division (the longest dotted rest there is one value shorter than the beat).
fn child(
    metre: &Metre,
    parent: &Partial,
    dur: i64,
    tuplet_kind: Rational,
    g: i64,
    k: i64,
    bar_t: i64,
    Ghost(rhythm): Ghost<Seq<Note>>,
) -> (r: Option<Partial>)
    requires
        metre.wf(),
        metre.segments().len() >= 1,
        grid_ok(g as int),
        k >= 1,
        bar_t == div_tick(*metre, metre.segments().len() as int, g as int),
        partial_ok(*parent, rhythm, g as int, k as int, bar_t as int, dmax_of(bar_t as int)),
        parent.todo@.len() > 0,
        parent.todo@[0].1 is AutomaticRest,
        0 < dur <= parent.todo_ticks@[0],
        (dur as int) % (k as int) == 0,
        tuplet_kind_ok(tuplet_kind),
        forall|j: int| 0 <= j < metre.segments().len() ==> k <= beat_t(#[trigger] metre.segments()[j], g as int),
    ensures
        r matches Some(c) ==> partial_ok(c, rhythm, g as int, k as int, bar_t as int, dmax_of(bar_t as int)),
        r matches Some(c) ==> pmeasure(c.todo@, c.todo_ticks@) < pmeasure(parent.todo@, parent.todo_ticks@),
        dur == k ==> r is Some,
        r is Some <==> child_allowed(*metre, g as int, sp(*parent), dur as int, tuplet_kind@),
        r matches Some(c) ==> child_rel(*metre, g as int, k as int, sp(*parent), dur as int, tuplet_kind@, sp(c)),
{
    let ghost m = *metre;
    let ghost nseg = m.segments().len() as int;
    let ghost dmax = dmax_of(bar_t as int);
    let ghost gi = g as int;
    let done_time = parent.done_time;
    proof {
        lemma_grid_scale(gi);
        lemma_div_ticks(m, gi, 0, nseg);
        lemma_tsum_concat(parent.done@, parent.todo@, gi);
        lemma_tsum_front(parent.todo@, gi);
        lemma_tsum(parent.done@, gi);
    }
    let ghost j = lemma_division_found(m, gi, done_time as int, 0);
    let (div_start, div) = metre.division(rational_of(done_time, g));
    proof {
        lemma_div_ticks(m, gi, j, nseg);
        lemma_div_ticks(m, gi, j + 1, nseg);
        lemma_from_tick(div_tick(m, j, gi), gi);
        assert(div == m.segments()[j]);
        assert(div.wf());
        lemma_refine32(div.ticks(), gi);
        lemma_refine32(div.ticks() / div.subdivisions_spec(), gi);
        assert(crate::metre::start_ticks(m.segments(), j + 1) == crate::metre::start_ticks(m.segments(), j) + div.ticks());
        let kk = gi / 32;
        assert(div.ticks() * kk == div_tick(m, j + 1, gi) - div_tick(m, j, gi)) by (nonlinear_arith)
            requires
                div_tick(m, j + 1, gi) == crate::metre::start_ticks(m.segments(), j + 1) * kk,
                div_tick(m, j, gi) == crate::metre::start_ticks(m.segments(), j) * kk,
                crate::metre::start_ticks(m.segments(), j + 1) == crate::metre::start_ticks(m.segments(), j) + div.ticks(),
        ;
        let sub = div.subdivisions_spec();
        vstd::arithmetic::div_mod::lemma_fundamental_div_mod(div.ticks(), sub);
        assert(((div.ticks() / sub) * kk) * sub == div.ticks() * kk) by (nonlinear_arith)
            requires
                div.ticks() == sub * (div.ticks() / sub) + div.ticks() % sub,
                div.ticks() % sub == 0,
        ;
        assert(0 <= div.ticks() / sub <= div.ticks()) by {
            vstd::arithmetic::div_mod::lemma_div_pos_is_pos(div.ticks(), sub);
            vstd::arithmetic::div_mod::lemma_div_is_ordered_by_denominator(div.ticks(), 1, sub);
        }
        assert((div.ticks() / sub) * kk <= 0x4000_0000) by (nonlinear_arith)
            requires
                0 <= div.ticks() / sub <= div.ticks(),
                div.ticks() <= 128,
                1 <= kk,
                255 * 128 * kk <= 0x4000_0000,
        ;
        assert(k <= beat_t(m.segments()[j], gi));
    }
    let ds = ticks_of(div_start, g);
    let seg_t = ticks_of(div.duration(), g);
    let sub_t = ticks_of(div.subdivision_duration(), g);
    let subs = div.subdivisions() as i64;
    let displayed = tuplet_rest(dur, g, tuplet_kind, Lifetime::AutomaticRest);
    match displayed.0.display_dots() {
        Some(dots) => {
            if dots > 0 && div.subdivision() == crate::metre::Subdivision::Simple && dur > sub_t {
                return None;
            }
        },
        None => {},
    }
    let (todo, todo_ticks, done, done_ticks) = child_notes(
        parent,
        displayed,
        dur,
        tuplet_kind,
        g,
        k,
        Ghost(rhythm),
        Ghost(bar_t as int),
        Ghost(dmax),
    );
    let printable = displayed.0.printable();
    let cost = child_cost(
        &done,
        &done_ticks,
        g,
        k,
        bar_t,
        done_time,
        dur,
        ds,
        seg_t,
        sub_t,
        subs,
        div.subdivision() == crate::metre::Subdivision::Compound,
        tuplet_kind,
        printable,
    );
    proof {
        let n = parent.done@.len() as int;
        assert(n <= 0x4000_0000);
        assert(dmax <= 0x4000_0000_0000_0000_0000) by (nonlinear_arith)
            requires
                dmax == 1_000_199 + bar_t * ((20 + 22 * bar_t) * 10),
                0 <= bar_t <= 0x4000_0000,
        ;
        assert(dmax * n <= 0x4000_0000_0000_0000_0000 * 0x4000_0000) by (nonlinear_arith)
            requires
                0 <= dmax <= 0x4000_0000_0000_0000_0000,
                0 <= n <= 0x4000_0000,
        ;
        assert(dmax * (n + 1) == dmax * n + dmax) by (nonlinear_arith);
        assert(done@.drop_last() =~= parent.done@);
        assert(done@.last() == displayed);
        assert(div_of(m, done_time as int, gi) == j);
        assert(ds == tick(m.start_q(j), gi));
        assert(seg_t == tick(div.duration_q(), gi));
        assert(sub_t == tick(from_tick(div.ticks() / div.subdivisions_spec(), crate::metre::metre_grid()), gi));
        assert(parent.todo_ticks@[0] == tick(note_dur(parent.todo@[0]), gi));
        assert(printable == crate::duration::printable_q(q_mul(from_tick(dur as int, gi), tuplet_kind@)));
    }
    Some(
        Partial {
            score: parent.score - cost,
            done_time: done_time + dur,
            todo,
            todo_ticks,
            done,
            done_ticks,
        },
    )
}

/// Pushes the partial spellings that follow `best`: its first note if that is not an
/// automatic rest, else every way of starting that rest (longest first, each tuplet ratio in
/// increasing order).
fn expand(
    metre: &Metre,
    best: &Partial,
    heap: &mut Vec<Partial>,
    g: i64,
    k: i64,
    bar_t: i64,
    tks: &Vec<Rational>,
    Ghost(rhythm): Ghost<Seq<Note>>,
    Ghost(base): Ghost<nat>,
)
    requires
        search_ok(*metre, g as int, k as int, bar_t as int, tks@, base),
        partial_ok(*best, rhythm, g as int, k as int, bar_t as int, dmax_of(bar_t as int)),
        best.todo@.len() > 0,
        forall|a: int| 0 <= a < old(heap)@.len() ==> partial_ok(#[trigger] old(heap)@[a], rhythm, g as int, k as int, bar_t as int, dmax_of(bar_t as int)),
    ensures
        forall|a: int| 0 <= a < final(heap)@.len() ==> partial_ok(#[trigger] final(heap)@[a], rhythm, g as int, k as int, bar_t as int, dmax_of(bar_t as int)),
        final(heap)@.len() >= 1,
        hmeasure(final(heap)@, base) < hmeasure(old(heap)@, base) + wpow(base, pmeasure(best.todo@, best.todo_ticks@)),
        final(heap)@.len() >= old(heap)@.len(),
        forall|a: int| 0 <= a < old(heap)@.len() ==> #[trigger] final(heap)@[a] == old(heap)@[a],
        forall|a: int|
            old(heap)@.len() <= a < final(heap)@.len() ==> succ(*metre, g as int, k as int, tks@, sp(*best), sp(#[trigger] final(heap)@[a])),
        forall|c: Spelling|
            #[trigger] succ(*metre, g as int, k as int, tks@, sp(*best), c) ==> exists|a: int|
                0 <= a < final(heap)@.len() && #[trigger] sp(final(heap)@[a]) == c,
        views(final(heap)@) == views(old(heap)@) + kids(*metre, g as int, k as int, tks@, sp(*best)),
{
    let ghost gi = g as int;
    let ghost dmax = dmax_of(bar_t as int);
    let ghost pb = pmeasure(best.todo@, best.todo_ticks@);
    let ghost qpow = wpow(base, (pb - 1) as nat);
    let ghost h1 = heap@;
    proof {
        lemma_tsum_concat(best.done@, best.todo@, gi);
        lemma_tsum_front(best.todo@, gi);
        lemma_tsum(best.done@, gi);
        assert(bar_t * tks@.len() >= 1) by (nonlinear_arith)
            requires
                bar_t >= 1,
                tks@.len() >= 1,
        ;
        assert(pb >= 1);
        lemma_wpow(base, (pb - 1) as nat, (pb - 1) as nat);
        assert(wpow(base, pb) == base * qpow);
        assert(base * qpow > qpow) by (nonlinear_arith)
            requires
                base >= 2,
                qpow >= 1,
        ;
    }
    let first = best.todo[0];
    let ft = best.todo_ticks[0];
    if !first.1.is_automatic() {
        let mut output = copy_vec(&best.done);
        output.push(first);
        let mut out_t = copy_vec(&best.done_ticks);
        out_t.push(ft);
        let c = Partial {
            score: best.score,
            done_time: best.done_time + ft,
            todo: tail_vec(&best.todo),
            todo_ticks: tail_vec(&best.todo_ticks),
            done: output,
            done_ticks: out_t,
        };
        proof {
            assert(c.done@ + c.todo@ =~= best.done@ + best.todo@);
            assert(c.done@.drop_last() =~= best.done@);
            assert(c.done@ =~= best.done@ + seq![first]);
            assert(c.done@ =~= best.done@.push(first));
            assert(c.todo@ =~= best.todo@.drop_first());
            assert(ft == tick(note_dur(best.todo@[0]), gi));
            assert(note_ok(best.todo@[0]) && on_grid(note_dur(best.todo@[0]), gi));
            lemma_notes_concat(best.done@, seq![first], gi);
            assert forall|i: int| 0 <= i < c.todo@.len() implies #[trigger] note_ok(c.todo@[i]) && on_grid(note_dur(c.todo@[i]), gi) by {
                assert(c.todo@[i] == best.todo@[i + 1]);
                assert(note_ok(best.todo@[i + 1]));
                assert(on_grid(note_dur(best.todo@[i + 1]), gi));
            }
            assert forall|i: int| 0 <= i < c.todo@.len() implies (#[trigger] c.todo_ticks@[i] as int) % (k as int) == 0 by {
                assert(c.todo_ticks@[i] == best.todo_ticks@[i + 1]);
            }
            let n = best.done@.len() as int;
            assert(dmax * (n + 1) == dmax * n + dmax) by (nonlinear_arith);
            assert(partial_ok(c, rhythm, gi, k as int, bar_t as int, dmax));
            assert(pmeasure(c.todo@, c.todo_ticks@) == pb - 1);
            lemma_hmeasure_push(heap@, c, base);
        }
        heap.push(c);
        proof {
            assert forall|a: int| 0 <= a < heap@.len() implies partial_ok(#[trigger] heap@[a], rhythm, gi, k as int, bar_t as int, dmax) by {
                if a < heap@.len() - 1 {
                    assert(heap@[a] == heap@.drop_last()[a]);
                }
            }
            assert(heap@[heap@.len() - 1] == c);
            assert(sp(c) == Spelling {
                score: sp(*best).score,
                done_time: sp(*best).done_time + tick(note_dur(best.todo@[0]), gi),
                todo: best.todo@.drop_first(),
                done: best.done@.push(best.todo@[0]),
            });
            assert forall|c2: Spelling| #[trigger] succ(*metre, gi, k as int, tks@, sp(*best), c2) implies exists|a: int|
                0 <= a < heap@.len() && #[trigger] sp(heap@[a]) == c2 by {
                assert(sp(heap@[heap@.len() - 1]) == c2);
            }
            assert(views(heap@) =~= views(h1) + seq![sp(c)]);
        }
        return;
    }
    let quants = ft / k;
    proof {
        vstd::arithmetic::div_mod::lemma_fundamental_div_mod(ft as int, k as int);
        assert(k * quants <= ft) by (nonlinear_arith)
            requires
                ft == k * quants + ft % k,
                ft % k == 0,
        ;
        assert(quants >= 1) by (nonlinear_arith)
            requires
                ft == k * quants,
                ft >= 1,
                k >= 1,
        ;
        assert(quants <= bar_t) by (nonlinear_arith)
            requires
                k * quants <= ft,
                k >= 1,
                quants >= 1,
                ft <= bar_t,
        ;
    }
    let ghost ntk = tks@.len() as int;
    let ghost mut cnt: int = 0;
    let ghost mut pushed_any = false;
    let mut i = quants;
    while i >= 1
        invariant
            search_ok(*metre, gi, k as int, bar_t as int, tks@, base),
            gi == g,
            dmax == dmax_of(bar_t as int),
            ntk == tks@.len(),
            partial_ok(*best, rhythm, gi, k as int, bar_t as int, dmax),
            best.todo@.len() > 0,
            best.todo@[0].1 is AutomaticRest,
            ft == best.todo_ticks@[0],
            k * quants <= ft,
            1 <= quants <= bar_t,
            0 <= i <= quants,
            0 <= cnt <= (quants - i) * ntk,
            forall|a: int| 0 <= a < heap@.len() ==> partial_ok(#[trigger] heap@[a], rhythm, gi, k as int, bar_t as int, dmax),
            hmeasure(heap@, base) <= hmeasure(h1, base) + cnt * qpow,
            i == 0 ==> pushed_any,
            pushed_any ==> heap@.len() >= 1,
            qpow >= 1,
            pb == pmeasure(best.todo@, best.todo_ticks@),
            qpow == wpow(base, (pb - 1) as nat),
            heap@.len() >= h1.len(),
            forall|a: int| 0 <= a < h1.len() ==> #[trigger] heap@[a] == h1[a],
            forall|a: int| h1.len() <= a < heap@.len() ==> succ(*metre, gi, k as int, tks@, sp(*best), sp(#[trigger] heap@[a])),
            forall|c: Spelling, d: int, a2: int|
                k * i < d <= ft && d % (k as int) == 0 && 0 <= a2 < ntk && #[trigger] child_rel(*metre, gi, k as int, sp(*best), d, tks@[a2]@, c)
                    ==> exists|a: int| 0 <= a < heap@.len() && #[trigger] sp(heap@[a]) == c,
            views(heap@) == views(h1) + kids_range(*metre, gi, k as int, tks@, sp(*best), quants as int, i as int),
        decreases i,
    {
        let mut j: usize = 0;
        proof {
            assert(0 < k * i <= k * quants) by (nonlinear_arith)
                requires
                    k >= 1,
                    1 <= i <= quants,
            ;
            crate::arith::lemma_multiple_mod(k as int, i as int);
        }
        while j < tks.len()
            invariant
                search_ok(*metre, gi, k as int, bar_t as int, tks@, base),
                gi == g,
                dmax == dmax_of(bar_t as int),
                ntk == tks@.len(),
                partial_ok(*best, rhythm, gi, k as int, bar_t as int, dmax),
                best.todo@.len() > 0,
                best.todo@[0].1 is AutomaticRest,
                ft == best.todo_ticks@[0],
                1 <= i <= quants,
                0 < k * i <= ft,
                ((k * i) as int) % (k as int) == 0,
                0 <= j <= ntk,
                0 <= cnt <= (quants - i) * ntk + j,
                forall|a: int| 0 <= a < heap@.len() ==> partial_ok(#[trigger] heap@[a], rhythm, gi, k as int, bar_t as int, dmax),
                hmeasure(heap@, base) <= hmeasure(h1, base) + cnt * qpow,
                i == 1 && j >= 1 ==> pushed_any,
                pushed_any ==> heap@.len() >= 1,
                qpow >= 1,
                pb == pmeasure(best.todo@, best.todo_ticks@),
                qpow == wpow(base, (pb - 1) as nat),
                heap@.len() >= h1.len(),
                forall|a: int| 0 <= a < h1.len() ==> #[trigger] heap@[a] == h1[a],
                forall|a: int| h1.len() <= a < heap@.len() ==> succ(*metre, gi, k as int, tks@, sp(*best), sp(#[trigger] heap@[a])),
                forall|c: Spelling, d: int, a2: int|
                    (k * i < d <= ft || (d == k * i && a2 < j)) && d % (k as int) == 0 && 0 <= a2 < ntk
                        && #[trigger] child_rel(*metre, gi, k as int, sp(*best), d, tks@[a2]@, c)
                        ==> exists|a: int| 0 <= a < heap@.len() && #[trigger] sp(heap@[a]) == c,
                views(heap@) == views(h1) + kids_range(*metre, gi, k as int, tks@, sp(*best), quants as int, i as int)
                    + kids_tk(*metre, gi, k as int, tks@, sp(*best), k * i, j as int),
            decreases ntk - j,
        {
            let r = child(metre, best, k * i, tks[j], g, k, bar_t, Ghost(rhythm));
            let ghost hp = heap@;
            let ghost dd = k * i;
            let ghost jj = j as int;
            match r {
                Some(c) => {
                    proof {
                        lemma_hmeasure_push(heap@, c, base);
                        lemma_wpow(base, pmeasure(c.todo@, c.todo_ticks@), (pb - 1) as nat);
                        assert((cnt + 1) * qpow == cnt * qpow + qpow) by (nonlinear_arith);
                        cnt = cnt + 1;
                        pushed_any = true;
                    }
                    heap.push(c);
                    proof {
                        assert forall|a: int| 0 <= a < heap@.len() implies partial_ok(#[trigger] heap@[a], rhythm, gi, k as int, bar_t as int, dmax) by {
                            if a < heap@.len() - 1 {
                                assert(heap@[a] == heap@.drop_last()[a]);
                            }
                        }
                        assert(heap@[heap@.len() - 1] == c);
                        assert(ft == tick(note_dur(best.todo@[0]), gi));
                        assert(child_rel(*metre, gi, k as int, sp(*best), dd, tks@[jj]@, sp(c)));
                        assert(succ(*metre, gi, k as int, tks@, sp(*best), sp(c)));
                        assert forall|a: int| h1.len() <= a < heap@.len() implies succ(*metre, gi, k as int, tks@, sp(*best), sp(#[trigger] heap@[a])) by {
                            if a < heap@.len() - 1 {
                                assert(heap@[a] == hp[a]);
                            }
                        }
                        assert forall|cc: Spelling, d: int, a2: int|
                            (k * i < d <= ft || (d == k * i && a2 < j + 1)) && d % (k as int) == 0 && 0 <= a2 < ntk
                                && #[trigger] child_rel(*metre, gi, k as int, sp(*best), d, tks@[a2]@, cc)
                            implies exists|a: int| 0 <= a < heap@.len() && #[trigger] sp(heap@[a]) == cc by {
                            if d == dd && a2 == jj {
                                lemma_child_rel_unique(*metre, gi, k as int, sp(*best), d, tks@[a2]@, cc, sp(c));
                                assert(sp(heap@[heap@.len() - 1]) == cc);
                            } else {
                                let a = choose|a: int| 0 <= a < hp.len() && #[trigger] sp(hp[a]) == cc;
                                assert(heap@[a] == hp[a]);
                                assert(sp(heap@[a]) == cc);
                            }
                        }
                        let co = child_of(*metre, gi, k as int, sp(*best), dd, tks@[jj]@);
                        assert(child_rel(*metre, gi, k as int, sp(*best), dd, tks@[jj]@, co));
                        lemma_child_rel_unique(*metre, gi, k as int, sp(*best), dd, tks@[jj]@, co, sp(c));
                        assert(views(heap@) =~= views(hp) + seq![sp(c)]);
                    }
                },
                None => {
                    proof {
                        assert(!child_allowed(*metre, gi, sp(*best), dd, tks@[jj]@));
                    }
                },
            }
            proof {
                assert(kids_tk(*metre, gi, k as int, tks@, sp(*best), dd, jj + 1) == kids_tk(*metre, gi, k as int, tks@, sp(*best), dd, jj) + if child_allowed(*metre, gi, sp(*best), dd, tks@[jj]@) {
                    seq![child_of(*metre, gi, k as int, sp(*best), dd, tks@[jj]@)]
                } else {
                    Seq::empty()
                });
            }
            j = j + 1;
        }
        proof {
            assert(kids_range(*metre, gi, k as int, tks@, sp(*best), quants as int, i - 1) == kids_range(*metre, gi, k as int, tks@, sp(*best), quants as int, i as int) + kids_tk(*metre, gi, k as int, tks@, sp(*best), k * ((i - 1) + 1), ntk));
            assert((quants - i) * ntk + ntk == (quants - (i - 1)) * ntk) by (nonlinear_arith);
            assert forall|c: Spelling, d: int, a2: int|
                k * (i - 1) < d <= ft && d % (k as int) == 0 && 0 <= a2 < ntk && #[trigger] child_rel(*metre, gi, k as int, sp(*best), d, tks@[a2]@, c)
                implies exists|a: int| 0 <= a < heap@.len() && #[trigger] sp(heap@[a]) == c by {
                vstd::arithmetic::div_mod::lemma_fundamental_div_mod(d, k as int);
                let q = d / (k as int);
                assert(k * i <= d) by (nonlinear_arith)
                    requires
                        d == k * q + d % (k as int),
                        d % (k as int) == 0,
                        k * (i - 1) < d,
                        k >= 1,
                ;
            }
        }
        i = i - 1;
    }
    proof {
        assert(ft == tick(note_dur(best.todo@[0]), gi));
        assert(kids(*metre, gi, k as int, tks@, sp(*best)) == kids_range(*metre, gi, k as int, tks@, sp(*best), quants as int, 0));
        assert forall|c: Spelling| #[trigger] succ(*metre, gi, k as int, tks@, sp(*best), c) implies exists|a: int|
            0 <= a < heap@.len() && #[trigger] sp(heap@[a]) == c by {
            let (d, a2) = choose|d: int, a2: int|
                0 < d <= tick(note_dur(best.todo@[0]), gi) && d % (k as int) == 0 && 0 <= a2 < tks@.len()
                    && #[trigger] child_rel(*metre, gi, k as int, sp(*best), d, tks@[a2]@, c);
            assert(ft == tick(note_dur(best.todo@[0]), gi));
        }
        assert(cnt * qpow <= (base - 1) * qpow) by (nonlinear_arith)
            requires
                0 <= cnt <= quants * ntk,
                0 <= quants <= bar_t,
                ntk >= 1,
                base == bar_t * ntk + 1,
                qpow >= 1,
        ;
        assert((base - 1) * qpow + qpow == base * qpow) by (nonlinear_arith);
    }
}

/// `x` is reached from `s0` in some number of steps.
spec fn reached(m: Metre, g: int, k: int, tks: Seq<Rational>, s0: Spelling, x: Spelling) -> bool {
    exists|n: nat| reach(m, g, k, tks, s0, x, n)
}

/// Every spelling in `h` is reached from `s0`.
#[verifier::opaque]
spec fn all_reached(m: Metre, g: int, k: int, tks: Seq<Rational>, s0: Spelling, h: Seq<Partial>) -> bool {
    forall|a: int| 0 <= a < h.len() ==> reached(m, g, k, tks, s0, sp(#[trigger] h[a]))
}

/// Every complete spelling reached from `s0` is reached from some spelling in `h`.
#[verifier::opaque]
spec fn covers_complete(m: Metre, g: int, k: int, tks: Seq<Rational>, s0: Spelling, h: Seq<Partial>) -> bool {
    forall|c: Spelling, n: nat|
        c.todo.len() == 0 && #[trigger] reach(m, g, k, tks, s0, c, n) ==> exists|a: int, n2: nat|
            0 <= a < h.len() && #[trigger] reach(m, g, k, tks, sp(h[a]), c, n2)
}

/// A complete spelling popped as a greatest one scores best among the complete spellings
/// reached from `s0`.
proof fn lemma_pop_complete(m: Metre, g: int, k: int, tks: Seq<Rational>, s0: Spelling, h0: Seq<Partial>, bi: int)
    requires
        0 <= bi < h0.len(),
        h0[bi].todo@.len() == 0,
        forall|j: int| 0 <= j < h0.len() ==> !partial_gt(#[trigger] h0[j], h0[bi]),
        all_reached(m, g, k, tks, s0, h0),
        covers_complete(m, g, k, tks, s0, h0),
    ensures
        reached(m, g, k, tks, s0, sp(h0[bi])),
        forall|c: Spelling, n2: nat|
            c.todo.len() == 0 && #[trigger] reach(m, g, k, tks, s0, c, n2) ==> c.score <= sp(h0[bi]).score,
{
    reveal(all_reached);
    reveal(covers_complete);
    let b = sp(h0[bi]);
    assert(reached(m, g, k, tks, s0, sp(h0[bi])));
    let nb = choose|n: nat| #[trigger] reach(m, g, k, tks, s0, sp(h0[bi]), n);
    assert forall|c: Spelling, n2: nat| c.todo.len() == 0 && #[trigger] reach(m, g, k, tks, s0, c, n2) implies c.score <= b.score by {
        let (a, n3) = choose|a: int, n3: nat| 0 <= a < h0.len() && #[trigger] reach(m, g, k, tks, sp(h0[a]), c, n3);
        if a == bi {
            lemma_reach_complete(m, g, k, tks, b, c, n3);
        } else {
            lemma_reach_score(m, g, k, tks, sp(h0[a]), c, n3);
            assert(!partial_gt(h0[a], h0[bi]));
        }
    }
}

/// What follows a reached spelling is reached, and so is what stays.
proof fn lemma_reached_after(m: Metre, g: int, k: int, tks: Seq<Rational>, s0: Spelling, h0: Seq<Partial>, bi: int, hf: Seq<Partial>)
    requires
        0 <= bi < h0.len(),
        all_reached(m, g, k, tks, s0, h0),
        hf.len() >= h0.len() - 1,
        forall|a: int| 0 <= a < h0.len() - 1 ==> #[trigger] hf[a] == h0.remove(bi)[a],
        forall|a: int| h0.len() - 1 <= a < hf.len() ==> succ(m, g, k, tks, sp(h0[bi]), sp(#[trigger] hf[a])),
    ensures
        all_reached(m, g, k, tks, s0, hf),
{
    reveal(all_reached);
    let b = sp(h0[bi]);
    let hm = h0.remove(bi);
    assert(reached(m, g, k, tks, s0, sp(h0[bi])));
    let nb = choose|n: nat| #[trigger] reach(m, g, k, tks, s0, sp(h0[bi]), n);
    assert(reach(m, g, k, tks, s0, b, nb));
    assert forall|a: int| 0 <= a < hf.len() implies reached(m, g, k, tks, s0, sp(#[trigger] hf[a])) by {
        if a < h0.len() - 1 {
            let i0 = if a < bi {
                a
            } else {
                a + 1
            };
            assert(hf[a] == hm[a]);
            assert(hm[a] == h0[i0]);
            assert(reached(m, g, k, tks, s0, sp(h0[i0])));
        } else {
            assert(succ(m, g, k, tks, b, sp(hf[a])));
            assert(reach(m, g, k, tks, s0, sp(hf[a]), nb + 1));
        }
    }
}

/// Replacing a popped spelling by what follows it keeps every spelling reached and every
/// complete spelling reachable.
proof fn lemma_after_expand(m: Metre, g: int, k: int, tks: Seq<Rational>, s0: Spelling, h0: Seq<Partial>, bi: int, hf: Seq<Partial>)
    requires
        0 <= bi < h0.len(),
        h0[bi].todo@.len() > 0,
        all_reached(m, g, k, tks, s0, h0),
        covers_complete(m, g, k, tks, s0, h0),
        hf.len() >= h0.len() - 1,
        forall|a: int| 0 <= a < h0.len() - 1 ==> #[trigger] hf[a] == h0.remove(bi)[a],
        forall|a: int| h0.len() - 1 <= a < hf.len() ==> succ(m, g, k, tks, sp(h0[bi]), sp(#[trigger] hf[a])),
        forall|c: Spelling|
            #[trigger] succ(m, g, k, tks, sp(h0[bi]), c) ==> exists|a: int| 0 <= a < hf.len() && #[trigger] sp(hf[a]) == c,
    ensures
        all_reached(m, g, k, tks, s0, hf),
        covers_complete(m, g, k, tks, s0, hf),
{
    lemma_reached_after(m, g, k, tks, s0, h0, bi, hf);
    reveal(covers_complete);
    let b = sp(h0[bi]);
    let hm = h0.remove(bi);
    assert forall|c: Spelling, n: nat| c.todo.len() == 0 && #[trigger] reach(m, g, k, tks, s0, c, n) implies exists|a: int, n2: nat|
        0 <= a < hf.len() && #[trigger] reach(m, g, k, tks, sp(hf[a]), c, n2) by {
        let (a, n3) = choose|a: int, n3: nat| 0 <= a < h0.len() && #[trigger] reach(m, g, k, tks, sp(h0[a]), c, n3);
        if a == bi {
            if n3 == 0 {
                assert(b == c);
                assert(false);
            }
            let q = lemma_reach_first(m, g, k, tks, b, c, n3);
            let a2 = choose|a2: int| 0 <= a2 < hf.len() && #[trigger] sp(hf[a2]) == q;
            assert(reach(m, g, k, tks, sp(hf[a2]), c, (n3 - 1) as nat));
        } else if a < bi {
            assert(hf[a] == hm[a]);
            assert(hm[a] == h0[a]);
            assert(reach(m, g, k, tks, sp(hf[a]), c, n3));
        } else {
            assert(hf[a - 1] == hm[a - 1]);
            assert(hm[a - 1] == h0[a]);
            assert(reach(m, g, k, tks, sp(hf[a - 1]), c, n3));
        }
    }
}

/// No spelling of `h` comes after its `i`-th, and that one comes after every spelling before it.
pub(crate) open spec fn is_first_max(h: Seq<Spelling>, i: int) -> bool {
    &&& 0 <= i < h.len()
    &&& forall|j: int| 0 <= j < h.len() ==> !spell_gt(#[trigger] h[j], h[i])
    &&& forall|j: int| 0 <= j < i ==> spell_gt(h[i], #[trigger] h[j])
}

/// The index of the first spelling of `h` that no spelling of `h` comes after.
pub(crate) open spec fn first_max(h: Seq<Spelling>) -> int {
    choose|i: int| #[trigger] is_first_max(h, i)
}

/// The best-first search from the queue `h`: the first greatest spelling is taken off; a
/// complete one is the answer, otherwise what follows it (`kids`) joins the end of the queue.
/// `None` when `fuel` steps give no answer.
pub(crate) open spec fn search(m: Metre, g: int, k: int, tks: Seq<Rational>, h: Seq<Spelling>, fuel: nat) -> Option<Spelling>
    decreases fuel,
{
    if fuel == 0 || h.len() == 0 {
        None
    } else {
        let i = first_max(h);
        if h[i].todo.len() == 0 {
            Some(h[i])
        } else {
            search(m, g, k, tks, h.remove(i) + kids(m, g, k, tks, h[i]), (fuel - 1) as nat)
        }
    }
}

/// An index with no greater spelling after it and greater than every one before it is
/// `first_max`.
proof fn lemma_first_max(h: Seq<Spelling>, i: int)
    requires
        is_first_max(h, i),
    ensures
        first_max(h) == i,
{
    let c = first_max(h);
    assert(is_first_max(h, c));
    if c < i {
        assert(spell_gt(h[i], h[c]));
    } else if c > i {
        assert(spell_gt(h[c], h[i]));
    }
}

/// A queue of spellings weighs at least one per spelling.
proof fn lemma_hmeasure_pos(h: Seq<Partial>, b: nat)
    requires
        h.len() >= 1,
        b >= 1,
    ensures
        hmeasure(h, b) >= 1,
{
    lemma_wpow(b, 0, pmeasure(h.last().todo@, h.last().todo_ticks@));
}

/// Where the search starts: nothing spelled, nothing lost.
pub(crate) open spec fn start_spelling(rhythm: Seq<Note>) -> Spelling {
    Spelling { score: 0, done_time: 0, todo: rhythm, done: Seq::empty() }
}

/// The first complete spelling that a best-first search over the ways of spelling the automatic
/// rests of `rhythm` takes off its queue (see `Bar::optimize`).
pub(crate) fn respell(
    metre: &Metre,
    rhythm: &Vec<Note>,
    g: i64,
    k: i64,
    bar_t: i64,
    tks: &Vec<Rational>,
    todo_ticks: Vec<i64>,
    Ghost(base): Ghost<nat>,
) -> (r: Vec<Note>)
    requires
        search_ok(*metre, g as int, k as int, bar_t as int, tks@, base),
        rhythm@.len() > 0,
        notes_ok(rhythm@),
        notes_on(rhythm@, g as int),
        ticks_match(rhythm@, todo_ticks@, g as int),
        forall|i: int| 0 <= i < rhythm@.len() ==> (#[trigger] todo_ticks@[i] as int) % (k as int) == 0,
        tsum(rhythm@, g as int) == bar_t,
    ensures
        notes_ok(r@),
        notes_on(r@, g as int),
        tsum(r@, g as int) == bar_t,
        fixed(r@) == fixed(rhythm@),
        exists|b: Spelling, n: nat|
            b.done == r@ && b.todo.len() == 0 && #[trigger] reach(*metre, g as int, k as int, tks@, start_spelling(rhythm@), b, n)
                && (forall|c: Spelling, n2: nat|
                c.todo.len() == 0 && #[trigger] reach(*metre, g as int, k as int, tks@, start_spelling(rhythm@), c, n2)
                    ==> c.score <= b.score) && exists|f: nat|
                search(*metre, g as int, k as int, tks@, seq![start_spelling(rhythm@)], f) == Some(b),
{
    let ghost gi = g as int;
    let ghost old_r = rhythm@;
    let ghost dmax = dmax_of(bar_t as int);
    let init = Partial {
        score: 0,
        done_time: 0,
        todo: copy_vec(rhythm),
        todo_ticks,
        done: Vec::new(),
        done_ticks: Vec::new(),
    };
    proof {
        assert(init.done@ + init.todo@ =~= old_r);
        assert(tsum(init.done@, gi) == 0);
        assert(partial_ok(init, old_r, gi, k as int, bar_t as int, dmax));
    }
    let ghost s0 = start_spelling(old_r);
    let ghost kk = k as int;
    let ghost ts = tks@;
    let ghost mm = *metre;
    let mut heap: Vec<Partial> = Vec::new();
    heap.push(init);
    let ghost f0: nat = hmeasure(heap@, base);
    let ghost mut fuel: nat = f0;
    proof {
        assert(views(heap@) =~= seq![s0]);
        assert(sp(init) == s0);
        reveal(all_reached);
        reveal(covers_complete);
        assert(reach(mm, gi, kk, ts, s0, sp(heap@[0]), 0));
        assert(reached(mm, gi, kk, ts, s0, sp(heap@[0])));
        assert forall|c: Spelling, n: nat| c.todo.len() == 0 && #[trigger] reach(mm, gi, kk, ts, s0, c, n) implies exists|a: int, n2: nat|
            0 <= a < heap@.len() && #[trigger] reach(mm, gi, kk, ts, sp(heap@[a]), c, n2) by {
            assert(reach(mm, gi, kk, ts, sp(heap@[0]), c, n));
        }
    }
    loop
        invariant
            old_r == rhythm@,
            search_ok(*metre, gi, k as int, bar_t as int, tks@, base),
            gi == g,
            kk == k,
            ts == tks@,
            mm == *metre,
            s0 == start_spelling(old_r),
            dmax == dmax_of(bar_t as int),
            heap@.len() >= 1,
            forall|i: int| 0 <= i < heap@.len() ==> partial_ok(#[trigger] heap@[i], old_r, gi, k as int, bar_t as int, dmax),
            all_reached(mm, gi, kk, ts, s0, heap@),
            covers_complete(mm, gi, kk, ts, s0, heap@),
            hmeasure(heap@, base) <= fuel,
            search(mm, gi, kk, ts, views(heap@), fuel) == search(mm, gi, kk, ts, seq![s0], f0),
        decreases hmeasure(heap@, base),
    {
        proof {
            assert forall|i: int| 0 <= i < heap@.len() implies notes_ok((#[trigger] heap@[i]).todo@) && notes_ok(heap@[i].done@) by {
                assert(partial_ok(heap@[i], old_r, gi, k as int, bar_t as int, dmax));
            }
        }
        let ghost h0 = heap@;
        let bi = best_index(&heap);
        let best = heap.remove(bi);
        proof {
            lemma_hmeasure_remove(h0, bi as int, base);
            assert(partial_ok(h0[bi as int], old_r, gi, k as int, bar_t as int, dmax));
            assert forall|i: int| 0 <= i < heap@.len() implies partial_ok(#[trigger] heap@[i], old_r, gi, k as int, bar_t as int, dmax) by {
                if i < bi {
                    assert(heap@[i] == h0[i]);
                } else {
                    assert(heap@[i] == h0[i + 1]);
                }
            }
        }
        let ghost hm = heap@;
        let ghost b = sp(best);
        proof {
            assert(h0[bi as int] == best);
            assert(hm == h0.remove(bi as int));
        }
        proof {
            let vh = views(h0);
            assert forall|j: int| 0 <= j < vh.len() implies !spell_gt(#[trigger] vh[j], vh[bi as int]) by {
                assert(!partial_gt(h0[j], h0[bi as int]));
            }
            assert forall|j: int| 0 <= j < bi implies spell_gt(vh[bi as int], #[trigger] vh[j]) by {
                assert(partial_gt(h0[bi as int], h0[j]));
            }
            assert(is_first_max(vh, bi as int));
            lemma_first_max(vh, bi as int);
            lemma_hmeasure_pos(h0, base);
            assert(vh[bi as int] == b);
            assert(views(hm) =~= vh.remove(bi as int));
        }
        if best.todo.len() == 0 {
            proof {
                assert(partial_ok(best, old_r, gi, k as int, bar_t as int, dmax));
                assert(best.done@ + best.todo@ =~= best.done@);
                assert(fixed(best.done@) == fixed(old_r));
                lemma_pop_complete(mm, gi, kk, ts, s0, h0, bi as int);
                let nb = choose|n: nat| #[trigger] reach(mm, gi, kk, ts, s0, b, n);
                assert(search(mm, gi, kk, ts, views(h0), fuel) == Some(b));
                assert(b.done == best.done@ && b.todo.len() == 0 && reach(mm, gi, kk, ts, s0, b, nb));
            }
            return best.done;
        }
        expand(metre, &best, &mut heap, g, k, bar_t, tks, Ghost(old_r), Ghost(base));
        proof {
            lemma_after_expand(mm, gi, kk, ts, s0, h0, bi as int, heap@);
            assert(search(mm, gi, kk, ts, views(h0), fuel) == search(mm, gi, kk, ts, views(heap@), (fuel - 1) as nat));
            fuel = (fuel - 1) as nat;
        }
    }
}

} // verus!
