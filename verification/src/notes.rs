//! The note model of a bar: lengths, start times, the notes that are not automatic rests
//! (`fixed`), and exact arithmetic on a common grid of steps per whole note.
use crate::arith::{Q, canon, from_tick, lemma_from_tick, lemma_grid_refine, lemma_tick_fits, lemma_ticks, on_grid, q_add, q_int, reduced, tick};
use crate::duration::{Duration, duration_order};
use crate::entity::Entity;
use crate::lifetime::{Lifetime, lifetime_order};
use crate::metre::Metre;
use crate::metre::metre_grid;
use crate::rational::Rational;
use vstd::prelude::*;

verus! {

/// A rest, note or chord of a bar: how long it is, and why it is there.
pub type Note = (Duration, Lifetime);

/// The played length of a note, in whole notes.
pub open spec fn note_dur(n: Note) -> Q {
    n.0.duration_q()
}

/// The time at which note `i` starts: the sum of the lengths before it.
pub open spec fn start_of(s: Seq<Note>, i: int) -> Q
    decreases i,
{
    if i <= 0 {
        q_int(0)
    } else {
        q_add(start_of(s, i - 1), note_dur(s[i - 1]))
    }
}

/// The total length of a sequence of notes.
pub open spec fn total_of(s: Seq<Note>) -> Q {
    start_of(s, s.len() as int)
}

/// The notes that are not automatic rests, each with its start time, in order.
pub open spec fn fixed(s: Seq<Note>) -> Seq<(Q, Note)>
    decreases s.len(),
{
    if s.len() == 0 {
        Seq::empty()
    } else if s.last().1 is AutomaticRest {
        fixed(s.drop_last())
    } else {
        fixed(s.drop_last()).push((total_of(s.drop_last()), s.last()))
    }
}

/// The largest common grid (steps per whole note) that a bar's lengths may need.
pub open spec fn max_grid() -> int {
    0x10_0000
}

/// The largest numerator or denominator of a tuplet ratio.
pub open spec fn max_tuplet() -> int {
    0x1_0000
}

/// A usable grid: a multiple of the metre grid, small enough for exact arithmetic.
pub open spec fn grid_ok(l: int) -> bool {
    0 < l <= max_grid() && l % metre_grid() == 0
}

/// A note with a positive, well-formed length and a moderate tuplet ratio.
pub open spec fn note_ok(n: Note) -> bool {
    &&& n.0.wf()
    &&& note_dur(n).n > 0
    &&& n.0.tuplet_q().n <= max_tuplet()
    &&& n.0.tuplet_q().d <= max_tuplet()
}

pub open spec fn notes_ok(s: Seq<Note>) -> bool {
    forall|i: int| 0 <= i < s.len() ==> #[trigger] note_ok(s[i])
}

/// Every length in `s` is a whole number of `1 / l` steps.
pub open spec fn notes_on(s: Seq<Note>, l: int) -> bool {
    forall|i: int| 0 <= i < s.len() ==> on_grid(#[trigger] note_dur(s[i]), l)
}

/// Played lengths are in lowest terms.
pub proof fn lemma_dur_reduced(n: Note)
    requires
        n.0.wf(),
    ensures
        reduced(note_dur(n)),
{
    assert(n.0.display_q().d * n.0.tuplet_q().n > 0) by (nonlinear_arith)
        requires
            n.0.display_q().d > 0,
            n.0.tuplet_q().n > 0,
    ;
    crate::arith::lemma_canon(
        n.0.display_q().n * n.0.tuplet_q().d,
        n.0.display_q().d * n.0.tuplet_q().n,
    );
}

/// Appending a note adds its length to the total.
pub proof fn lemma_total_push(s: Seq<Note>, n: Note)
    ensures
        total_of(s.push(n)) == q_add(total_of(s), note_dur(n)),
        forall|i: int| 0 <= i <= s.len() ==> start_of(s.push(n), i) == #[trigger] start_of(s, i),
{
    let t = s.push(n);
    lemma_start_prefix(s, t, s.len() as int);
    assert(t[s.len() as int] == n);
    assert(start_of(t, s.len() as int) == start_of(s, s.len() as int));
    assert(total_of(t) == start_of(t, s.len() as int + 1));
    assert(start_of(t, s.len() as int + 1) == q_add(start_of(t, s.len() as int), note_dur(t[s.len() as int])));
}

/// Start times depend only on the notes before.
pub proof fn lemma_start_prefix(s: Seq<Note>, t: Seq<Note>, k: int)
    requires
        0 <= k <= s.len(),
        k <= t.len(),
        forall|i: int| 0 <= i < k ==> s[i] == t[i],
    ensures
        forall|i: int| 0 <= i <= k ==> start_of(s, i) == #[trigger] start_of(t, i),
    decreases k,
{
    if k > 0 {
        lemma_start_prefix(s, t, k - 1);
        assert(s[k - 1] == t[k - 1]);
        assert(start_of(s, k - 1) == start_of(t, k - 1));
        assert(start_of(s, k) == q_add(start_of(s, k - 1), note_dur(s[k - 1])));
        assert(start_of(t, k) == q_add(start_of(t, k - 1), note_dur(t[k - 1])));
    }
}

/// Appending a note: automatic rests leave `fixed` alone, others are added with their start.
pub proof fn lemma_fixed_push(s: Seq<Note>, n: Note)
    ensures
        fixed(s.push(n)) == (if n.1 is AutomaticRest {
            fixed(s)
        } else {
            fixed(s).push((total_of(s), n))
        }),

{
    assert(s.push(n).drop_last() =~= s);
}

/// Replacing a final automatic rest by another automatic rest leaves `fixed` alone.
pub proof fn lemma_fixed_amend(s: Seq<Note>, n: Note)
    requires
        s.len() > 0,
        s.last().1 is AutomaticRest,
        n.1 is AutomaticRest,
    ensures
        fixed(s.update(s.len() - 1, n)) == fixed(s),
        s.update(s.len() - 1, n).drop_last() == s.drop_last(),
{
    assert(s.update(s.len() - 1, n).drop_last() =~= s.drop_last());
}

/// Start times on a grid: with every length on grid `l`, start `i` is a whole number of
/// steps, no more than the total.
pub proof fn lemma_starts_on_grid(s: Seq<Note>, l: int, i: int) -> (x: int)
    requires
        l > 0,
        0 <= i <= s.len(),
        notes_ok(s),
        notes_on(s, l),
    ensures
        start_of(s, i) == from_tick(x, l),
        0 <= x,
        i > 0 ==> x > 0,
    decreases i,
{
    if i == 0 {
        lemma_zero_tick(l);
        0
    } else {
        let y = lemma_starts_on_grid(s, l, i - 1);
        let n = s[i - 1];
        assert(note_ok(n));
        assert(on_grid(note_dur(n), l));
        lemma_dur_reduced(n);
        crate::arith::lemma_grid_determined(note_dur(n), l);
        crate::arith::lemma_grid_bounds(note_dur(n), l);
        let d = tick(note_dur(n), l);
        lemma_ticks(y, d, l);
        y + d
    }
}

/// Zero on any grid.
pub proof fn lemma_zero_tick(l: int)
    requires
        l > 0,
    ensures
        q_int(0) == from_tick(0, l),
        tick(q_int(0), l) == 0,
        on_grid(q_int(0), l),
{
    crate::arith::lemma_gcd_one(0);
    crate::arith::lemma_grid_determined(q_int(0), l);
    assert(0 * (l / 1) == 0) by (nonlinear_arith);
}

/// An exclusive, growing counter of bar contents: every later start is larger.
pub proof fn lemma_starts_grow(s: Seq<Note>, l: int, i: int, j: int)
    requires
        l > 0,
        0 <= i < j <= s.len(),
        notes_ok(s),
        notes_on(s, l),
    ensures
        crate::arith::q_lt(start_of(s, i), start_of(s, j)),
    decreases j,
{
    let xi = lemma_starts_on_grid(s, l, i);
    let xj1 = lemma_starts_on_grid(s, l, j - 1);
    let xj = lemma_starts_on_grid(s, l, j);
    let n = s[j - 1];
    assert(note_ok(n));
    assert(on_grid(note_dur(n), l));
    lemma_dur_reduced(n);
    crate::arith::lemma_grid_determined(note_dur(n), l);
    crate::arith::lemma_grid_bounds(note_dur(n), l);
    let d = tick(note_dur(n), l);
    lemma_ticks(xj1, d, l);
    lemma_ticks(xj, xj1 + d, l);
    assert(start_of(s, j) == q_add(start_of(s, j - 1), note_dur(s[j - 1])));
    assert(xj == xj1 + d);
    lemma_ticks(xi, xj1, l);
    if i < j - 1 {
        lemma_starts_grow(s, l, i, j - 1);
    }
    assert(xi <= xj1);
    lemma_ticks(xi, xj, l);
}

/// `a` divides `c` when `a` divides `b` and `b` divides `c` (all positive).
pub(crate) proof fn lemma_divides_trans(a: int, b: int, c: int)
    requires
        a > 0,
        b > 0,
        b % a == 0,
        c % b == 0,
    ensures
        c % a == 0,
{
    vstd::arithmetic::div_mod::lemma_fundamental_div_mod(b, a);
    vstd::arithmetic::div_mod::lemma_fundamental_div_mod(c, b);
    let k1 = b / a;
    let k2 = c / b;
    assert(c == a * (k1 * k2)) by (nonlinear_arith)
        requires
            b == a * k1,
            c == b * k2,
    ;
    crate::arith::lemma_multiple_mod(a, k1 * k2);
}

/// Tick counts within a bar on a usable grid stay far from the limits of `i64`.
pub(crate) proof fn lemma_grid_scale(g: int)
    requires
        grid_ok(g),
    ensures
        1 <= g / 32,
        255 * 128 * (g / 32) <= 0x4000_0000,
{
    assert(255 * 128 * (g / 32) <= 0x4000_0000) by (nonlinear_arith)
        requires
            0 < g <= 0x10_0000,
    ;
    vstd::arithmetic::div_mod::lemma_fundamental_div_mod(g, 32);
}

/// A value on the metre grid, counted in steps of a finer grid `g`.
pub proof fn lemma_refine32(x: int, g: int)
    requires
        grid_ok(g),
    ensures
        from_tick(x, 32) == from_tick(x * (g / 32), g),
        on_grid(from_tick(x, 32), g),
        tick(from_tick(x, 32), g) == x * (g / 32),
{
    lemma_from_tick(x, 32);
    vstd::arithmetic::div_mod::lemma_fundamental_div_mod(g, 32);
    lemma_grid_refine(from_tick(x, 32), 32, g / 32);
    crate::arith::lemma_grid_determined(from_tick(x, 32), g);
}

/// Played length of a note rebuilt with no tuplet: its drawn length.
pub(crate) proof fn lemma_plain_dur(x: Q)
    requires
        reduced(x),
    ensures
        crate::arith::q_div(x, q_int(1)) == x,
{
    crate::arith::lemma_canon_reduced(x);
    assert(crate::arith::q_div(x, q_int(1)) == canon(x.n * 1, x.d * 1));
}

/// The least common multiple of `acc` and the denominators of the played lengths of the first
/// `i` notes of `s`.
pub open spec fn denoms_lcm(s: Seq<Note>, acc: nat, i: int) -> nat
    decreases i,
{
    if i <= 0 {
        acc
    } else {
        crate::arith::lcm(denoms_lcm(s, acc, i - 1), note_dur(s[i - 1]).d as nat)
    }
}

/// The least common multiple of `acc` and the denominators of the played lengths of `notes`.
pub(crate) fn denom_lcm(notes: &Vec<Note>, acc: i64, Ghost(l): Ghost<int>) -> (g: i64)
    requires
        grid_ok(l),
        acc > 0,
        l % (acc as int) == 0,
        notes_ok(notes@),
        notes_on(notes@, l),
    ensures
        g == denoms_lcm(notes@, acc as nat, notes@.len() as int),
        g > 0,
        l % (g as int) == 0,
        (g as int) % (acc as int) == 0,
        notes_on(notes@, g as int),
{
    let mut g = acc;
    let mut i: usize = 0;
    proof {
        vstd::arithmetic::div_mod::lemma_mod_self_0(acc as int);
    }
    while i < notes.len()
        invariant
            grid_ok(l),
            acc > 0,
            notes_ok(notes@),
            notes_on(notes@, l),
            i <= notes@.len(),
            g > 0,
            l % (g as int) == 0,
            (g as int) % (acc as int) == 0,
            forall|j: int| 0 <= j < i ==> on_grid(#[trigger] note_dur(notes@[j]), g as int),
            g == denoms_lcm(notes@, acc as nat, i as int),
        decreases notes@.len() - i,
    {
        proof {
            assert(note_ok(notes@[i as int]));
            assert(on_grid(note_dur(notes@[i as int]), l));
        }
        let d = notes[i].0.duration().denom();
        let g2 = crate::rational::i64_lcm(g, d, Ghost(l));
        proof {
            crate::arith::lemma_lcm(g as nat, d as nat, l);
            lemma_divides_trans(acc as int, g as int, g2 as int);
            assert forall|j: int| 0 <= j < i + 1 implies on_grid(#[trigger] note_dur(notes@[j]), g2 as int) by {
                if j < i {
                    assert(on_grid(note_dur(notes@[j]), g as int));
                    lemma_divides_trans(note_dur(notes@[j]).d, g as int, g2 as int);
                }
            }
        }
        g = g2;
        i = i + 1;
    }
    g
}

/// The coarsest grid that is a multiple of `acc` and on which every length of `notes` lies.
pub(crate) fn grid_of(notes: &Vec<Note>, acc: i64, Ghost(l): Ghost<int>) -> (g: i64)
    requires
        grid_ok(l),
        grid_ok(acc as int),
        l % (acc as int) == 0,
        notes_ok(notes@),
        notes_on(notes@, l),
    ensures
        g == denoms_lcm(notes@, acc as nat, notes@.len() as int),
        grid_ok(g as int),
        l % (g as int) == 0,
        (g as int) % (acc as int) == 0,
        notes_on(notes@, g as int),
{
    let g = denom_lcm(notes, acc, Ghost(l));
    proof {
        vstd::arithmetic::div_mod::lemma_mod_is_zero(l as nat, g as nat);
        lemma_divides_trans(32, acc as int, g as int);
    }
    g
}

/// The number of `1 / g` steps in `q`.
pub(crate) fn ticks_of(q: Rational, g: i64) -> (x: i64)
    requires
        q.wf(),
        g > 0,
        on_grid(q@, g as int),
        -0x4000_0000_0000_0000 <= tick(q@, g as int) <= 0x4000_0000_0000_0000,
    ensures
        x == tick(q@, g as int),
        q@ == from_tick(x as int, g as int),
{
    proof {
        crate::arith::lemma_grid_determined(q@, g as int);
    }
    q.numer() * (g / q.denom())
}

/// The value of `x` steps of `1 / g`.
pub(crate) fn rational_of(x: i64, g: i64) -> (r: Rational)
    requires
        grid_ok(g as int),
        -0x4000_0000_0000_0000 <= x <= 0x4000_0000_0000_0000,
    ensures
        r.wf(),
        r@ == from_tick(x as int, g as int),
{
    proof {
        lemma_tick_fits(x as int, g as int);
    }
    Rational::new(x, g)
}

/// The automatic rest drawn as `x` steps of `1 / g`, without a tuplet.
pub open spec fn auto_rest(x: int, g: int) -> Note {
    (crate::duration::plain_spec(from_tick(x, g)), Lifetime::AutomaticRest)
}

/// An automatic rest lasting `x` steps of `1 / g`, drawn without a tuplet.
pub(crate) fn rest_of(x: i64, g: i64) -> (n: Note)
    requires
        grid_ok(g as int),
        0 < x <= 0x4000_0000_0000_0000,
    ensures
        note_ok(n),
        n.1 is AutomaticRest,
        note_dur(n) == from_tick(x as int, g as int),
        n.0.display_q() == from_tick(x as int, g as int),
        n.0.tuplet_q() == q_int(1),
        !n.0.is_whole_rest(),
        n == auto_rest(x as int, g as int),
{
    let r = rational_of(x, g);
    proof {
        lemma_from_tick(x as int, g as int);
        lemma_plain_dur(r@);
        crate::arith::lemma_grid_bounds(r@, g as int);
    }
    let n = (Duration::exact(r, None), Lifetime::AutomaticRest);
    proof {
        crate::duration::lemma_plain_spec(n.0, from_tick(x as int, g as int));
    }
    n
}

/// The starts of the segments (and the end of the bar) in steps of `1 / g`.
pub open spec fn div_tick(m: Metre, j: int, g: int) -> int {
    crate::metre::start_ticks(m.segments(), j) * (g / 32)
}

/// Segment starts on a fine grid grow strictly and stay within the bar.
pub(crate) proof fn lemma_div_ticks(m: Metre, g: int, i: int, j: int)
    requires
        m.wf(),
        grid_ok(g),
        0 <= i <= j <= m.segments().len(),
    ensures
        0 <= div_tick(m, i, g) <= div_tick(m, j, g),
        i < j ==> div_tick(m, i, g) < div_tick(m, j, g),
        div_tick(m, j, g) <= 255 * 128 * (g / 32),
        m.start_q(i) == from_tick(div_tick(m, i, g), g),
        div_tick(m, 0, g) == 0,
{
    crate::metre::lemma_start_ticks(m.segments(), i, j);
    crate::metre::lemma_start_ticks(m.segments(), j, j);
    let k = g / 32;
    vstd::arithmetic::div_mod::lemma_fundamental_div_mod(g, 32);
    assert(k >= 1);
    let a = crate::metre::start_ticks(m.segments(), i);
    let b = crate::metre::start_ticks(m.segments(), j);
    assert(0 <= a * k <= b * k) by (nonlinear_arith)
        requires
            0 <= a <= b,
            k >= 1,
    ;
    assert(a < b ==> a * k < b * k) by (nonlinear_arith)
        requires
            k >= 1,
    ;
    assert(b * k <= 255 * 128 * k) by (nonlinear_arith)
        requires
            b <= 128 * j,
            j <= 255,
            k >= 1,
    ;
    lemma_refine32(a, g);
}

/// `fixed` is empty exactly when every note is an automatic rest.
pub proof fn lemma_fixed_empty(s: Seq<Note>)
    ensures
        (fixed(s).len() == 0) == (forall|j: int| 0 <= j < s.len() ==> (#[trigger] s[j]).1 is AutomaticRest),
    decreases s.len(),
{
    if s.len() > 0 {
        lemma_fixed_empty(s.drop_last());
        if !(s.last().1 is AutomaticRest) {
            assert(!(s[s.len() - 1].1 is AutomaticRest));
        } else {
            assert forall|j: int| 0 <= j < s.len() - 1 implies (#[trigger] s[j]).1 is AutomaticRest <==> s.drop_last()[j].1 is AutomaticRest by {
            }
            if (forall|j: int| 0 <= j < s.drop_last().len() ==> (#[trigger] s.drop_last()[j]).1 is AutomaticRest) {
                assert forall|j: int| 0 <= j < s.len() implies (#[trigger] s[j]).1 is AutomaticRest by {
                    if j < s.len() - 1 {
                        assert(s.drop_last()[j] == s[j]);
                    }
                }
            } else {
                let j = choose|j: int| 0 <= j < s.drop_last().len() && !((#[trigger] s.drop_last()[j]).1 is AutomaticRest);
                assert(s[j] == s.drop_last()[j]);
            }
        }
    }
}

/// The last note of a sequence on a grid lasts no longer than the whole sequence.
pub(crate) proof fn lemma_last_ticks(s: Seq<Note>, g: int, t: int) -> (x: int)
    requires
        grid_ok(g),
        s.len() > 0,
        notes_ok(s),
        notes_on(s, g),
        total_of(s) == from_tick(t, g),
    ensures
        start_of(s, s.len() - 1) == from_tick(x, g),
        0 <= x,
        note_dur(s.last()) == from_tick(t - x, g),
        0 < t - x <= t,
{
    let x = lemma_starts_on_grid(s, g, s.len() - 1);
    let n = s[s.len() - 1];
    assert(note_ok(n));
    assert(on_grid(note_dur(n), g));
    lemma_dur_reduced(n);
    crate::arith::lemma_grid_determined(note_dur(n), g);
    crate::arith::lemma_grid_bounds(note_dur(n), g);
    let d = tick(note_dur(n), g);
    lemma_ticks(x, d, g);
    lemma_ticks(x + d, t, g);
    x
}

/// The total length of `s`, in steps of `1 / g`.
pub open spec fn tsum(s: Seq<Note>, g: int) -> int
    decreases s.len(),
{
    if s.len() == 0 {
        0
    } else {
        tsum(s.drop_last(), g) + tick(note_dur(s.last()), g)
    }
}

/// On a grid, the total is the sum of the step counts.
pub proof fn lemma_tsum(s: Seq<Note>, g: int)
    requires
        g > 0,
        notes_ok(s),
        notes_on(s, g),
    ensures
        total_of(s) == from_tick(tsum(s, g), g),
        tsum(s, g) >= s.len(),
    decreases s.len(),
{
    if s.len() == 0 {
        lemma_zero_tick(g);
    } else {
        let t = s.drop_last();
        assert forall|i: int| 0 <= i < t.len() implies #[trigger] note_ok(t[i]) && on_grid(note_dur(t[i]), g) by {
            assert(t[i] == s[i]);
            assert(note_ok(s[i]));
            assert(on_grid(note_dur(s[i]), g));
        }
        lemma_tsum(t, g);
        let n = s.last();
        assert(note_ok(s[s.len() - 1]));
        assert(on_grid(note_dur(s[s.len() - 1]), g));
        lemma_dur_reduced(n);
        crate::arith::lemma_grid_determined(note_dur(n), g);
        crate::arith::lemma_grid_bounds(note_dur(n), g);
        lemma_ticks(tsum(t, g), tick(note_dur(n), g), g);
        assert(s =~= t.push(n));
        lemma_total_push(t, n);
    }
}

/// Step counts add up over a concatenation.
pub proof fn lemma_tsum_concat(a: Seq<Note>, b: Seq<Note>, g: int)
    ensures
        tsum(a + b, g) == tsum(a, g) + tsum(b, g),
    decreases b.len(),
{
    if b.len() == 0 {
        assert(a + b =~= a);
    } else {
        lemma_tsum_concat(a, b.drop_last(), g);
        assert((a + b).drop_last() =~= a + b.drop_last());
        assert((a + b).last() == b.last());
    }
}

/// Automatic rests at the end add nothing to `fixed`.
pub proof fn lemma_fixed_auto_suffix(pre: Seq<Note>, mid: Seq<Note>)
    requires
        forall|i: int| 0 <= i < mid.len() ==> (#[trigger] mid[i]).1 is AutomaticRest,
    ensures
        fixed(pre + mid) == fixed(pre),
    decreases mid.len(),
{
    if mid.len() == 0 {
        assert(pre + mid =~= pre);
    } else {
        assert((pre + mid).drop_last() =~= pre + mid.drop_last());
        assert((pre + mid).last() == mid[mid.len() - 1]);
        lemma_fixed_auto_suffix(pre, mid.drop_last());
    }
}

/// Replacing automatic rests by other automatic rests of the same total length keeps `fixed`.
pub proof fn lemma_fixed_replace(pre: Seq<Note>, mid1: Seq<Note>, mid2: Seq<Note>, post: Seq<Note>, g: int)
    requires
        g > 0,
        forall|i: int| 0 <= i < mid1.len() ==> (#[trigger] mid1[i]).1 is AutomaticRest,
        forall|i: int| 0 <= i < mid2.len() ==> (#[trigger] mid2[i]).1 is AutomaticRest,
        tsum(mid1, g) == tsum(mid2, g),
        notes_ok(pre + mid1 + post),
        notes_on(pre + mid1 + post, g),
        notes_ok(pre + mid2 + post),
        notes_on(pre + mid2 + post, g),
    ensures
        fixed(pre + mid1 + post) == fixed(pre + mid2 + post),
        tsum(pre + mid1 + post, g) == tsum(pre + mid2 + post, g),
    decreases post.len(),
{
    lemma_tsum_concat(pre + mid1, post, g);
    lemma_tsum_concat(pre + mid2, post, g);
    lemma_tsum_concat(pre, mid1, g);
    lemma_tsum_concat(pre, mid2, g);
    if post.len() == 0 {
        assert(pre + mid1 + post =~= pre + mid1);
        assert(pre + mid2 + post =~= pre + mid2);
        lemma_fixed_auto_suffix(pre, mid1);
        lemma_fixed_auto_suffix(pre, mid2);
    } else {
        let p2 = post.drop_last();
        let y1 = pre + mid1 + p2;
        let y2 = pre + mid2 + p2;
        assert((pre + mid1 + post).drop_last() =~= y1);
        assert((pre + mid2 + post).drop_last() =~= y2);
        assert((pre + mid1 + post).last() == post.last());
        assert((pre + mid2 + post).last() == post.last());
        assert forall|i: int| 0 <= i < y1.len() implies #[trigger] note_ok(y1[i]) && on_grid(note_dur(y1[i]), g) by {
            assert(y1[i] == (pre + mid1 + post)[i]);
            assert(note_ok((pre + mid1 + post)[i]));
            assert(on_grid(note_dur((pre + mid1 + post)[i]), g));
        }
        assert forall|i: int| 0 <= i < y2.len() implies #[trigger] note_ok(y2[i]) && on_grid(note_dur(y2[i]), g) by {
            assert(y2[i] == (pre + mid2 + post)[i]);
            assert(note_ok((pre + mid2 + post)[i]));
            assert(on_grid(note_dur((pre + mid2 + post)[i]), g));
        }
        lemma_fixed_replace(pre, mid1, mid2, p2, g);
        lemma_tsum(y1, g);
        lemma_tsum(y2, g);
    }
}

/// Drawing a played length in a tuplet and playing it back gives the same length.
pub proof fn lemma_tuplet_round_trip(a: Q, t: Q)
    requires
        reduced(a),
        reduced(t),
        t.n > 0,
    ensures
        crate::arith::q_div(crate::arith::q_mul(a, t), t) == a,
{
    let n = a.n * t.n;
    let d = a.d * t.d;
    assert(d > 0) by (nonlinear_arith)
        requires
            d == a.d * t.d,
            a.d > 0,
            t.d > 0,
    ;
    crate::arith::lemma_canon(n, d);
    let c = canon(n, d);
    assert(c.d * t.n != 0) by (nonlinear_arith)
        requires
            c.d > 0,
            t.n > 0,
    ;
    assert((c.n * t.d) * a.d == a.n * (c.d * t.n)) by (nonlinear_arith)
        requires
            c.n * d == n * c.d,
            n == a.n * t.n,
            d == a.d * t.d,
            t.d > 0,
    ;
    crate::arith::lemma_canon_same_as(c.n * t.d, c.d * t.n, a);
    crate::arith::lemma_canon(c.n * t.d, c.d * t.n);
    crate::arith::lemma_reduced_unique(canon(c.n * t.d, c.d * t.n), a);
}

/// A grid value drawn in a moderate tuplet is representable, and so is its played length.
pub proof fn lemma_tuplet_fits(x: int, g: int, t: Q)
    requires
        grid_ok(g),
        0 < x <= 0x4000_0000,
        reduced(t),
        0 < t.n <= max_tuplet(),
        t.d <= max_tuplet(),
    ensures
        crate::rational::fits(crate::arith::q_mul(from_tick(x, g), t)),
        crate::rational::fits(crate::arith::q_div(crate::arith::q_mul(from_tick(x, g), t), t)),
        crate::arith::q_div(crate::arith::q_mul(from_tick(x, g), t), t) == from_tick(x, g),
        crate::arith::q_mul(from_tick(x, g), t).n > 0,
{
    let a = from_tick(x, g);
    lemma_tick_fits(x, g);
    crate::arith::lemma_grid_bounds(a, g);
    let n = a.n * t.n;
    let d = a.d * t.d;
    assert(0 < n <= 0x4000_0000_0000int && 0 < d <= 0x10_0000_0000int) by (nonlinear_arith)
        requires
            0 < a.n <= x,
            x <= 0x4000_0000,
            0 < t.n <= 0x1_0000,
            0 < a.d <= g,
            g <= 0x10_0000,
            0 < t.d <= 0x1_0000,
            n == a.n * t.n,
            d == a.d * t.d,
    ;
    crate::arith::lemma_canon_fits(n, d, 0x4000_0000_0000int, 0x10_0000_0000int);
    crate::arith::lemma_canon(n, d);
    let c = canon(n, d);
    assert(c.n > 0) by (nonlinear_arith)
        requires
            c.n * d == n * c.d,
            n > 0,
            d > 0,
            c.d > 0,
    ;
    lemma_tuplet_round_trip(a, t);
}

/// The division that a time within the bar falls in: the segment whose span holds it.
pub proof fn lemma_division_found(m: Metre, g: int, x: int, i: int) -> (j: int)
    requires
        m.wf(),
        grid_ok(g),
        0 <= i < m.segments().len(),
        div_tick(m, i, g) <= x < div_tick(m, m.segments().len() as int, g),
    ensures
        crate::metre::division_index(m.segments(), from_tick(x, g), i) == Some(j),
        i <= j < m.segments().len(),
        div_tick(m, j, g) <= x < div_tick(m, j + 1, g),
    decreases m.segments().len() - i,
{
    lemma_div_ticks(m, g, i + 1, m.segments().len() as int);
    lemma_ticks(x, div_tick(m, i + 1, g), g);
    if x < div_tick(m, i + 1, g) {
        i
    } else {
        lemma_division_found(m, g, x, i + 1)
    }
}

/// The least common multiple of the beat denominators is a multiple of each of them.
pub proof fn lemma_beat_lcm_divides(segs: Seq<crate::metre::MetreSegment>, n: int, j: int)
    requires
        0 <= j < n <= segs.len(),
        forall|k: int| 0 <= k < segs.len() ==> #[trigger] segs[k].wf(),
    ensures
        crate::metre::beat_lcm(segs, n) > 0,
        (crate::metre::beat_lcm(segs, n) as int) % from_tick(segs[j].ticks() / segs[j].subdivisions_spec(), 32).d == 0,
    decreases n,
{
    let b = from_tick(segs[n - 1].ticks() / segs[n - 1].subdivisions_spec(), 32);
    lemma_from_tick(segs[n - 1].ticks() / segs[n - 1].subdivisions_spec(), 32);
    let prev = crate::metre::beat_lcm(segs, n - 1);
    if n - 1 > 0 {
        if j < n - 1 {
            lemma_beat_lcm_divides(segs, n - 1, j);
        } else {
            lemma_beat_lcm_divides(segs, n - 1, 0);
        }
    }
    assert(prev > 0);
    let pi = prev as int;
    let m: int = pi * b.d;
    assert(m > 0) by (nonlinear_arith)
        requires
            m == pi * b.d,
            pi > 0,
            b.d > 0,
    ;
    crate::arith::lemma_multiple_mod(b.d, pi);
    assert(m % b.d == 0) by {
        assert(m == b.d * pi) by (nonlinear_arith)
            requires
                m == pi * b.d,
        ;
    }
    crate::arith::lemma_multiple_mod(pi, b.d);
    crate::arith::lemma_lcm(prev, b.d as nat, m);
    if j < n - 1 {
        let bj = from_tick(segs[j].ticks() / segs[j].subdivisions_spec(), 32);
        lemma_from_tick(segs[j].ticks() / segs[j].subdivisions_spec(), 32);
        lemma_divides_trans(bj.d, prev as int, crate::metre::beat_lcm(segs, n) as int);
    }
}

/// A copy of `v`.
pub(crate) fn copy_vec<T: Copy>(v: &Vec<T>) -> (r: Vec<T>)
    ensures
        r@ == v@,
{
    let mut r: Vec<T> = Vec::new();
    let mut i: usize = 0;
    while i < v.len()
        invariant
            i <= v@.len(),
            r@ == v@.subrange(0, i as int),
        decreases v@.len() - i,
    {
        r.push(v[i]);
        i = i + 1;
        proof {
            assert(r@ =~= v@.subrange(0, i as int));
        }
    }
    proof {
        assert(r@ =~= v@);
    }
    r
}

/// `v` without its first element.
pub(crate) fn tail_vec<T: Copy>(v: &Vec<T>) -> (r: Vec<T>)
    requires
        v@.len() > 0,
    ensures
        r@ == v@.drop_first(),
{
    let mut r: Vec<T> = Vec::new();
    let mut i: usize = 1;
    while i < v.len()
        invariant
            1 <= i <= v@.len(),
            r@ == v@.subrange(1, i as int),
        decreases v@.len() - i,
    {
        r.push(v[i]);
        i = i + 1;
        proof {
            assert(r@ =~= v@.subrange(1, i as int));
        }
    }
    proof {
        assert(r@ =~= v@.drop_first());
    }
    r
}

/// A tuplet ratio that a note may carry.
pub open spec fn tuplet_kind_ok(t: Rational) -> bool {
    &&& t.wf()
    &&& 0 < t@.n <= max_tuplet()
    &&& t@.d <= max_tuplet()
}

/// `q` is the value of one of `r`.
pub open spec fn has_kind(r: Seq<Rational>, q: Q) -> bool {
    exists|j: int| 0 <= j < r.len() && (#[trigger] r[j])@ == q
}

/// `q` is the tuplet ratio of one of the first `n` notes.
pub open spec fn used_kind(notes: Seq<Note>, n: int, q: Q) -> bool {
    exists|a: int| 0 <= a < n && (#[trigger] notes[a]).0.tuplet_q() == q
}

/// The tuplet ratios of `notes`, each once, in increasing order.
pub(crate) fn tuplet_kinds(notes: &Vec<Note>) -> (r: Vec<Rational>)
    requires
        notes_ok(notes@),
    ensures
        forall|i: int| 0 <= i < r@.len() ==> tuplet_kind_ok(#[trigger] r@[i]),
        forall|i: int, j: int| 0 <= i < j < r@.len() ==> crate::arith::q_lt(r@[i]@, r@[j]@),
        forall|i: int| 0 <= i < notes@.len() ==> has_kind(r@, (#[trigger] notes@[i]).0.tuplet_q()),
        forall|j: int| 0 <= j < r@.len() ==> used_kind(notes@, notes@.len() as int, (#[trigger] r@[j])@),
        notes@.len() > 0 ==> r@.len() > 0,
        r@.len() <= notes@.len(),
{
    let mut r: Vec<Rational> = Vec::new();
    let mut i: usize = 0;
    while i < notes.len()
        invariant
            notes_ok(notes@),
            i <= notes@.len(),
            r@.len() <= i,
            i > 0 ==> r@.len() > 0,
            forall|a: int| 0 <= a < r@.len() ==> tuplet_kind_ok(#[trigger] r@[a]),
            forall|a: int, b: int| 0 <= a < b < r@.len() ==> crate::arith::q_lt(r@[a]@, r@[b]@),
            forall|a: int| 0 <= a < i ==> has_kind(r@, (#[trigger] notes@[a]).0.tuplet_q()),
            forall|j: int| 0 <= j < r@.len() ==> used_kind(notes@, i as int, (#[trigger] r@[j])@),
        decreases notes@.len() - i,
    {
        proof {
            assert(note_ok(notes@[i as int]));
        }
        let t = notes[i].0.tuplet();
        let mut pos: usize = 0;
        while pos < r.len() && r[pos].lt(&t)
            invariant
                pos <= r@.len(),
                t.wf(),
                forall|a: int| 0 <= a < r@.len() ==> tuplet_kind_ok(#[trigger] r@[a]),
                forall|a: int| 0 <= a < pos ==> crate::arith::q_lt((#[trigger] r@[a])@, t@),
            decreases r@.len() - pos,
        {
            pos = pos + 1;
        }
        let ghost before = r@;
        assert(forall|a: int, b: int| 0 <= a < b < before.len() ==> crate::arith::q_lt(before[a]@, before[b]@));
        if pos < r.len() && r[pos].eq(&t) {
        } else {
            r.insert(pos, t);
            proof {
                assert forall|a: int, b: int| 0 <= a < b < r@.len() implies crate::arith::q_lt(r@[a]@, r@[b]@) by {
                    if pos < before.len() {
                        assert(!crate::arith::q_lt(before[pos as int]@, t@));
                        assert(before[pos as int]@ != t@);
                        assert(tuplet_kind_ok(before[pos as int]));
                        if crate::arith::q_le(before[pos as int]@, t@) {
                            crate::arith::lemma_reduced_unique(before[pos as int]@, t@);
                        }
                    }
                    if b < pos {
                        assert(r@[a] == before[a] && r@[b] == before[b]);
                    } else if b == pos {
                        assert(r@[a] == before[a]);
                    } else if a < pos {
                        assert(r@[a] == before[a] && r@[b] == before[b - 1]);
                        if b - 1 > pos {
                            assert(crate::arith::q_lt(before[pos as int]@, before[b - 1]@));
                            crate::arith::lemma_q_lt_trans(t@, before[pos as int]@, before[b - 1]@);
                        }
                        crate::arith::lemma_q_lt_trans(before[a]@, t@, before[b - 1]@);
                    } else if a == pos {
                        assert(r@[b] == before[b - 1]);
                        if b - 1 > pos {
                            assert(crate::arith::q_lt(before[pos as int]@, before[b - 1]@));
                            crate::arith::lemma_q_lt_trans(t@, before[pos as int]@, before[b - 1]@);
                        }
                    } else {
                        assert(r@[a] == before[a - 1] && r@[b] == before[b - 1]);
                    }
                }
                assert forall|a: int| 0 <= a < r@.len() implies tuplet_kind_ok(#[trigger] r@[a]) by {
                    if a < pos {
                        assert(r@[a] == before[a]);
                    } else if a > pos {
                        assert(r@[a] == before[a - 1]);
                    }
                }
            }
        }
        proof {
            assert forall|a: int| 0 <= a < i + 1 implies has_kind(r@, (#[trigger] notes@[a]).0.tuplet_q()) by {
                if a < i {
                    assert(has_kind(before, notes@[a].0.tuplet_q()));
                    let j0 = choose|j: int| 0 <= j < before.len() && (#[trigger] before[j])@ == notes@[a].0.tuplet_q();
                    if r@.len() == before.len() {
                        assert(r@[j0] == before[j0]);
                    } else if j0 < pos {
                        assert(r@[j0] == before[j0]);
                    } else {
                        assert(r@[j0 + 1] == before[j0]);
                    }
                } else {
                    if r@.len() == before.len() {
                        assert(r@[pos as int] == before[pos as int]);
                    }
                    assert(r@[pos as int]@ == t@);
                }
            }
            assert forall|j: int| 0 <= j < r@.len() implies used_kind(notes@, i + 1, (#[trigger] r@[j])@) by {
                if r@.len() == before.len() {
                    assert(r@[j] == before[j]);
                    assert(used_kind(notes@, i as int, before[j]@));
                    let a0 = choose|a: int| 0 <= a < i && (#[trigger] notes@[a]).0.tuplet_q() == before[j]@;
                    assert(0 <= a0 < i + 1 && notes@[a0].0.tuplet_q() == r@[j]@);
                } else if j < pos {
                    assert(r@[j] == before[j]);
                    assert(used_kind(notes@, i as int, before[j]@));
                    let a0 = choose|a: int| 0 <= a < i && (#[trigger] notes@[a]).0.tuplet_q() == before[j]@;
                    assert(0 <= a0 < i + 1 && notes@[a0].0.tuplet_q() == r@[j]@);
                } else if j == pos {
                    assert(r@[j]@ == notes@[i as int].0.tuplet_q());
                } else {
                    assert(r@[j] == before[j - 1]);
                    assert(used_kind(notes@, i as int, before[j - 1]@));
                    let a0 = choose|a: int| 0 <= a < i && (#[trigger] notes@[a]).0.tuplet_q() == before[j - 1]@;
                    assert(0 <= a0 < i + 1 && notes@[a0].0.tuplet_q() == r@[j]@);
                }
            }
        }
        i = i + 1;
    }
    r
}

/// The order of notes: by duration, then by lifetime; -1, 0 or 1.
pub open spec fn note_order(a: Note, b: Note) -> int {
    if duration_order(a.0, b.0) != 0 {
        duration_order(a.0, b.0)
    } else {
        lifetime_order(a.1, b.1)
    }
}

/// The lexicographic order of note lists, a proper prefix first; -1, 0 or 1.
pub open spec fn notes_order(a: Seq<Note>, b: Seq<Note>) -> int
    decreases a.len(),
{
    if a.len() == 0 || b.len() == 0 {
        if a.len() < b.len() {
            -1
        } else if a.len() > b.len() {
            1
        } else {
            0
        }
    } else if note_order(a[0], b[0]) != 0 {
        note_order(a[0], b[0])
    } else {
        notes_order(a.drop_first(), b.drop_first())
    }
}

/// On well-formed notes the order is a strict total order.
pub proof fn lemma_note_order(a: Note, b: Note, c: Note)
    requires
        a.0.wf(),
        b.0.wf(),
        c.0.wf(),
    ensures
        note_order(a, b) == -note_order(b, a),
        -1 <= note_order(a, b) <= 1,
        note_order(a, b) == 0 <==> a == b,
        note_order(a, b) > 0 && note_order(b, c) > 0 ==> note_order(a, c) > 0,
{
    crate::duration::lemma_duration_order(a.0, b.0, c.0);
    crate::duration::lemma_duration_order(b.0, c.0, a.0);
    crate::duration::lemma_duration_order(a.0, c.0, b.0);
    crate::lifetime::lemma_lifetime_order(a.1, b.1, c.1);
    crate::lifetime::lemma_lifetime_order(b.1, c.1, a.1);
    crate::lifetime::lemma_lifetime_order(a.1, c.1, b.1);
}

/// On lists of well-formed notes the order is a strict total order.
pub proof fn lemma_notes_order(a: Seq<Note>, b: Seq<Note>, c: Seq<Note>)
    requires
        notes_ok(a),
        notes_ok(b),
        notes_ok(c),
    ensures
        notes_order(a, b) == -notes_order(b, a),
        -1 <= notes_order(a, b) <= 1,
        notes_order(a, b) == 0 <==> a == b,
        notes_order(a, b) > 0 && notes_order(b, c) > 0 ==> notes_order(a, c) > 0,
    decreases a.len(),
{
    if a.len() > 0 && b.len() > 0 && c.len() > 0 {
        assert(note_ok(a[0]) && note_ok(b[0]) && note_ok(c[0]));
        lemma_note_order(a[0], b[0], c[0]);
        lemma_note_order(b[0], c[0], a[0]);
        lemma_note_order(a[0], c[0], b[0]);
        lemma_note_order(b[0], a[0], c[0]);
        assert(notes_ok(a.drop_first()) && notes_ok(b.drop_first()) && notes_ok(c.drop_first())) by {
            assert forall|i: int| 0 <= i < a.len() - 1 implies #[trigger] note_ok(a.drop_first()[i]) by {
                assert(note_ok(a[i + 1]));
            }
            assert forall|i: int| 0 <= i < b.len() - 1 implies #[trigger] note_ok(b.drop_first()[i]) by {
                assert(note_ok(b[i + 1]));
            }
            assert forall|i: int| 0 <= i < c.len() - 1 implies #[trigger] note_ok(c.drop_first()[i]) by {
                assert(note_ok(c[i + 1]));
            }
        }
        lemma_notes_order(a.drop_first(), b.drop_first(), c.drop_first());
        if a[0] == b[0] && a.drop_first() == b.drop_first() {
            assert(a =~= seq![a[0]] + a.drop_first());
            assert(b =~= seq![b[0]] + b.drop_first());
        }
        if a == b {
            assert(a.drop_first() =~= b.drop_first());
        }
    } else if a.len() > 0 && b.len() > 0 {
        assert(note_ok(a[0]) && note_ok(b[0]));
        lemma_note_order(a[0], b[0], a[0]);
        lemma_note_order(b[0], a[0], b[0]);
        if a == b {
            assert(a.drop_first() =~= b.drop_first());
        }
        if a[0] == b[0] && a.drop_first() == b.drop_first() {
            assert(a =~= seq![a[0]] + a.drop_first());
            assert(b =~= seq![b[0]] + b.drop_first());
        }
        assert(notes_ok(a.drop_first()) && notes_ok(b.drop_first())) by {
            assert forall|i: int| 0 <= i < a.len() - 1 implies #[trigger] note_ok(a.drop_first()[i]) by {
                assert(note_ok(a[i + 1]));
            }
            assert forall|i: int| 0 <= i < b.len() - 1 implies #[trigger] note_ok(b.drop_first()[i]) by {
                assert(note_ok(b[i + 1]));
            }
        }
        lemma_notes_order(a.drop_first(), b.drop_first(), b.drop_first());
    } else if a.len() == 0 && b.len() == 0 {
        assert(a =~= b);
    }
}

/// Three-way comparison of notes: by duration, then by lifetime.
pub(crate) fn note_compare(a: &Note, b: &Note) -> (c: i8)
    requires
        a.0.wf(),
        b.0.wf(),
    ensures
        c == note_order(*a, *b),
        -1 <= c <= 1,
        c == 0 <==> *a == *b,
{
    let c = a.0.compare(&b.0);
    if c != 0 {
        c
    } else {
        a.1.compare(&b.1)
    }
}

/// Lexicographic three-way comparison of note lists; a proper prefix comes first.
pub(crate) fn notes_compare(a: &Vec<Note>, b: &Vec<Note>) -> (c: i8)
    requires
        notes_ok(a@),
        notes_ok(b@),
    ensures
        c == notes_order(a@, b@),
        -1 <= c <= 1,
        c == 0 <==> a@ == b@,
{
    let mut i: usize = 0;
    proof {
        assert(a@.subrange(0, a@.len() as int) =~= a@);
        assert(b@.subrange(0, b@.len() as int) =~= b@);
    }
    while i < a.len() && i < b.len()
        invariant
            notes_ok(a@),
            notes_ok(b@),
            i <= a@.len(),
            i <= b@.len(),
            forall|j: int| 0 <= j < i ==> a@[j] == b@[j],
            notes_order(a@, b@) == notes_order(
                a@.subrange(i as int, a@.len() as int),
                b@.subrange(i as int, b@.len() as int),
            ),
        decreases a@.len() - i,
    {
        proof {
            assert(note_ok(a@[i as int]));
            assert(note_ok(b@[i as int]));
            let sa = a@.subrange(i as int, a@.len() as int);
            let sb = b@.subrange(i as int, b@.len() as int);
            assert(sa[0] == a@[i as int] && sb[0] == b@[i as int]);
            assert(sa.drop_first() =~= a@.subrange(i + 1, a@.len() as int));
            assert(sb.drop_first() =~= b@.subrange(i + 1, b@.len() as int));
        }
        let c = note_compare(&a[i], &b[i]);
        if c != 0 {
            return c;
        }
        i = i + 1;
    }
    proof {
        lemma_notes_order(a@, b@, b@);
    }
    if a.len() < b.len() {
        -1
    } else if a.len() > b.len() {
        1
    } else {
        proof {
            assert(a@ =~= b@);
        }
        0
    }
}

/// The step counts of the first notes add up.
pub(crate) proof fn lemma_tsum_prefix(s: Seq<Note>, g: int, j: int)
    requires
        g > 0,
        0 <= j < s.len(),
        notes_ok(s),
        notes_on(s, g),
    ensures
        tsum(s.subrange(0, j + 1), g) == tsum(s.subrange(0, j), g) + tick(note_dur(s[j]), g),
        tsum(s.subrange(0, j + 1), g) <= tsum(s, g),
        tick(note_dur(s[j]), g) > 0,
        tsum(s.subrange(0, j), g) >= 0,
{
    let a = s.subrange(0, j + 1);
    let c = s.subrange(j + 1, s.len() as int);
    assert(a.drop_last() =~= s.subrange(0, j));
    assert(s =~= a + c);
    lemma_tsum_concat(a, c, g);
    assert forall|i: int| 0 <= i < c.len() implies #[trigger] note_ok(c[i]) && on_grid(note_dur(c[i]), g) by {
        assert(c[i] == s[j + 1 + i]);
        assert(note_ok(s[j + 1 + i]));
        assert(on_grid(note_dur(s[j + 1 + i]), g));
    }
    let b = s.subrange(0, j);
    assert forall|i: int| 0 <= i < b.len() implies #[trigger] note_ok(b[i]) && on_grid(note_dur(b[i]), g) by {
        assert(b[i] == s[i]);
        assert(note_ok(s[i]));
        assert(on_grid(note_dur(s[i]), g));
    }
    lemma_tsum(c, g);
    lemma_tsum(b, g);
    assert(note_ok(s[j]));
    assert(on_grid(note_dur(s[j]), g));
    crate::arith::lemma_grid_bounds(note_dur(s[j]), g);
}

/// Concatenations of fitting notes fit.
pub(crate) proof fn lemma_notes_concat(a: Seq<Note>, b: Seq<Note>, g: int)
    requires
        notes_ok(a),
        notes_ok(b),
        notes_on(a, g),
        notes_on(b, g),
    ensures
        notes_ok(a + b),
        notes_on(a + b, g),
{
    assert forall|i: int| 0 <= i < (a + b).len() implies #[trigger] note_ok((a + b)[i]) && on_grid(note_dur((a + b)[i]), g) by {
        if i < a.len() {
            assert((a + b)[i] == a[i]);
            assert(note_ok(a[i]));
            assert(on_grid(note_dur(a[i]), g));
        } else {
            assert((a + b)[i] == b[i - a.len()]);
            assert(note_ok(b[i - a.len()]));
            assert(on_grid(note_dur(b[i - a.len()]), g));
        }
    }
}

/// The step count of a sequence is that of its first note plus the rest.
pub(crate) proof fn lemma_tsum_front(s: Seq<Note>, g: int)
    requires
        g > 0,
        s.len() > 0,
        notes_ok(s),
        notes_on(s, g),
    ensures
        tsum(s, g) == tick(note_dur(s[0]), g) + tsum(s.drop_first(), g),
        tsum(s.drop_first(), g) >= 0,
        tick(note_dur(s[0]), g) > 0,
{
    assert(s =~= seq![s[0]] + s.drop_first());
    lemma_tsum_concat(seq![s[0]], s.drop_first(), g);
    assert(seq![s[0]].drop_last() =~= Seq::<Note>::empty());
    assert(seq![s[0]].last() == s[0]);
    assert(tsum(seq![s[0]], g) == tsum(Seq::<Note>::empty(), g) + tick(note_dur(s[0]), g));
    assert forall|i: int| 0 <= i < s.drop_first().len() implies #[trigger] note_ok(s.drop_first()[i]) && on_grid(note_dur(s.drop_first()[i]), g) by {
        assert(s.drop_first()[i] == s[i + 1]);
        assert(note_ok(s[i + 1]));
        assert(on_grid(note_dur(s[i + 1]), g));
    }
    lemma_tsum(s.drop_first(), g);
    assert(note_ok(s[0]));
    assert(on_grid(note_dur(s[0]), g));
    crate::arith::lemma_grid_bounds(note_dur(s[0]), g);
}

/// An automatic rest of `x` steps drawn in tuplet `t`.
pub(crate) fn tuplet_rest(x: i64, g: i64, t: Rational, lifetime: Lifetime) -> (n: Note)
    requires
        grid_ok(g as int),
        0 < x <= 0x4000_0000,
        tuplet_kind_ok(t),
    ensures
        note_ok(n),
        n.1 == lifetime,
        note_dur(n) == from_tick(x as int, g as int),
        on_grid(note_dur(n), g as int),
        tick(note_dur(n), g as int) == x,
        n.0.tuplet_q() == t@,
        n.0.display_q() == crate::arith::q_mul(from_tick(x as int, g as int), t@),
        !n.0.is_whole_rest(),
{
    proof {
        lemma_tuplet_fits(x as int, g as int, t@);
        lemma_from_tick(x as int, g as int);
        lemma_tick_fits(x as int, g as int);
        crate::arith::lemma_grid_bounds(from_tick(x as int, g as int), g as int);
    }
    let shown = rational_of(x, g).mul(t);
    (Duration::exact(shown, Some(t)), lifetime)
}

/// A contained element stays contained after appending a note.
pub(crate) proof fn lemma_fixed_push_keeps(s: Seq<Note>, n: Note, x: (Q, Note))
    requires
        fixed(s).contains(x),
    ensures
        fixed(s.push(n)).contains(x),
{
    lemma_fixed_push(s, n);
    if !(n.1 is AutomaticRest) {
        let i = choose|i: int| 0 <= i < fixed(s).len() && fixed(s)[i] == x;
        assert(fixed(s.push(n))[i] == x);
    }
}

/// A note that is not an automatic rest, appended at the end, is in `fixed` with its start.
pub(crate) proof fn lemma_fixed_push_has(s: Seq<Note>, n: Note)
    requires
        !(n.1 is AutomaticRest),
    ensures
        fixed(s.push(n)).contains((total_of(s), n)),
{
    lemma_fixed_push(s, n);
    assert(fixed(s.push(n))[fixed(s).len() as int] == (total_of(s), n));
}

/// A note lasting `x` steps drawn without a tuplet, with lifetime `lifetime`.
pub(crate) fn plain_note(x: i64, g: i64, lifetime: Lifetime) -> (n: Note)
    requires
        grid_ok(g as int),
        0 < x <= 0x4000_0000_0000_0000,
    ensures
        note_ok(n),
        n.1 == lifetime,
        note_dur(n) == from_tick(x as int, g as int),
        on_grid(note_dur(n), g as int),
        tick(note_dur(n), g as int) == x,
        n == (crate::duration::plain_spec(from_tick(x as int, g as int)), lifetime),
{
    let r = rest_of(x, g);
    proof {
        lemma_from_tick(x as int, g as int);
    }
    (r.0, lifetime)
}

/// Appending a fitting note keeps a sequence fitting.
pub(crate) proof fn lemma_push_ok(s: Seq<Note>, n: Note, g: int)
    requires
        notes_ok(s),
        notes_on(s, g),
        note_ok(n),
        on_grid(note_dur(n), g),
    ensures
        notes_ok(s.push(n)),
        notes_on(s.push(n), g),
{
    assert forall|i: int| 0 <= i < s.push(n).len() implies #[trigger] note_ok(s.push(n)[i]) && on_grid(note_dur(s.push(n)[i]), g) by {
        if i < s.len() {
            assert(s.push(n)[i] == s[i]);
            assert(note_ok(s[i]));
            assert(on_grid(note_dur(s[i]), g));
        }
    }
}

/// `x` is a fixed note of `s`, with its start.
#[verifier::opaque]
pub open spec fn holds_fixed(s: Seq<Note>, x: (Q, Note)) -> bool {
    fixed(s).contains(x)
}

/// Every fixed note of `a` (with its start) is a fixed note of `b`.
#[verifier::opaque]
pub open spec fn keeps(a: Seq<Note>, b: Seq<Note>) -> bool {
    forall|x: (Q, Note)| holds_fixed(a, x) ==> #[trigger] holds_fixed(b, x)
}

pub(crate) proof fn lemma_keeps_trans(a: Seq<Note>, b: Seq<Note>, c: Seq<Note>)
    requires
        keeps(a, b),
        keeps(b, c),
    ensures
        keeps(a, c),
{
    reveal(keeps);
    assert forall|x: (Q, Note)| holds_fixed(a, x) implies #[trigger] holds_fixed(c, x) by {
        assert(holds_fixed(b, x));
    }
}

/// Note `kk` of `repl`, if it is not an automatic rest and, written from step `t0`, ends within
/// `bar_t` steps, is a fixed note of `new` at the step where it was written.
pub open spec fn wrote_one(new: Seq<Note>, repl: Seq<Note>, kk: int, t0: int, g: int, bar_t: int) -> bool {
    !(repl[kk].1 is AutomaticRest) && t0 + tsum(repl.subrange(0, kk + 1), g) <= bar_t ==> holds_fixed(
        new,
        (from_tick(t0 + tsum(repl.subrange(0, kk), g), g), repl[kk]),
    )
}

/// `wrote_one` holds for each of the first `k` notes of `repl`.
#[verifier::opaque]
pub open spec fn wrote(new: Seq<Note>, repl: Seq<Note>, k: int, t0: int, g: int, bar_t: int) -> bool {
    forall|kk: int| 0 <= kk < k ==> #[trigger] wrote_one(new, repl, kk, t0, g, bar_t)
}

pub(crate) proof fn lemma_wrote_keeps(new: Seq<Note>, new2: Seq<Note>, repl: Seq<Note>, k: int, t0: int, g: int, bar_t: int)
    requires
        wrote(new, repl, k, t0, g, bar_t),
        keeps(new, new2),
    ensures
        wrote(new2, repl, k, t0, g, bar_t),
{
    reveal(keeps);
    reveal(wrote);
    assert forall|kk: int| 0 <= kk < k implies #[trigger] wrote_one(new2, repl, kk, t0, g, bar_t) by {
        assert(wrote_one(new, repl, kk, t0, g, bar_t));
    }
}

pub(crate) proof fn lemma_wrote_extend(new: Seq<Note>, repl: Seq<Note>, k: int, t0: int, g: int, bar_t: int)
    requires
        0 <= k,
        wrote(new, repl, k, t0, g, bar_t),
        wrote_one(new, repl, k, t0, g, bar_t),
    ensures
        wrote(new, repl, k + 1, t0, g, bar_t),
{
    reveal(wrote);
    assert forall|kk: int| 0 <= kk < k + 1 implies #[trigger] wrote_one(new, repl, kk, t0, g, bar_t) by {
        if kk < k {
            assert(wrote_one(new, repl, kk, t0, g, bar_t));
        }
    }
}

/// `new` with note `rn` written at step `t`: whole if it ends by step `bar_t`, else cut short
/// there (and left out when nothing of it fits).
pub open spec fn write_note_spec(new: Seq<Note>, t: int, rn: Note, g: int, bar_t: int) -> Seq<Note> {
    if t + tick(note_dur(rn), g) <= bar_t {
        new.push(rn)
    } else if bar_t - t > 0 {
        new.push((crate::duration::plain_spec(from_tick(bar_t - t, g)), rn.1))
    } else {
        new
    }
}

/// `new` with the first `k` notes of `repl` written from step `t0`, up to step `bar_t`.
pub open spec fn write_repl_spec(new: Seq<Note>, t0: int, repl: Seq<Note>, g: int, bar_t: int, k: int) -> Seq<Note>
    decreases k,
{
    if k <= 0 {
        new
    } else {
        let t = t0 + tsum(repl.subrange(0, k - 1), g);
        write_note_spec(
            write_repl_spec(new, t0, repl, g, bar_t, k - 1),
            if t <= bar_t {
                t
            } else {
                bar_t
            },
            repl[k - 1],
            g,
            bar_t,
        )
    }
}

/// Appends `rn` (lasting `rd` steps) at step `t`, cut short at the end of the bar
/// (`bar_t` steps) and left out if nothing of it fits; returns the step reached.
pub(crate) fn write_note(new: &mut Vec<Note>, t: i64, rn: Note, rd: i64, g: i64, bar_t: i64) -> (t2: i64)
    requires
        grid_ok(g as int),
        0 <= t <= bar_t <= 0x4000_0000,
        0 < rd <= 0x4000_0000,
        note_ok(rn),
        on_grid(note_dur(rn), g as int),
        tick(note_dur(rn), g as int) == rd,
        notes_ok(old(new)@),
        notes_on(old(new)@, g as int),
        total_of(old(new)@) == from_tick(t as int, g as int),
    ensures
        t2 == (if t + rd <= bar_t { t + rd } else { bar_t as int }),
        total_of(final(new)@) == from_tick(t2 as int, g as int),
        notes_ok(final(new)@),
        notes_on(final(new)@, g as int),
        keeps(old(new)@, final(new)@),
        t + rd <= bar_t && !(rn.1 is AutomaticRest) ==> holds_fixed(final(new)@, (from_tick(t as int, g as int), rn)),
        final(new)@ == write_note_spec(old(new)@, t as int, rn, g as int, bar_t as int),
{
    let ghost gi = g as int;
    reveal(holds_fixed);
    proof {
        lemma_dur_reduced(rn);
        crate::arith::lemma_grid_determined(note_dur(rn), gi);
    }
    if t + rd <= bar_t {
        proof {
            lemma_total_push(new@, rn);
            lemma_ticks(t as int, rd as int, gi);
            if !(rn.1 is AutomaticRest) {
                lemma_fixed_push_has(new@, rn);
            }
            lemma_push_ok(new@, rn, gi);
            lemma_keeps_one(new@, rn);
        }
        new.push(rn);
        t + rd
    } else {
        let nd = bar_t - t;
        if nd > 0 {
            let n = plain_note(nd, g, rn.1);
            proof {
                lemma_total_push(new@, n);
                lemma_ticks(t as int, nd as int, gi);
                lemma_push_ok(new@, n, gi);
                lemma_keeps_one(new@, n);
            }
            new.push(n);
        } else {
            proof {
                lemma_keeps_one(new@, rn);
            }
        }
        bar_t
    }
}

/// Appends the notes of `repl` from step `t_write` on, cutting short the note that crosses the
/// end of the bar (`bar_t` steps) and leaving out any after it; returns the step reached.
pub(crate) fn write_replacement(new: &mut Vec<Note>, t_write: i64, repl: &Vec<Note>, g: i64, bar_t: i64) -> (t: i64)
    requires
        grid_ok(g as int),
        0 <= t_write < bar_t <= 0x4000_0000,
        notes_ok(repl@),
        notes_on(repl@, g as int),
        tsum(repl@, g as int) <= 0x4000_0000,
        notes_ok(old(new)@),
        notes_on(old(new)@, g as int),
        total_of(old(new)@) == from_tick(t_write as int, g as int),
    ensures
        t == (if t_write + tsum(repl@, g as int) <= bar_t { t_write + tsum(repl@, g as int) } else { bar_t as int }),
        total_of(final(new)@) == from_tick(t as int, g as int),
        notes_ok(final(new)@),
        notes_on(final(new)@, g as int),
        keeps(old(new)@, final(new)@),
        wrote(final(new)@, repl@, repl@.len() as int, t_write as int, g as int, bar_t as int),
        final(new)@ == write_repl_spec(old(new)@, t_write as int, repl@, g as int, bar_t as int, repl@.len() as int),
{
    let ghost gi = g as int;
    let ghost new0 = new@;
    let mut t = t_write;
    let mut k: usize = 0;
    let ghost mut rs: int = 0;
    proof {
        assert(repl@.subrange(0, 0) =~= Seq::<Note>::empty());
        assert(wrote(new@, repl@, 0, t_write as int, gi, bar_t as int)) by {
            reveal(wrote);
        }
        lemma_keeps_one(new@, new@.last());
        lemma_tsum(repl@, gi);
    }
    while k < repl.len()
        invariant
            grid_ok(gi),
            gi == g,
            0 <= t_write < bar_t <= 0x4000_0000,
            notes_ok(repl@),
            notes_on(repl@, gi),
            tsum(repl@, gi) <= 0x4000_0000,
            k <= repl@.len(),
            rs == tsum(repl@.subrange(0, k as int), gi),
            0 <= rs <= tsum(repl@, gi),
            t == (if t_write + rs <= bar_t { t_write + rs } else { bar_t as int }),
            total_of(new@) == from_tick(t as int, gi),
            notes_ok(new@),
            notes_on(new@, gi),
            keeps(new0, new@),
            wrote(new@, repl@, k as int, t_write as int, gi, bar_t as int),
            new@ == write_repl_spec(new0, t_write as int, repl@, gi, bar_t as int, k as int),
        decreases repl@.len() - k,
    {
        let rn = repl[k];
        proof {
            lemma_tsum_prefix(repl@, gi, k as int);
            assert(note_ok(repl@[k as int]));
            assert(on_grid(note_dur(repl@[k as int]), gi));
        }
        let rd = ticks_of(rn.0.duration(), g);
        let ghost before = new@;
        t = write_note(new, t, rn, rd, g, bar_t);
        proof {
            rs = rs + rd;
            lemma_keeps_trans(new0, before, new@);
            lemma_wrote_keeps(before, new@, repl@, k as int, t_write as int, gi, bar_t as int);
            lemma_wrote_extend(new@, repl@, k as int, t_write as int, gi, bar_t as int);
        }
        k = k + 1;
    }
    proof {
        assert(repl@.subrange(0, repl@.len() as int) =~= repl@);
    }
    t
}

/// Each of the first `n` notes of `fr` that is not an automatic rest, and either ends by time
/// `s` or starts after `s` and no earlier than `w`, is a fixed note of `new` at its time.
#[verifier::opaque]
pub open spec fn kept_around(new: Seq<Note>, fr: Seq<Note>, n: int, s: Q, w: Q) -> bool {
    forall|j: int|
        0 <= j < n && !((#[trigger] fr[j]).1 is AutomaticRest) && (crate::arith::q_le(start_of(fr, j + 1), s) || (
        crate::arith::q_lt(s, start_of(fr, j)) && crate::arith::q_le(w, start_of(fr, j)))) ==> holds_fixed(
            new,
            (start_of(fr, j), fr[j]),
        )
}

pub(crate) proof fn lemma_kept_keeps(new: Seq<Note>, new2: Seq<Note>, fr: Seq<Note>, n: int, s: Q, w: Q)
    requires
        kept_around(new, fr, n, s, w),
        keeps(new, new2),
    ensures
        kept_around(new2, fr, n, s, w),
{
    reveal(keeps);
    reveal(kept_around);
    assert forall|j: int|
        0 <= j < n && !((#[trigger] fr[j]).1 is AutomaticRest) && (crate::arith::q_le(start_of(fr, j + 1), s) || (
        crate::arith::q_lt(s, start_of(fr, j)) && crate::arith::q_le(w, start_of(fr, j)))) implies holds_fixed(new2, (start_of(fr, j), fr[j])) by {
        assert(holds_fixed(new, (start_of(fr, j), fr[j])));
    }
}

pub(crate) proof fn lemma_kept_extend(new: Seq<Note>, fr: Seq<Note>, n: int, s: Q, w: Q)
    requires
        0 <= n,
        kept_around(new, fr, n, s, w),
        !(fr[n].1 is AutomaticRest) && (crate::arith::q_le(start_of(fr, n + 1), s) || (crate::arith::q_lt(
            s,
            start_of(fr, n),
        ) && crate::arith::q_le(w, start_of(fr, n)))) ==> holds_fixed(new, (start_of(fr, n), fr[n])),
    ensures
        kept_around(new, fr, n + 1, s, w),
{
    reveal(kept_around);
}

pub(crate) proof fn lemma_keeps_one(a: Seq<Note>, n: Note)
    ensures
        keeps(a, a.push(n)),
        keeps(a, a),
{
    reveal(keeps);
    reveal(holds_fixed);
    assert forall|x: (Q, Note)| holds_fixed(a, x) implies #[trigger] holds_fixed(a.push(n), x) by {
        lemma_fixed_push_keeps(a, n, x);
    }
}

/// Notes on a grid are on every multiple of it.
pub(crate) proof fn lemma_notes_refine(s: Seq<Note>, a: int, b: int)
    requires
        a > 0,
        b > 0,
        b % a == 0,
        notes_on(s, a),
    ensures
        notes_on(s, b),
{
    assert forall|i: int| 0 <= i < s.len() implies on_grid(#[trigger] note_dur(s[i]), b) by {
        assert(on_grid(note_dur(s[i]), a));
        lemma_divides_trans(note_dur(s[i]).d, a, b);
    }
}

/// The start of note `k` is the step count of the notes before it.
pub(crate) proof fn lemma_start_sub(r: Seq<Note>, g: int, k: int)
    requires
        g > 0,
        0 <= k <= r.len(),
        notes_ok(r),
        notes_on(r, g),
    ensures
        start_of(r, k) == from_tick(tsum(r.subrange(0, k), g), g),
{
    let p = r.subrange(0, k);
    lemma_start_prefix(r, p, k);
    assert forall|i: int| 0 <= i < p.len() implies #[trigger] note_ok(p[i]) && on_grid(note_dur(p[i]), g) by {
        assert(p[i] == r[i]);
        assert(note_ok(r[i]));
        assert(on_grid(note_dur(r[i]), g));
    }
    lemma_tsum(p, g);
}

/// Notes with the same lengths start at the same times.
pub(crate) proof fn lemma_same_lengths(a: Seq<Note>, b: Seq<Note>, n: int)
    requires
        0 <= n <= a.len(),
        a.len() == b.len(),
        forall|i: int| 0 <= i < a.len() ==> note_dur(#[trigger] a[i]) == note_dur(b[i]),
    ensures
        start_of(a, n) == start_of(b, n),
    decreases n,
{
    if n > 0 {
        lemma_same_lengths(a, b, n - 1);
        assert(note_dur(a[n - 1]) == note_dur(b[n - 1]));
    }
}

/// The lifetime of the last note of the first `n` whose entity is `e`.
pub open spec fn last_lifetime_of(s: Seq<Note>, e: Entity, n: int) -> Option<Lifetime>
    decreases n,
{
    if n <= 0 {
        None
    } else if s[n - 1].1.entity_spec() == Some(e) {
        Some(s[n - 1].1)
    } else {
        last_lifetime_of(s, e, n - 1)
    }
}

/// `s` with every note of entity `e` turned into an automatic rest of the same length.
pub open spec fn cleared(s: Seq<Note>, e: Entity) -> Seq<Note> {
    Seq::new(
        s.len(),
        |i: int|
            if s[i].1.entity_spec() == Some(e) {
                (s[i].0, Lifetime::AutomaticRest)
            } else {
                s[i]
            },
    )
}

/// The number of automatic rests among the first `n` notes.
pub open spec fn auto_count(s: Seq<Note>, n: int) -> int
    decreases n,
{
    if n <= 0 {
        0
    } else {
        auto_count(s, n - 1) + if s[n - 1].1 is AutomaticRest { 1int } else { 0 }
    }
}

/// The number of notes among the first `n` without an entity of their own.
pub open spec fn unowned_count(s: Seq<Note>, n: int) -> int
    decreases n,
{
    if n <= 0 {
        0
    } else {
        unowned_count(s, n - 1) + if s[n - 1].1.entity_spec() is None { 1int } else { 0 }
    }
}

pub(crate) proof fn lemma_count_bounds(s: Seq<Note>, n: int)
    requires
        0 <= n <= s.len(),
    ensures
        0 <= auto_count(s, n) <= n,
        0 <= unowned_count(s, n) <= n,
        auto_count(s, n) <= unowned_count(s, n),
    decreases n,
{
    if n > 0 {
        lemma_count_bounds(s, n - 1);
    }
}

pub(crate) proof fn lemma_auto_count_mono(s: Seq<Note>, i: int, n: int)
    requires
        0 <= i <= n <= s.len(),
    ensures
        auto_count(s, i) <= auto_count(s, n),
    decreases n,
{
    if i < n {
        lemma_auto_count_mono(s, i, n - 1);
    }
}

pub(crate) proof fn lemma_unowned_mono(s: Seq<Note>, i: int, n: int)
    requires
        0 <= i <= n <= s.len(),
    ensures
        unowned_count(s, i) <= unowned_count(s, n),
    decreases n,
{
    if i < n {
        lemma_unowned_mono(s, i, n - 1);
    }
}

} // verus!
