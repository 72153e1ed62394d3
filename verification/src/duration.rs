//! Note values and the durations of rests, notes and chords.
use crate::arith::{lemma_canon_fits, lemma_canon_same, q_add, q_mul,
    abs, canon, gcd, lemma_canon, lemma_canon_reduced, lemma_gcd_one, q_div, q_int, q_le, q_lt,
    reduced, Q,
};
use crate::rational::{fits, Rational};
use vstd::prelude::*;

verus! {

/// `2^k` for a natural `k`.
pub open spec fn pow2i(k: nat) -> int
    decreases k,
{
    if k == 0 {
        1
    } else {
        2 * pow2i((k - 1) as nat)
    }
}

/// `2^k` as a fraction, for any integer `k`.
pub open spec fn pow2q(k: int) -> Q {
    if k >= 0 {
        Q { n: pow2i(k as nat), d: 1 }
    } else {
        Q { n: 1, d: pow2i((-k) as nat) }
    }
}

/// `base` with `k` augmentation dots: `base * (2 - 2^-k)`.
pub open spec fn dotted(base: Q, k: nat) -> Q {
    canon(base.n * (pow2i(k + 1) - 1), base.d * pow2i(k))
}

pub proof fn lemma_pow2i_pos(k: nat)
    ensures
        pow2i(k) >= 1,
        pow2i(k + 1) == 2 * pow2i(k),
    decreases k,
{
    if k > 0 {
        lemma_pow2i_pos((k - 1) as nat);
    }
}

pub proof fn lemma_pow2i_mono(j: nat, k: nat)
    requires
        j <= k,
    ensures
        pow2i(j) <= pow2i(k),
    decreases k - j,
{
    if j < k {
        lemma_pow2i_mono(j, (k - 1) as nat);
        lemma_pow2i_pos((k - 1) as nat);
    }
}

/// Comparing two canonical forms compares the fractions they came from.
pub proof fn lemma_canon_order(n1: int, d1: int, n2: int, d2: int)
    requires
        d1 > 0,
        d2 > 0,
    ensures
        q_lt(canon(n1, d1), canon(n2, d2)) == (n1 * d2 < n2 * d1),
        q_le(canon(n1, d1), canon(n2, d2)) == (n1 * d2 <= n2 * d1),
{
    lemma_canon(n1, d1);
    lemma_canon(n2, d2);
    let c1 = canon(n1, d1);
    let c2 = canon(n2, d2);
    assert((c1.n * c2.d < c2.n * c1.d) == (n1 * d2 < n2 * d1)) by (nonlinear_arith)
        requires
            c1.n * d1 == n1 * c1.d,
            c2.n * d2 == n2 * c2.d,
            c1.d > 0,
            c2.d > 0,
            d1 > 0,
            d2 > 0,
    ;
    assert((c1.n * c2.d <= c2.n * c1.d) == (n1 * d2 <= n2 * d1)) by (nonlinear_arith)
        requires
            c1.n * d1 == n1 * c1.d,
            c2.n * d2 == n2 * c2.d,
            c1.d > 0,
            c2.d > 0,
            d1 > 0,
            d2 > 0,
    ;
}

/// Each extra dot lengthens a positive value.
pub proof fn lemma_dotted_increases(base: Q, k: nat)
    requires
        base.n > 0,
        base.d > 0,
    ensures
        q_lt(dotted(base, k), dotted(base, k + 1)),
{
    lemma_pow2i_pos(k);
    lemma_pow2i_pos(k + 1);
    let p = pow2i(k);
    assert(base.d * p > 0) by (nonlinear_arith)
        requires
            base.d > 0,
            p >= 1,
    ;
    assert(base.d * (2 * p) > 0) by (nonlinear_arith)
        requires
            base.d > 0,
            p >= 1,
    ;
    lemma_canon_order(base.n * (2 * p - 1), base.d * p, base.n * (4 * p - 1), base.d * (2 * p));
    assert((base.n * (2 * p - 1)) * (base.d * (2 * p)) < (base.n * (4 * p - 1)) * (base.d * p))
        by (nonlinear_arith)
        requires
            base.n > 0,
            base.d > 0,
            p >= 1,
    ;
}

/// The relative length of a notehead, ignoring dots and tuplets.
///
/// See https://en.wikipedia.org/wiki/Note_value
#[derive(Debug, Copy, Clone, PartialEq, Eq, Ord, PartialOrd, Structural)]
pub enum NoteValue {
    Maxima,
    Longa,
    DoubleWhole,
    Whole,
    Half,
    Quarter,
    Eighth,
    Sixteenth,
    ThirtySecond,
    SixtyFourth,
    HundredTwentyEighth,
    TwoHundredFiftySixth,
}

/// The note value whose base-2 log (in whole notes) is `k`, if there is one.
pub open spec fn note_value_of(k: int) -> Option<NoteValue> {
    if k == 3 {
        Some(NoteValue::Maxima)
    } else if k == 2 {
        Some(NoteValue::Longa)
    } else if k == 1 {
        Some(NoteValue::DoubleWhole)
    } else if k == 0 {
        Some(NoteValue::Whole)
    } else if k == -1 {
        Some(NoteValue::Half)
    } else if k == -2 {
        Some(NoteValue::Quarter)
    } else if k == -3 {
        Some(NoteValue::Eighth)
    } else if k == -4 {
        Some(NoteValue::Sixteenth)
    } else if k == -5 {
        Some(NoteValue::ThirtySecond)
    } else if k == -6 {
        Some(NoteValue::SixtyFourth)
    } else if k == -7 {
        Some(NoteValue::HundredTwentyEighth)
    } else if k == -8 {
        Some(NoteValue::TwoHundredFiftySixth)
    } else {
        None
    }
}

/// The note values, from the longest down, last 8, 4, 2 and 1 whole notes, then a half, a
/// quarter, and so on to a 256th note: each is half the one before.  `NoteValue::new` gives
/// each value back from its logarithm.  Quarter notes and shorter have stems, eighth notes and
/// shorter flags, and an eighth note has one beam, a sixteenth two, and so on.
pub proof fn law_note_values(v: NoteValue)
    ensures
        v.log2_spec() == (match v {
            NoteValue::Maxima => 3int,
            NoteValue::Longa => 2,
            NoteValue::DoubleWhole => 1,
            NoteValue::Whole => 0,
            NoteValue::Half => -1,
            NoteValue::Quarter => -2,
            NoteValue::Eighth => -3,
            NoteValue::Sixteenth => -4,
            NoteValue::ThirtySecond => -5,
            NoteValue::SixtyFourth => -6,
            NoteValue::HundredTwentyEighth => -7,
            NoteValue::TwoHundredFiftySixth => -8,
        }),
        note_value_of(v.log2_spec()) == Some(v),
        v.beams_spec() == (match v {
            NoteValue::Eighth => 1int,
            NoteValue::Sixteenth => 2,
            NoteValue::ThirtySecond => 3,
            NoteValue::SixtyFourth => 4,
            NoteValue::HundredTwentyEighth => 5,
            NoteValue::TwoHundredFiftySixth => 6,
            _ => 0,
        }),
        (v.log2_spec() <= -2) == (v == NoteValue::Quarter || v.beams_spec() > 0),
        (v.log2_spec() <= -3) == (v.beams_spec() > 0),
{
}


impl NoteValue {
    /// The base-2 log of the duration in whole notes.
    pub open spec fn log2_spec(self) -> int {
        match self {
            NoteValue::Maxima => 3,
            NoteValue::Longa => 2,
            NoteValue::DoubleWhole => 1,
            NoteValue::Whole => 0,
            NoteValue::Half => -1,
            NoteValue::Quarter => -2,
            NoteValue::Eighth => -3,
            NoteValue::Sixteenth => -4,
            NoteValue::ThirtySecond => -5,
            NoteValue::SixtyFourth => -6,
            NoteValue::HundredTwentyEighth => -7,
            NoteValue::TwoHundredFiftySixth => -8,
        }
    }

    /// The number of beams or flags a note of this value is drawn with.
    pub open spec fn beams_spec(self) -> int {
        if self.log2_spec() <= -2 {
            -self.log2_spec() - 2
        } else {
            0
        }
    }

    /// The note value with base-2 log `log2`, or `None` outside `-8..=3`.
    pub fn new(log2: isize) -> (r: Option<NoteValue>)
        ensures
            r == note_value_of(log2 as int),
            r matches Some(v) ==> v.log2_spec() == log2,
            r is Some <==> -8 <= log2 <= 3,
    {
        match log2 {
            3 => Some(NoteValue::Maxima),
            2 => Some(NoteValue::Longa),
            1 => Some(NoteValue::DoubleWhole),
            0 => Some(NoteValue::Whole),
            -1 => Some(NoteValue::Half),
            -2 => Some(NoteValue::Quarter),
            -3 => Some(NoteValue::Eighth),
            -4 => Some(NoteValue::Sixteenth),
            -5 => Some(NoteValue::ThirtySecond),
            -6 => Some(NoteValue::SixtyFourth),
            -7 => Some(NoteValue::HundredTwentyEighth),
            -8 => Some(NoteValue::TwoHundredFiftySixth),
            _ => None,
        }
    }

    /// The base-2 log of the duration, compared to a whole note, ignoring dots and tuplets.
    pub fn log2(self) -> (r: i8)
        ensures
            r == self.log2_spec(),
    {
        match self {
            NoteValue::Maxima => 3,
            NoteValue::Longa => 2,
            NoteValue::DoubleWhole => 1,
            NoteValue::Whole => 0,
            NoteValue::Half => -1,
            NoteValue::Quarter => -2,
            NoteValue::Eighth => -3,
            NoteValue::Sixteenth => -4,
            NoteValue::ThirtySecond => -5,
            NoteValue::SixtyFourth => -6,
            NoteValue::HundredTwentyEighth => -7,
            NoteValue::TwoHundredFiftySixth => -8,
        }
    }

    /// The number of whole notes in the duration, ignoring dots and tuplets: `2^log2`.
    pub fn count(self) -> (r: Rational)
        ensures
            r.wf(),
            r@ == pow2q(self.log2_spec()),
    {
        let k = self.log2();
        let p = pow2_i64(if k >= 0 {
            k as u32
        } else {
            (-k) as u32
        });
        if k >= 0 {
            Rational::from_integer(p)
        } else {
            proof {
                lemma_gcd_one(p as nat);
                assert(gcd(1, p as nat) == 1) by {
                    reveal_with_fuel(gcd, 3);
                    if p > 1 {
                        vstd::arithmetic::div_mod::lemma_small_mod(1, p as nat);
                    }
                }
                lemma_canon_reduced(Q { n: 1, d: p as int });
            }
            Rational::new(1, p)
        }
    }

    /// Whether the note is drawn with a stem (quarter notes and shorter).
    pub fn has_stem(self) -> (r: bool)
        ensures
            r == (self.log2_spec() <= -2),
    {
        self.log2() <= -2
    }

    /// Whether an unbeamed note is drawn with a flag (eighth notes and shorter).
    pub fn has_flag(self) -> (r: bool)
        ensures
            r == (self.log2_spec() <= -3),
    {
        self.log2() <= -3
    }

    /// The number of beams or flags: one for an eighth note, two for a sixteenth, and so on.
    pub fn beam_count(self) -> (r: u8)
        ensures
            r == self.beams_spec(),
    {
        let b = -self.log2() - 2;
        if b > 0 {
            b as u8
        } else {
            0
        }
    }
}

/// `2^k` for `k <= 16`.
pub fn pow2_i64(k: u32) -> (r: i64)
    requires
        k <= 16,
    ensures
        r == pow2i(k as nat),
        r >= 1,
{
    let mut r: i64 = 1;
    let mut i: u32 = 0;
    while i < k
        invariant
            i <= k <= 16,
            r == pow2i(i as nat),
        decreases k - i,
    {
        proof {
            lemma_pow2i_pos(i as nat);
            lemma_pow2i_mono((i + 1) as nat, 16);
            assert(pow2i(16) == 65536) by {
                reveal_with_fuel(pow2i, 17);
            }
        }
        r = r * 2;
        i = i + 1;
    }
    proof {
        lemma_pow2i_pos(i as nat);
    }
    r
}

/// The note value drawn for a displayed length `q`: the longest note value (from a
/// 256th note up to `2^k`) that fits into `q`.
pub open spec fn base_from(q: Q, k: int) -> Option<NoteValue>
    decreases k + 9,
{
    if k < -8 {
        None
    } else if q_le(pow2q(k), q) {
        note_value_of(k)
    } else {
        base_from(q, k - 1)
    }
}

/// The note value that a displayed length `q` is drawn with: none for zero, lengths of 16 whole
/// notes or more, and lengths under a 256th note; a whole note for negative lengths (whose
/// logarithm is undefined and rounds to zero).
pub open spec fn display_base(q: Q) -> Option<NoteValue> {
    if q.n < 0 {
        Some(NoteValue::Whole)
    } else if q_le(pow2q(4), q) {
        None
    } else {
        base_from(q, 3)
    }
}

/// The least number of dots, at most `MAX_DOTS`, that makes `base` as long as `len`.
pub open spec fn dots_search(base: Q, len: Q, k: nat) -> Option<nat>
    decreases 5 - k,
{
    if k > 4 {
        None
    } else if dotted(base, k) == len {
        Some(k)
    } else {
        dots_search(base, len, k + 1)
    }
}

/// `2^j`, scaled by 256, is `pow2i(j + 8)`, for the exponents of the note values and one more.
proof fn lemma_pow2q_scaled(j: int)
    requires
        -8 <= j <= 4,
    ensures
        pow2q(j).n * 256 == pow2i((j + 8) as nat) * pow2q(j).d,
        pow2q(j).n >= 1,
        pow2q(j).d >= 1,
{
    assert(pow2i(8) == 256) by {
        reveal_with_fuel(pow2i, 9);
    }
    if j >= 0 {
        lemma_pow2i_add(j as nat, 8);
        lemma_pow2i_pos(j as nat);
    } else {
        lemma_pow2i_add((j + 8) as nat, (-j) as nat);
        lemma_pow2i_pos((-j) as nat);
    }
}

/// `2^(a + b) == 2^a * 2^b`.
proof fn lemma_pow2i_add(a: nat, b: nat)
    ensures
        pow2i(a + b) == pow2i(a) * pow2i(b),
    decreases b,
{
    if b > 0 {
        lemma_pow2i_add(a, (b - 1) as nat);
        assert(pow2i(a + b) == 2 * pow2i((a + b - 1) as nat));
        assert(pow2i(b) == 2 * pow2i((b - 1) as nat));
        assert(pow2i(a) * (2 * pow2i((b - 1) as nat)) == 2 * (pow2i(a) * pow2i((b - 1) as nat))) by (nonlinear_arith);
    }
}

/// Whether `2^j` fits into a note value `2^k` with `e` dots: exactly for `j <= k`.
proof fn lemma_pow2q_fits_dotted(j: int, k: int, e: nat)
    requires
        -8 <= j <= 4,
        -8 <= k <= 3,
    ensures
        q_le(pow2q(j), dotted(pow2q(k), e)) == (j <= k),
        dotted(pow2q(k), e).n > 0,
{
    lemma_pow2q_scaled(j);
    lemma_pow2q_scaled(k);
    lemma_pow2i_pos(e);
    let a = pow2q(j);
    let b = pow2q(k);
    let p = pow2i(e);
    let n = b.n * (2 * p - 1);
    let d = b.d * p;
    assert(pow2i(e + 1) == 2 * p);
    assert(d > 0 && n > 0) by (nonlinear_arith)
        requires
            b.d >= 1,
            b.n >= 1,
            p >= 1,
            d == b.d * p,
            n == b.n * (2 * p - 1),
    ;
    lemma_canon(n, d);
    let c = canon(n, d);
    assert(c.n > 0) by (nonlinear_arith)
        requires
            c.n * d == n * c.d,
            n > 0,
            d > 0,
            c.d > 0,
    ;
    let ej = pow2i((j + 8) as nat);
    let ek = pow2i((k + 8) as nat);
    lemma_pow2i_pos((j + 8) as nat);
    lemma_pow2i_pos((k + 8) as nat);
    assert(q_le(a, c) == (ej * p <= ek * (2 * p - 1))) by (nonlinear_arith)
        requires
            c.n * d == n * c.d,
            c.d > 0,
            d > 0,
            a.d >= 1,
            b.d >= 1,
            a.n * 256 == ej * a.d,
            b.n * 256 == ek * b.d,
            n == b.n * (2 * p - 1),
            d == b.d * p,
            p >= 1,
    ;
    if j <= k {
        lemma_pow2i_mono((j + 8) as nat, (k + 8) as nat);
        assert(ej * p <= ek * (2 * p - 1)) by (nonlinear_arith)
            requires
                1 <= ej <= ek,
                p >= 1,
        ;
    } else {
        lemma_pow2i_mono((k + 9) as nat, (j + 8) as nat);
        assert(pow2i((k + 9) as nat) == 2 * ek);
        assert(ej * p > ek * (2 * p - 1)) by (nonlinear_arith)
            requires
                ej >= 2 * ek,
                ek >= 1,
                p >= 1,
        ;
    }
}

/// The search for a note value skips the values longer than `2^k` and stops at it.
proof fn lemma_base_from_dotted(k: int, e: nat, j: int)
    requires
        -8 <= k <= j <= 3,
    ensures
        base_from(dotted(pow2q(k), e), j) == note_value_of(k),
    decreases j - k,
{
    lemma_pow2q_fits_dotted(j, k, e);
    if j > k {
        lemma_base_from_dotted(k, e, j - 1);
    }
}

/// Strictly more dots make a strictly longer value.
proof fn lemma_dotted_lt(b: Q, i: nat, j: nat)
    requires
        b.n > 0,
        b.d > 0,
        i < j,
    ensures
        q_lt(dotted(b, i), dotted(b, j)),
        dotted(b, i) != dotted(b, j),
    decreases j - i,
{
    lemma_dotted_increases(b, i);
    if i + 1 < j {
        lemma_dotted_lt(b, i + 1, j);
        lemma_pow2i_pos(i);
        lemma_pow2i_pos(i + 1);
        lemma_pow2i_pos(j);
        assert(b.d * pow2i(i) != 0 && b.d * pow2i(i + 1) != 0 && b.d * pow2i(j) != 0) by (nonlinear_arith)
            requires
                b.d > 0,
                pow2i(i) >= 1,
                pow2i(i + 1) >= 1,
                pow2i(j) >= 1,
        ;
        lemma_canon(b.n * (pow2i(i + 1) - 1), b.d * pow2i(i));
        lemma_canon(b.n * (pow2i(i + 2) - 1), b.d * pow2i(i + 1));
        lemma_canon(b.n * (pow2i(j + 1) - 1), b.d * pow2i(j));
        crate::arith::lemma_q_lt_trans(dotted(b, i), dotted(b, i + 1), dotted(b, j));
    }
}

/// A note value with at most `MAX_DOTS` dots is drawn with that note value and those dots.
pub proof fn lemma_dotted_displays(v: NoteValue, e: nat)
    requires
        e <= 4,
    ensures
        display_base(dotted(pow2q(v.log2_spec()), e)) == Some(v),
        dots_search(pow2q(v.log2_spec()), dotted(pow2q(v.log2_spec()), e), 0) == Some(e),
{
    let k = v.log2_spec();
    lemma_pow2q_fits_dotted(4, k, e);
    lemma_base_from_dotted(k, e, 3);
    lemma_pow2q_scaled(k);
    let b = pow2q(k);
    assert forall|i: nat| 0 <= i < e implies #[trigger] dotted(b, i) != dotted(b, e) by {
        lemma_dotted_lt(b, i, e);
    }
    lemma_dots_search_skip(b, dotted(b, e), 0, e);
}

/// A length that one notehead can show: a note value from a 256th note to a maxima with at
/// most three dots.
pub open spec fn printable_q(x: Q) -> bool {
    match display_base(x) {
        Some(v) => dots_search(pow2q(v.log2_spec()), x, 0) matches Some(d) && d <= 3,
        None => false,
    }
}

/// Facts about `2^k` for a note value's `k`.
proof fn lemma_base_positive(v: NoteValue)
    ensures
        -8 <= v.log2_spec() <= 3,
        reduced(pow2q(v.log2_spec())),
        1 <= pow2q(v.log2_spec()).n <= 8,
        1 <= pow2q(v.log2_spec()).d <= 256,
{
    let k = v.log2_spec();
    lemma_pow2i_pos(3);
    lemma_pow2i_pos(8);
    assert(pow2i(3) == 8 && pow2i(8) == 256) by {
        reveal_with_fuel(pow2i, 9);
    }
    if k >= 0 {
        lemma_pow2i_mono(k as nat, 3);
        lemma_pow2i_pos(k as nat);
        lemma_gcd_one(pow2i(k as nat) as nat);
    } else {
        lemma_pow2i_mono((-k) as nat, 8);
        lemma_pow2i_pos((-k) as nat);
        let p = pow2i((-k) as nat) as nat;
        assert(gcd(1, p) == 1) by {
            reveal_with_fuel(gcd, 3);
            if p > 1 {
                vstd::arithmetic::div_mod::lemma_small_mod(1, p);
            }
        }
    }
}

/// `base` with `dots` dots, for a note value's `base`.
fn dotted_value(base: Rational, dots: u8) -> (r: Rational)
    requires
        base.wf(),
        1 <= base@.n <= 8,
        1 <= base@.d <= 256,
        dots <= 5,
    ensures
        r.wf(),
        r@ == dotted(base@, dots as nat),
        abs(r@.n) <= 8 * 64,
        0 < r@.d <= 256 * 32,
{
    let p = pow2_i64(dots as u32);
    let p2 = pow2_i64((dots + 1) as u32);
    proof {
        lemma_pow2i_pos(dots as nat);
        lemma_pow2i_mono(dots as nat, 5);
        assert(pow2i(5) == 32) by {
            reveal_with_fuel(pow2i, 6);
        }
        assert(base@.n * (p2 - 1) <= 8 * 64 && base@.n * (p2 - 1) >= 1) by (nonlinear_arith)
            requires
                1 <= base@.n <= 8,
                p2 == 2 * p,
                1 <= p <= 32,
        ;
        assert(base@.d * p <= 256 * 32 && base@.d * p >= 1) by (nonlinear_arith)
            requires
                1 <= base@.d <= 256,
                1 <= p <= 32,
        ;
        lemma_canon_fits(base@.n * (p2 - 1), base@.d * p, 512int, 8192int);
    }
    Rational::new(base.numer() * (p2 - 1), base.denom() * p)
}

/// `1 / 2^k` for `1 <= k <= 5`.
fn half_pow(k: usize) -> (r: Rational)
    requires
        1 <= k <= 5,
    ensures
        r.wf(),
        r@ == (Q { n: 1, d: pow2i(k as nat) }),
{
    let p = pow2_i64(k as u32);
    proof {
        lemma_pow2i_mono(k as nat, 5);
        assert(pow2i(5) == 32) by {
            reveal_with_fuel(pow2i, 6);
        }
        let pn = p as nat;
        assert(gcd(1, pn) == 1) by {
            reveal_with_fuel(gcd, 3);
            if pn > 1 {
                vstd::arithmetic::div_mod::lemma_small_mod(1, pn);
            }
        }
        lemma_canon_reduced(Q { n: 1, d: p as int });
    }
    Rational::new(1, p)
}

/// One more dot adds half of the last dot's length.
proof fn lemma_dotted_step(b: Q, k: nat)
    requires
        reduced(b),
        b.n > 0,
        k >= 1,
    ensures
        q_add(dotted(b, (k - 1) as nat), q_mul(b, Q { n: 1, d: pow2i(k) })) == dotted(b, k),
{
    let km = (k - 1) as nat;
    lemma_pow2i_pos(km);
    let p = pow2i(km);
    assert(pow2i(k) == 2 * p);
    assert(pow2i(km + 1) == 2 * p);
    assert(b.d * p > 0 && b.d * (2 * p) > 0) by (nonlinear_arith)
        requires
            b.d > 0,
            p >= 1,
    ;
    let x = dotted(b, km);
    let y = q_mul(b, Q { n: 1, d: 2 * p });
    let d1 = b.d * p;
    let d2 = b.d * (2 * p);
    let n1 = b.n * (2 * p - 1);
    assert(pow2i(km + 1) == 2 * p);
    assert(x == canon(n1, d1));
    lemma_canon(n1, d1);
    lemma_canon(b.n * 1, d2);
    assert(y == canon(b.n * 1, d2));
    assert(x.d > 0);
    assert(y.d > 0);
    let sn = x.n * y.d + y.n * x.d;
    let sd = x.d * y.d;
    assert(sd != 0) by (nonlinear_arith)
        requires
            x.d > 0,
            y.d > 0,
            sd == x.d * y.d,
    ;
    assert(d2 == 2 * d1) by (nonlinear_arith)
        requires
            d1 == b.d * p,
            d2 == b.d * (2 * p),
    ;
    assert(x.n * y.d * d2 == 2 * n1 * (x.d * y.d)) by (nonlinear_arith)
        requires
            x.n * d1 == n1 * x.d,
            d2 == 2 * d1,
    ;
    assert(y.n * x.d * d2 == b.n * (x.d * y.d)) by (nonlinear_arith)
        requires
            y.n * d2 == (b.n * 1) * y.d,
    ;
    assert(2 * n1 + b.n == b.n * (4 * p - 1)) by (nonlinear_arith)
        requires
            n1 == b.n * (2 * p - 1),
    ;
    assert(sn * d2 == (b.n * (4 * p - 1)) * sd) by (nonlinear_arith)
        requires
            x.n * y.d * d2 == 2 * n1 * (x.d * y.d),
            y.n * x.d * d2 == b.n * (x.d * y.d),
            2 * n1 + b.n == b.n * (4 * p - 1),
            sn == x.n * y.d + y.n * x.d,
            sd == x.d * y.d,
    ;
    assert(pow2i(k + 1) == 4 * p) by {
        lemma_pow2i_pos(k);
    }
    lemma_canon_same(sn, sd, b.n * (4 * p - 1), b.d * (2 * p));
}

proof fn lemma_dots_search_skip(b: Q, len: Q, i: nat, j: nat)
    requires
        i <= j <= 5,
        forall|k: nat| i <= k < j ==> #[trigger] dotted(b, k) != len,
    ensures
        dots_search(b, len, i) == dots_search(b, len, j),
    decreases j - i,
{
    if i < j {
        lemma_dots_search_skip(b, len, i + 1, j);
    }
}

proof fn lemma_dots_search_none(b: Q, len: Q, i: nat)
    requires
        reduced(b),
        b.n > 0,
        len.d > 0,
        q_lt(len, dotted(b, i)),
    ensures
        dots_search(b, len, i) is None,
    decreases 5 - i,
{
    if i <= 4 {
        assert(dotted(b, i) != len);
        lemma_dotted_increases(b, i);
        lemma_pow2i_pos(i);
        lemma_pow2i_pos(i + 1);
        assert(b.d * pow2i(i) != 0 && b.d * pow2i(i + 1) != 0) by (nonlinear_arith)
            requires
                b.d > 0,
                pow2i(i) >= 1,
                pow2i(i + 1) >= 1,
        ;
        lemma_canon(b.n * (pow2i(i + 1) - 1), b.d * pow2i(i));
        lemma_canon(b.n * (pow2i(i + 2) - 1), b.d * pow2i(i + 1));
        crate::arith::lemma_q_lt_trans(len, dotted(b, i), dotted(b, i + 1));
        lemma_dots_search_none(b, len, i + 1);
    }
}

/// The maximum number of dots that `Duration::new` accepts.
pub const MAX_DOTS: u8 = 4;

/// The duration of a note, rest, or chord: the length it is drawn with and the tuplet ratio
/// that turns the drawn length into the played length (3:2 for a triplet).
///
/// A tuplet is kept even where the played length alone could be drawn otherwise: a 4:3 quarter
/// note duplet lasts as long as a dotted eighth, but they are drawn differently.
#[derive(Debug, Clone, Copy, PartialEq, Eq, Structural)]
pub struct Duration {
    display: Rational,
    tuplet: Rational,
    whole_rest: bool,
}

pub open spec fn tuplet_or_one(t: Option<Rational>) -> Q {
    match t {
        Some(t) => t@,
        None => q_int(1),
    }
}

/// The order of durations: by drawn length, then tuplet ratio, then whether it is a whole rest
/// (false first); -1, 0 or 1.
pub open spec fn duration_order(a: Duration, b: Duration) -> int {
    if q_lt(a.display_q(), b.display_q()) {
        -1
    } else if q_lt(b.display_q(), a.display_q()) {
        1
    } else if q_lt(a.tuplet_q(), b.tuplet_q()) {
        -1
    } else if q_lt(b.tuplet_q(), a.tuplet_q()) {
        1
    } else if a.is_whole_rest() == b.is_whole_rest() {
        0
    } else if !a.is_whole_rest() {
        -1
    } else {
        1
    }
}

/// On well-formed durations the order is a strict total order: reversing the arguments
/// negates it, it is zero exactly for equal durations, and it is transitive.
pub proof fn lemma_duration_order(a: Duration, b: Duration, c: Duration)
    requires
        a.wf(),
        b.wf(),
        c.wf(),
    ensures
        duration_order(a, b) == -duration_order(b, a),
        -1 <= duration_order(a, b) <= 1,
        duration_order(a, b) == 0 <==> a == b,
        duration_order(a, b) > 0 && duration_order(b, c) > 0 ==> duration_order(a, c) > 0,
{
    crate::arith::lemma_q_trichotomy(a.display@, b.display@);
    crate::arith::lemma_q_trichotomy(b.display@, c.display@);
    crate::arith::lemma_q_trichotomy(a.display@, c.display@);
    crate::arith::lemma_q_trichotomy(a.tuplet@, b.tuplet@);
    crate::arith::lemma_q_trichotomy(b.tuplet@, c.tuplet@);
    crate::arith::lemma_q_trichotomy(a.tuplet@, c.tuplet@);
    if q_lt(c.display@, b.display@) && q_lt(b.display@, a.display@) {
        crate::arith::lemma_q_lt_trans(c.display@, b.display@, a.display@);
    }
    if q_lt(c.tuplet@, b.tuplet@) && q_lt(b.tuplet@, a.tuplet@) {
        crate::arith::lemma_q_lt_trans(c.tuplet@, b.tuplet@, a.tuplet@);
    }
    if a.display@ == b.display@ && a.tuplet@ == b.tuplet@ {
        crate::rational::lemma_view_injective(a.display, b.display);
        crate::rational::lemma_view_injective(a.tuplet, b.tuplet);
    }
}

/// The duration drawn as `q` whole notes, without a tuplet.
pub closed spec fn plain_spec(q: Q) -> Duration {
    Duration {
        display: crate::rational::rational_spec(q),
        tuplet: crate::rational::rational_spec(q_int(1)),
        whole_rest: false,
    }
}

/// A well-formed duration drawn as `q` whole notes, without a tuplet and not a whole rest, is
/// `plain_spec(q)`.
pub proof fn lemma_plain_spec(d: Duration, q: Q)
    requires
        d.wf(),
        d.display_q() == q,
        d.tuplet_q() == q_int(1),
        !d.is_whole_rest(),
    ensures
        d == plain_spec(q),
{
    crate::rational::lemma_rational_spec(q);
    crate::rational::lemma_rational_spec(q_int(1));
    crate::rational::lemma_view_injective(d.display, crate::rational::rational_spec(q));
    crate::rational::lemma_view_injective(d.tuplet, crate::rational::rational_spec(q_int(1)));
}

impl Duration {
    pub closed spec fn display_q(&self) -> Q {
        self.display@
    }

    pub closed spec fn tuplet_q(&self) -> Q {
        self.tuplet@
    }

    pub closed spec fn is_whole_rest(&self) -> bool {
        self.whole_rest
    }

    /// The played length, in whole notes.
    pub open spec fn duration_q(&self) -> Q {
        q_div(self.display_q(), self.tuplet_q())
    }

    pub open spec fn wf(&self) -> bool {
        &&& self.parts_wf()
        &&& self.tuplet_q().n > 0
        &&& fits(self.duration_q())
    }

    /// The drawn length and the tuplet ratio are fractions in lowest terms that fit.
    pub open spec fn parts_wf(&self) -> bool {
        &&& reduced(self.display_q())
        &&& fits(self.display_q())
        &&& reduced(self.tuplet_q())
        &&& fits(self.tuplet_q())
    }

    /// The played length can be computed: a nonzero tuplet ratio, and a quotient that fits.
    pub open spec fn plays(&self) -> bool {
        &&& self.parts_wf()
        &&& self.tuplet_q().n != 0
        &&& fits(self.duration_q())
    }

    /// A note value with `dots` dots (at most four), in an optional tuplet.
    pub fn new(base: NoteValue, dots: u8, tuplet: Option<Rational>) -> (r: Duration)
        requires
            dots <= MAX_DOTS,
            tuplet matches Some(t) ==> t.wf(),
        ensures
            r.parts_wf(),
            (tuplet matches Some(t) ==> t@.n > 0 && fits(q_div(dotted(pow2q(base.log2_spec()), dots as nat), t@)))
                ==> r.wf(),
            r.display_q() == dotted(pow2q(base.log2_spec()), dots as nat),
            r.tuplet_q() == tuplet_or_one(tuplet),
            !r.is_whole_rest(),
            display_base(r.display_q()) == Some(base),
            dots_search(pow2q(base.log2_spec()), r.display_q(), 0) == Some(dots as nat),
    {
        proof {
            lemma_dotted_displays(base, dots as nat);
        }
        let b = base.count();
        proof {
            lemma_base_positive(base);
        }
        let display = dotted_value(b, dots);
        let t = match tuplet {
            Some(t) => t,
            None => Rational::one(),
        };
        proof {
            if tuplet is None {
                lemma_canon_reduced(display@);
                assert(q_div(display@, q_int(1)) == canon(display@.n * 1, display@.d * 1));
            }
        }
        Duration { display, tuplet: t, whole_rest: false }
    }

    /// A duration drawn as `display` whole notes, in an optional tuplet.
    pub fn exact(display: Rational, tuplet: Option<Rational>) -> (r: Duration)
        requires
            display.wf(),
            tuplet matches Some(t) ==> t.wf() && t@.n > 0,
            fits(q_div(display@, tuplet_or_one(tuplet))),
        ensures
            r.wf(),
            r.display_q() == display@,
            r.tuplet_q() == tuplet_or_one(tuplet),
            !r.is_whole_rest(),
    {
        let t = match tuplet {
            Some(t) => t,
            None => Rational::one(),
        };
        Duration { display, tuplet: t, whole_rest: false }
    }

    /// A whole rest filling a bar of `display` whole notes.
    pub fn new_whole_rest(display: Rational) -> (r: Duration)
        requires
            display.wf(),
        ensures
            r.wf(),
            r.display_q() == display@,
            r.tuplet_q() == q_int(1),
            r.is_whole_rest(),
            r.duration_q() == display@,
    {
        proof {
            lemma_canon_reduced(display@);
            assert(q_div(display@, q_int(1)) == canon(display@.n * 1, display@.d * 1));
        }
        Duration { display, tuplet: Rational::one(), whole_rest: true }
    }

    /// The multiplier from played length to drawn length (3:2 for a triplet).
    pub fn tuplet(&self) -> (r: Rational)
        requires
            self.parts_wf(),
        ensures
            r.wf(),
            r@ == self.tuplet_q(),
    {
        self.tuplet
    }

    /// The number of whole notes this event is played for.
    pub fn duration(&self) -> (r: Rational)
        requires
            self.plays(),
        ensures
            r.wf(),
            r@ == self.duration_q(),
    {
        self.display.div(self.tuplet)
    }

    /// The number of whole notes it looks like this event is played for.
    pub fn display_duration(&self) -> (r: Rational)
        requires
            self.parts_wf(),
        ensures
            r.wf(),
            r@ == self.display_q(),
    {
        self.display
    }

    /// The note value this is drawn with.
    pub fn duration_display_base(&self) -> (r: Option<NoteValue>)
        requires
            self.parts_wf(),
        ensures
            r == (if self.is_whole_rest() {
                Some(NoteValue::Whole)
            } else {
                display_base(self.display_q())
            }),
    {
        if self.whole_rest {
            return Some(NoteValue::Whole);
        }
        if self.display.is_negative() {
            return Some(NoteValue::Whole);
        }
        let sixteen = Rational::from_integer(16);
        proof {
            assert(pow2i(4) == 16) by {
                reveal_with_fuel(pow2i, 5);
            }
        }
        if sixteen.le(&self.display) {
            assert(pow2q(4) == sixteen@);
            return None;
        }
        let mut k: i8 = 3;
        while k >= -8
            invariant
                -9 <= k <= 3,
                self.parts_wf(),
                !self.is_whole_rest(),
                display_base(self.display_q()) == base_from(self.display_q(), k as int),
            decreases k + 9,
        {
            let v = NoteValue::new(k as isize);
            let v = match v {
                Some(v) => v,
                None => {
                    return None;
                },
            };
            let p = v.count();
            if p.le(&self.display) {
                assert(base_from(self.display_q(), k as int) == note_value_of(k as int));
                assert(Some(v) == note_value_of(k as int));
                return Some(v);
            }
            k = k - 1;
        }
        assert(base_from(self.display_q(), -9) is None);
        None
    }

    /// The number of augmentation dots this is drawn with, if it can be drawn at all.
    pub fn display_dots(&self) -> (r: Option<usize>)
        requires
            self.parts_wf(),
        ensures
            (if self.is_whole_rest() {
                Some(0nat)
            } else {
                match display_base(self.display_q()) {
                    Some(v) => dots_search(pow2q(v.log2_spec()), self.display_q(), 0),
                    None => None,
                }
            }) == match r {
                Some(k) => Some(k as nat),
                None => None::<nat>,
            },
    {
        if self.whole_rest {
            return Some(0);
        }
        let len = self.display;
        let v = match self.duration_display_base() {
            Some(v) => v,
            None => {
                return None;
            },
        };
        let base = v.count();
        let ghost bq = base@;
        let mut dots: usize = 0;
        let mut len_with_dots = base;
        proof {
            lemma_base_positive(v);
            lemma_canon_reduced(bq);
            lemma_pow2i_pos(0);
            assert(pow2i(0) == 1);
            assert(pow2i(1) == 2);
            assert(bq.n * (pow2i(1) - 1) == bq.n) by (nonlinear_arith)
                requires
                    pow2i(1) == 2,
            ;
            assert(bq.d * pow2i(0) == bq.d);
        }
        while len_with_dots.lt(&len) && dots <= 4
            invariant
                dots <= 5,
                len.wf(),
                base.wf(),
                base@ == bq,
                bq == pow2q(v.log2_spec()),
                -8 <= v.log2_spec() <= 3,
                len_with_dots.wf(),
                len_with_dots@ == dotted(bq, dots as nat),
                forall|j: nat| j < dots ==> q_lt(#[trigger] dotted(bq, j), len@),
            decreases 5 - dots,
        {
            dots += 1;
            let h = half_pow(dots);
            proof {
                lemma_base_positive(v);
                lemma_pow2i_pos(dots as nat);
                lemma_pow2i_mono(dots as nat, 5);
                assert(pow2i(5) == 32) by {
                    reveal_with_fuel(pow2i, 6);
                }
                assert(abs(bq.n * 1) <= 8 && bq.d * pow2i(dots as nat) <= 256 * 32 && bq.d
                    * pow2i(dots as nat) > 0) by (nonlinear_arith)
                    requires
                        1 <= bq.n <= 8,
                        1 <= bq.d <= 256,
                        1 <= pow2i(dots as nat) <= 32,
                ;
                lemma_canon_fits(bq.n * 1, bq.d * pow2i(dots as nat), 8, 8192);
            }
            let step = base.mul(h);
            proof {
                lemma_dotted_step(bq, dots as nat);
                let km = (dots - 1) as nat;
                lemma_pow2i_pos(km);
                lemma_pow2i_mono(km + 1, 6);
                lemma_pow2i_mono(km, 5);
                assert(pow2i(6) == 64) by {
                    reveal_with_fuel(pow2i, 7);
                }
                lemma_pow2i_pos(dots as nat);
                assert(abs(bq.n * (pow2i(dots as nat + 1) - 1)) <= 512 && bq.d * pow2i(dots as nat) <= 8192 && bq.d * pow2i(dots as nat) > 0) by (nonlinear_arith)
                    requires
                        1 <= bq.n <= 8,
                        1 <= bq.d <= 256,
                        1 <= pow2i(dots as nat) <= 32,
                        pow2i(dots as nat + 1) == 2 * pow2i(dots as nat),
                ;
                lemma_canon_fits(bq.n * (pow2i(dots as nat + 1) - 1), bq.d * pow2i(dots as nat), 512, 8192);
            }
            len_with_dots = len_with_dots.add(step);
        }
        proof {
            lemma_base_positive(v);
            let x = dotted(bq, dots as nat);
            if dots <= 4 {
                lemma_dots_search_skip(bq, len@, 0, dots as nat);
                if x != len@ {
                    if !q_lt(len@, x) {
                        crate::arith::lemma_reduced_unique(x, len@);
                    }
                    lemma_dots_search_none(bq, len@, dots as nat);
                }
            } else {
                assert(dots == 5);
                lemma_dots_search_skip(bq, len@, 0, 5);
            }
        }
        if dots > 4 || !len_with_dots.eq(&len) {
            return None;
        }
        Some(dots)
    }

    /// Three-way comparison by drawn length, then tuplet ratio, then whether it is a whole rest
    /// (false first): -1, 0 or 1.  Equal exactly for equal durations.
    pub fn compare(&self, other: &Duration) -> (c: i8)
        requires
            self.wf(),
            other.wf(),
        ensures
            c == duration_order(*self, *other),
            c == 0 <==> *self == *other,
    {
        if self.display.lt(&other.display) {
            return -1;
        }
        if other.display.lt(&self.display) {
            return 1;
        }
        proof {
            crate::arith::lemma_reduced_unique(self.display@, other.display@);
            crate::rational::lemma_view_injective(self.display, other.display);
        }
        if self.tuplet.lt(&other.tuplet) {
            return -1;
        }
        if other.tuplet.lt(&self.tuplet) {
            return 1;
        }
        proof {
            crate::arith::lemma_reduced_unique(self.tuplet@, other.tuplet@);
            crate::rational::lemma_view_injective(self.tuplet, other.tuplet);
        }
        if self.whole_rest == other.whole_rest {
            0
        } else if !self.whole_rest {
            -1
        } else {
            1
        }
    }

    /// Whether this can be drawn as a single notehead or rest: a whole rest, or a note value
    /// from a 256th note to a maxima with at most three dots.
    pub fn printable(&self) -> (r: bool)
        requires
            self.wf(),
        ensures
            r == (self.is_whole_rest() || printable_q(self.display_q())),
    {
        self.whole_rest || self.duration_display_base().is_some() && match self.display_dots() {
            Some(d) => d <= 3,
            None => false,
        }
    }
}

} // verus!
