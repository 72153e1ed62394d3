//! Fractions for the JavaScript side, passed as `[numerator, denominator]` in lowest terms.
use crate::arith::{canon, q_add, q_lt, Q};
use crate::duration::{dotted, pow2q, Duration, NoteValue, MAX_DOTS};
use crate::rational::{fits, Rational};
use vstd::prelude::*;

verus! {

/// `v` holds the numerator and the denominator of `q`.
pub open spec fn js_pair(v: Seq<i64>, q: Q) -> bool {
    v.len() == 2 && v[0] == q.n && v[1] == q.d
}

/// A fraction `n / d` that the fraction type can hold: a denominator that is not zero, and
/// neither part the least `i64`.
pub open spec fn frac_ok(n: i64, d: i64) -> bool {
    d != 0 && n > i64::MIN && d > i64::MIN
}

/// Fraction helpers exported to the page.
pub struct JsFrac;

fn to_js(r: Rational) -> (v: Vec<i64>)
    ensures
        js_pair(v@, r@),
{
    let mut v: Vec<i64> = Vec::new();
    v.push(r.numer());
    v.push(r.denom());
    v
}

impl JsFrac {
    /// `numer / denom` in lowest terms; the denominator is not zero.
    pub fn reduce(numer: i64, denom: i64) -> (r: Vec<i64>)
        requires
            frac_ok(numer, denom),
        ensures
            js_pair(r@, canon(numer as int, denom as int)),
    {
        to_js(Rational::new(numer, denom))
    }

    /// The length of a note with base-2 log `note_value` (within `-8..=3`) and `dots` dots (at
    /// most four), in whole notes.
    pub fn from_duration(note_value: i64, dots: u8) -> (r: Vec<i64>)
        requires
            -8 <= note_value <= 3,
            dots <= MAX_DOTS,
        ensures
            js_pair(r@, dotted(pow2q(note_value as int), dots as nat)),
    {
        let v = NoteValue::new(note_value as isize);
        match v {
            Some(nv) => {
                let dur = Duration::new(nv, dots, None);
                proof {
                    crate::notes::lemma_plain_dur(dur.display_q());
                }
                let d = dur.duration();
                to_js(d)
            },
            None => {
                proof {
                    assert(false);
                }
                Vec::new()
            },
        }
    }

    /// The sum of two fractions, in lowest terms.
    pub fn add(a_numer: i64, a_denom: i64, b_numer: i64, b_denom: i64) -> (r: Vec<i64>)
        requires
            frac_ok(a_numer, a_denom),
            frac_ok(b_numer, b_denom),
            fits(q_add(canon(a_numer as int, a_denom as int), canon(b_numer as int, b_denom as int))),
        ensures
            js_pair(r@, q_add(canon(a_numer as int, a_denom as int), canon(b_numer as int, b_denom as int))),
    {
        to_js(Rational::new(a_numer, a_denom).add(Rational::new(b_numer, b_denom)))
    }

    /// Whether the first fraction is larger.
    pub fn gt(a_numer: i64, a_denom: i64, b_numer: i64, b_denom: i64) -> (r: bool)
        requires
            frac_ok(a_numer, a_denom),
            frac_ok(b_numer, b_denom),
        ensures
            r == q_lt(canon(b_numer as int, b_denom as int), canon(a_numer as int, a_denom as int)),
    {
        Rational::new(a_numer, a_denom).gt(&Rational::new(b_numer, b_denom))
    }

    /// Whether the first fraction is smaller.
    pub fn lt(a_numer: i64, a_denom: i64, b_numer: i64, b_denom: i64) -> (r: bool)
        requires
            frac_ok(a_numer, a_denom),
            frac_ok(b_numer, b_denom),
        ensures
            r == q_lt(canon(a_numer as int, a_denom as int), canon(b_numer as int, b_denom as int)),
    {
        Rational::new(a_numer, a_denom).lt(&Rational::new(b_numer, b_denom))
    }

    /// Whether the fractions are equal.
    pub fn eq(a_numer: i64, a_denom: i64, b_numer: i64, b_denom: i64) -> (r: bool)
        requires
            frac_ok(a_numer, a_denom),
            frac_ok(b_numer, b_denom),
        ensures
            r == (canon(a_numer as int, a_denom as int) == canon(b_numer as int, b_denom as int)),
    {
        Rational::new(a_numer, a_denom).eq(&Rational::new(b_numer, b_denom))
    }
}

} // verus!
