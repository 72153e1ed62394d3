//! Metre: how a bar is divided into stressed segments and beats.
//!
//! Every time a metre knows lies on a grid of 32 steps per whole note (time signature
//! denominators are 1, 2, 4, 8, 16 or 32), so its values are given by step counts.
use crate::arith::{
    canon, from_tick, lemma_canon, lemma_canon_same, lemma_from_tick, lemma_grid_determined,
    lcm, lemma_tick_fits, lemma_ticks, on_grid, q_div, q_int, q_lt, reduced, tick, Q,
};
use crate::rational::{fits, i64_gcd, Rational};
use vstd::prelude::*;

verus! {

/// Steps per whole note of the metre grid.
pub open spec fn metre_grid() -> int {
    32
}

/// Whether a segment is divided into an even (or single) or odd number of equal beats.
///
/// See https://en.wikipedia.org/wiki/Metre_(music)#Metres_classified_by_the_subdivisions_of_a_beat
#[derive(Debug, Clone, Copy, PartialEq, Eq, Structural)]
pub enum Subdivision {
    /// An even number of equal subdivisions, or a single one.
    Simple,
    /// An odd number of equal subdivisions.
    Compound,
}

/// The role of a segment among the segments of a bar.
///
/// See https://en.wikipedia.org/wiki/Metre_(music)#Metres_classified_by_the_number_of_beats_per_measure
#[derive(Debug, Clone, Copy, PartialEq, Eq, Structural)]
pub enum Superdivision {
    /// An even number of such parts form a group.
    Duple,
    /// An odd (usually three) number of such parts form a group.
    Triple,
    /// The emphasis on the 6th eighth note of 12/8.
    Quadruple,
}

/// A segment as a value: its length in grid steps, its beats, and its role.
pub struct SegSpec {
    pub ticks: int,
    pub subdivisions: int,
    pub superdivision: Superdivision,
}

/// A part of a bar, starting on a stress and ending before the next one.
#[derive(Debug, Clone, Copy)]
pub struct MetreSegment {
    duration: Rational,
    subdivisions: u8,
    superdivision: Superdivision,
}

impl MetreSegment {
    pub closed spec fn duration_q(&self) -> Q {
        self.duration@
    }

    pub closed spec fn subdivisions_spec(&self) -> int {
        self.subdivisions as int
    }

    pub closed spec fn superdivision_spec(&self) -> Superdivision {
        self.superdivision
    }

    /// Length in metre grid steps.
    pub open spec fn ticks(&self) -> int {
        tick(self.duration_q(), metre_grid())
    }

    pub open spec fn spec_view(&self) -> SegSpec {
        SegSpec {
            ticks: self.ticks(),
            subdivisions: self.subdivisions_spec(),
            superdivision: self.superdivision_spec(),
        }
    }

    pub open spec fn wf(&self) -> bool {
        &&& reduced(self.duration_q())
        &&& on_grid(self.duration_q(), metre_grid())
        &&& 1 <= self.ticks() <= 128
        &&& 1 <= self.subdivisions_spec() <= 4
        &&& self.ticks() % self.subdivisions_spec() == 0
    }

    /// The classification of a segment with `n` beats.
    pub open spec fn subdivision_of(n: int) -> Subdivision {
        if n % 2 == 0 || n == 1 {
            Subdivision::Simple
        } else {
            Subdivision::Compound
        }
    }

    fn build(ticks: i64, subdivisions: u8, superdivision: Superdivision) -> (s: MetreSegment)
        requires
            1 <= ticks <= 128,
            1 <= subdivisions <= 4,
            ticks % (subdivisions as i64) == 0,
        ensures
            s.wf(),
            s.spec_view() == (SegSpec {
                ticks: ticks as int,
                subdivisions: subdivisions as int,
                superdivision,
            }),
            s.duration_q() == from_tick(ticks as int, metre_grid()),
    {
        proof {
            lemma_tick_fits(ticks as int, 32);
        }
        MetreSegment { duration: Rational::new(ticks, 32), subdivisions, superdivision }
    }

    /// The number of whole notes in this part of the bar.
    pub fn duration(&self) -> (r: Rational)
        requires
            self.wf(),
        ensures
            r.wf(),
            r@ == self.duration_q(),
            r@ == from_tick(self.ticks(), metre_grid()),
    {
        proof {
            lemma_grid_determined(self.duration_q(), 32);
            lemma_tick_fits(self.ticks(), 32);
        }
        self.duration
    }

    /// The number of beats (time signature denominator notes) in this part.
    pub fn subdivisions(&self) -> (r: u8)
        ensures
            r == self.subdivisions_spec(),
    {
        self.subdivisions
    }

    /// The number of whole notes in each beat of this part.
    pub fn subdivision_duration(&self) -> (r: Rational)
        requires
            self.wf(),
        ensures
            r.wf(),
            r@ == from_tick(self.ticks() / self.subdivisions_spec(), metre_grid()),
    {
        let d = self.duration;
        let s = Rational::from_integer(self.subdivisions as i64);
        let ghost t = self.ticks();
        let ghost k = t / self.subdivisions_spec();
        proof {
            lemma_grid_determined(self.duration_q(), 32);
            lemma_canon(t, 32);
            let dq = d@;
            let sub = self.subdivisions_spec();
            vstd::arithmetic::div_mod::lemma_fundamental_div_mod(t, sub);
            assert(dq.n * 32 == k * (dq.d * sub)) by (nonlinear_arith)
                requires
                    dq.n * 32 == t * dq.d,
                    t == sub * k,
            ;
            assert(dq.d * sub != 0) by (nonlinear_arith)
                requires
                    dq.d > 0,
                    sub >= 1,
            ;
            assert(q_div(dq, s@) == canon(dq.n * 1, dq.d * sub));
            lemma_canon_same(dq.n * 1, dq.d * sub, k, 32);
            assert(0 <= k <= 128) by (nonlinear_arith)
                requires
                    t == sub * k,
                    1 <= t <= 128,
                    sub >= 1,
            ;
            lemma_tick_fits(k, 32);
        }
        d.div(s)
    }

    /// Simple time for an even or single number of beats, compound time otherwise.
    pub fn subdivision(&self) -> (r: Subdivision)
        ensures
            r == MetreSegment::subdivision_of(self.subdivisions_spec()),
    {
        if self.subdivisions % 2 == 0 || self.subdivisions == 1 {
            Subdivision::Simple
        } else {
            Subdivision::Compound
        }
    }

    /// The role this segment plays in the bar.
    pub fn superdivision(&self) -> (r: Superdivision)
        ensures
            r == self.superdivision_spec(),
    {
        self.superdivision
    }
}

/// A segment is compound exactly when it has an odd number of beats other than one: of the
/// one to four beats a segment can have, exactly three.
pub proof fn law_compound_segments(n: int)
    ensures
        (MetreSegment::subdivision_of(n) == Subdivision::Compound) == (n % 2 == 1 && n != 1),
        1 <= n <= 4 ==> ((MetreSegment::subdivision_of(n) == Subdivision::Compound) == (n == 3)),
{
}

/// The number of beats in each segment that a time signature with `t` beats left starts.
pub open spec fn general_subdivisions(t: int) -> int {
    if t == 4 {
        4
    } else if t >= 3 {
        3
    } else if t >= 2 {
        2
    } else {
        1
    }
}

/// Segments for `t` remaining beats of `1 / den` whole notes, where no convention applies.
pub open spec fn general_segments(t: int, den: int) -> Seq<SegSpec>
    decreases t,
{
    if t <= 0 {
        Seq::empty()
    } else {
        let s = general_subdivisions(t);
        seq![SegSpec { ticks: s * 32 / den, subdivisions: s, superdivision: Superdivision::Duple }]
            + general_segments(t - s, den)
    }
}

pub open spec fn repeat_seg(ticks: int, subdivisions: int, sup: Superdivision, n: nat) -> Seq<
    SegSpec,
> {
    Seq::new(n, |i: int| SegSpec { ticks, subdivisions, superdivision: sup })
}

/// The segments of the time signature `num / den`.
pub open spec fn metre_segments(num: int, den: int) -> Seq<SegSpec> {
    let d = Superdivision::Duple;
    if num == 4 && den == 4 {
        repeat_seg(16, 2, d, 2)
    } else if num == 2 && den == 2 {
        repeat_seg(16, 1, d, 2)
    } else if num == 4 && den == 8 {
        repeat_seg(8, 2, d, 2)
    } else if num == 2 && den == 4 {
        repeat_seg(8, 1, d, 2)
    } else if num == 6 && den == 16 {
        repeat_seg(6, 3, d, 2)
    } else if num == 6 && den == 8 {
        repeat_seg(12, 3, d, 2)
    } else if num == 6 && den == 4 {
        repeat_seg(24, 3, d, 2)
    } else if num == 12 && den == 8 {
        repeat_seg(12, 3, d, 2) + seq![
            SegSpec { ticks: 12, subdivisions: 3, superdivision: Superdivision::Quadruple },
        ] + repeat_seg(12, 3, d, 1)
    } else if num == 3 && den == 4 {
        repeat_seg(8, 1, Superdivision::Triple, 3)
    } else if num == 3 && den == 8 {
        repeat_seg(4, 1, Superdivision::Triple, 3)
    } else if num == 9 && den == 8 {
        repeat_seg(12, 3, Superdivision::Triple, 3)
    } else {
        general_segments(num, den)
    }
}

/// Where no convention applies, beats are grouped greedily in threes, except that four beats
/// left make one group of four: the first group has 4 beats when 4 are left and otherwise the
/// smaller of 3 and the beats left, each group lasting its beats of `1 / den` whole notes
/// (32 grid steps per whole note), and the rest is grouped the same way.  So 5/8 starts its
/// groups at 0 and 3/8, and 7/8 at 0 and 3/8.
pub proof fn law_general_grouping(t: int, den: int)
    requires
        t >= 1,
    ensures
        ({
            let s = if t == 4 {
                4
            } else if t < 3 {
                t
            } else {
                3
            };
            general_segments(t, den) == seq![
                SegSpec { ticks: s * 32 / den, subdivisions: s, superdivision: Superdivision::Duple },
            ] + general_segments(t - s, den)
        }),
{
}

/// Beats (subdivisions) in the first `j` segments of `ss`.
pub open spec fn beats_before(ss: Seq<SegSpec>, j: int) -> int
    decreases j,
{
    if j <= 0 || ss.len() == 0 {
        0
    } else {
        ss[0].subdivisions + beats_before(ss.subrange(1, ss.len() as int), j - 1)
    }
}

/// In a time signature with no convention, every group is set by the beats left before it:
/// a group of 4 where exactly 4 are left, else of 3 where 3 or more are left, else of all
/// that are left; each group is duple and lasts its beats of `1 / den` whole notes (32 grid
/// steps per whole note), and the groups together hold all `num` beats.  So 5/8 is grouped
/// 3 + 2, starting at 0, 3/8 and ending at 5/8, and 7/8 is grouped 3 + 4.
pub proof fn law_unconventional_grouping(num: int, den: int)
    requires
        0 <= num,
        valid_den(den),
        !((num == 4 && den == 4) || (num == 2 && den == 2) || (num == 4 && den == 8) || (num == 2
            && den == 4) || (num == 6 && den == 16) || (num == 6 && den == 8) || (num == 6 && den
            == 4) || (num == 12 && den == 8) || (num == 3 && den == 4) || (num == 3 && den == 8) || (
        num == 9 && den == 8)),
    ensures
        beats_before(metre_segments(num, den), metre_segments(num, den).len() as int) == num,
        forall|j: int|
            #![trigger metre_segments(num, den)[j]]
            0 <= j < metre_segments(num, den).len() ==> {
                let ss = metre_segments(num, den);
                let left = num - beats_before(ss, j);
                &&& left >= 1
                &&& ss[j].subdivisions == (if left == 4 {
                    4
                } else if left >= 3 {
                    3
                } else {
                    left
                })
                &&& ss[j].ticks * den == 32 * ss[j].subdivisions
                &&& ss[j].superdivision == Superdivision::Duple
            },
{
    lemma_general_groups(num, den);
}

proof fn lemma_general_groups(t: int, den: int)
    requires
        0 <= t,
        valid_den(den),
    ensures
        beats_before(general_segments(t, den), general_segments(t, den).len() as int) == t,
        forall|j: int|
            #![trigger general_segments(t, den)[j]]
            0 <= j < general_segments(t, den).len() ==> {
                let ss = general_segments(t, den);
                let left = t - beats_before(ss, j);
                &&& left >= 1
                &&& ss[j].subdivisions == (if left == 4 {
                    4
                } else if left >= 3 {
                    3
                } else {
                    left
                })
                &&& ss[j].ticks * den == 32 * ss[j].subdivisions
                &&& ss[j].superdivision == Superdivision::Duple
            },
    decreases t,
{
    if t > 0 {
        let s = if t == 4 {
            4
        } else if t >= 3 {
            3
        } else {
            t
        };
        assert(general_subdivisions(t) == s);
        let h = SegSpec { ticks: s * 32 / den, subdivisions: s, superdivision: Superdivision::Duple };
        let rest = general_segments(t - s, den);
        let ss = general_segments(t, den);
        lemma_general_groups(t - s, den);
        assert(ss == seq![h] + rest);
        assert(ss.subrange(1, ss.len() as int) =~= rest);
        assert((s * 32 / den) * den == 32 * s) by {
            vstd::arithmetic::div_mod::lemma_fundamental_div_mod(s * 32, den);
            assert((s * 32) % den == 0) by {
                if den == 1 {
                } else if den == 2 {
                } else if den == 4 {
                } else if den == 8 {
                } else if den == 16 {
                } else {
                }
            }
        }
        assert(beats_before(ss, ss.len() as int) == s + beats_before(rest, rest.len() as int));
        assert forall|j: int| #![trigger ss[j]] 0 <= j < ss.len() implies {
            let left = t - beats_before(ss, j);
            &&& left >= 1
            &&& ss[j].subdivisions == (if left == 4 {
                4
            } else if left >= 3 {
                3
            } else {
                left
            })
            &&& ss[j].ticks * den == 32 * ss[j].subdivisions
            &&& ss[j].superdivision == Superdivision::Duple
        } by {
            if j == 0 {
                assert(beats_before(ss, 0) == 0);
                assert(ss[0] == h);
            } else {
                assert(beats_before(ss, j) == s + beats_before(rest, j - 1));
                assert(ss[j] == rest[j - 1]);
                let k = j - 1;
                assert(rest[k].subdivisions == rest[k].subdivisions);
            }
        }
    } else {
        assert(general_segments(t, den) =~= Seq::<SegSpec>::empty());
    }
}

/// A time signature with no convention is grouped by `general_segments`; the conventions are
/// 4/4, 2/2, 4/8, 2/4, 6/16, 6/8, 6/4, 12/8, 3/4, 3/8 and 9/8 (in grid steps of 1/32 whole
/// note).
pub proof fn law_metre_conventions(num: int, den: int)
    ensures
        num == 4 && den == 4 ==> metre_segments(num, den) == seq![
            SegSpec { ticks: 16, subdivisions: 2, superdivision: Superdivision::Duple },
            SegSpec { ticks: 16, subdivisions: 2, superdivision: Superdivision::Duple },
        ],
        num == 2 && den == 2 ==> metre_segments(num, den) == seq![
            SegSpec { ticks: 16, subdivisions: 1, superdivision: Superdivision::Duple },
            SegSpec { ticks: 16, subdivisions: 1, superdivision: Superdivision::Duple },
        ],
        num == 4 && den == 8 ==> metre_segments(num, den) == seq![
            SegSpec { ticks: 8, subdivisions: 2, superdivision: Superdivision::Duple },
            SegSpec { ticks: 8, subdivisions: 2, superdivision: Superdivision::Duple },
        ],
        num == 2 && den == 4 ==> metre_segments(num, den) == seq![
            SegSpec { ticks: 8, subdivisions: 1, superdivision: Superdivision::Duple },
            SegSpec { ticks: 8, subdivisions: 1, superdivision: Superdivision::Duple },
        ],
        num == 6 && den == 16 ==> metre_segments(num, den) == seq![
            SegSpec { ticks: 6, subdivisions: 3, superdivision: Superdivision::Duple },
            SegSpec { ticks: 6, subdivisions: 3, superdivision: Superdivision::Duple },
        ],
        num == 6 && den == 8 ==> metre_segments(num, den) == seq![
            SegSpec { ticks: 12, subdivisions: 3, superdivision: Superdivision::Duple },
            SegSpec { ticks: 12, subdivisions: 3, superdivision: Superdivision::Duple },
        ],
        num == 6 && den == 4 ==> metre_segments(num, den) == seq![
            SegSpec { ticks: 24, subdivisions: 3, superdivision: Superdivision::Duple },
            SegSpec { ticks: 24, subdivisions: 3, superdivision: Superdivision::Duple },
        ],
        num == 12 && den == 8 ==> metre_segments(num, den) == seq![
            SegSpec { ticks: 12, subdivisions: 3, superdivision: Superdivision::Duple },
            SegSpec { ticks: 12, subdivisions: 3, superdivision: Superdivision::Duple },
            SegSpec { ticks: 12, subdivisions: 3, superdivision: Superdivision::Quadruple },
            SegSpec { ticks: 12, subdivisions: 3, superdivision: Superdivision::Duple },
        ],
        num == 3 && den == 4 ==> metre_segments(num, den) == seq![
            SegSpec { ticks: 8, subdivisions: 1, superdivision: Superdivision::Triple },
            SegSpec { ticks: 8, subdivisions: 1, superdivision: Superdivision::Triple },
            SegSpec { ticks: 8, subdivisions: 1, superdivision: Superdivision::Triple },
        ],
        num == 3 && den == 8 ==> metre_segments(num, den) == seq![
            SegSpec { ticks: 4, subdivisions: 1, superdivision: Superdivision::Triple },
            SegSpec { ticks: 4, subdivisions: 1, superdivision: Superdivision::Triple },
            SegSpec { ticks: 4, subdivisions: 1, superdivision: Superdivision::Triple },
        ],
        num == 9 && den == 8 ==> metre_segments(num, den) == seq![
            SegSpec { ticks: 12, subdivisions: 3, superdivision: Superdivision::Triple },
            SegSpec { ticks: 12, subdivisions: 3, superdivision: Superdivision::Triple },
            SegSpec { ticks: 12, subdivisions: 3, superdivision: Superdivision::Triple },
        ],
        !((num == 4 && den == 4) || (num == 2 && den == 2) || (num == 4 && den == 8) || (num == 2
            && den == 4) || (num == 6 && den == 16) || (num == 6 && den == 8) || (num == 6 && den
            == 4) || (num == 12 && den == 8) || (num == 3 && den == 4) || (num == 3 && den == 8) || (
        num == 9 && den == 8)) ==> metre_segments(num, den) == general_segments(num, den),
{
    let d = Superdivision::Duple;
    let q = Superdivision::Quadruple;
    let tr = Superdivision::Triple;
    assert(repeat_seg(16, 2, d, 2) =~= seq![SegSpec { ticks: 16, subdivisions: 2, superdivision: d }, SegSpec { ticks: 16, subdivisions: 2, superdivision: d }]);
    assert(repeat_seg(16, 1, d, 2) =~= seq![SegSpec { ticks: 16, subdivisions: 1, superdivision: d }, SegSpec { ticks: 16, subdivisions: 1, superdivision: d }]);
    assert(repeat_seg(8, 2, d, 2) =~= seq![SegSpec { ticks: 8, subdivisions: 2, superdivision: d }, SegSpec { ticks: 8, subdivisions: 2, superdivision: d }]);
    assert(repeat_seg(8, 1, d, 2) =~= seq![SegSpec { ticks: 8, subdivisions: 1, superdivision: d }, SegSpec { ticks: 8, subdivisions: 1, superdivision: d }]);
    assert(repeat_seg(6, 3, d, 2) =~= seq![SegSpec { ticks: 6, subdivisions: 3, superdivision: d }, SegSpec { ticks: 6, subdivisions: 3, superdivision: d }]);
    assert(repeat_seg(12, 3, d, 2) =~= seq![SegSpec { ticks: 12, subdivisions: 3, superdivision: d }, SegSpec { ticks: 12, subdivisions: 3, superdivision: d }]);
    assert(repeat_seg(24, 3, d, 2) =~= seq![SegSpec { ticks: 24, subdivisions: 3, superdivision: d }, SegSpec { ticks: 24, subdivisions: 3, superdivision: d }]);
    assert(repeat_seg(12, 3, d, 1) =~= seq![SegSpec { ticks: 12, subdivisions: 3, superdivision: d }]);
    assert(repeat_seg(12, 3, d, 2) + seq![SegSpec { ticks: 12, subdivisions: 3, superdivision: q }] + repeat_seg(12, 3, d, 1) =~= seq![
        SegSpec { ticks: 12, subdivisions: 3, superdivision: d },
        SegSpec { ticks: 12, subdivisions: 3, superdivision: d },
        SegSpec { ticks: 12, subdivisions: 3, superdivision: q },
        SegSpec { ticks: 12, subdivisions: 3, superdivision: d },
    ]);
    assert(repeat_seg(8, 1, tr, 3) =~= seq![SegSpec { ticks: 8, subdivisions: 1, superdivision: tr }, SegSpec { ticks: 8, subdivisions: 1, superdivision: tr }, SegSpec { ticks: 8, subdivisions: 1, superdivision: tr }]);
    assert(repeat_seg(4, 1, tr, 3) =~= seq![SegSpec { ticks: 4, subdivisions: 1, superdivision: tr }, SegSpec { ticks: 4, subdivisions: 1, superdivision: tr }, SegSpec { ticks: 4, subdivisions: 1, superdivision: tr }]);
    assert(repeat_seg(12, 3, tr, 3) =~= seq![SegSpec { ticks: 12, subdivisions: 3, superdivision: tr }, SegSpec { ticks: 12, subdivisions: 3, superdivision: tr }, SegSpec { ticks: 12, subdivisions: 3, superdivision: tr }]);
}

/// A time signature denominator that `Metre::new` accepts.
pub open spec fn valid_den(den: int) -> bool {
    den == 1 || den == 2 || den == 4 || den == 8 || den == 16 || den == 32
}

/// Grid steps before segment `i`.
pub open spec fn start_ticks(segs: Seq<MetreSegment>, i: int) -> int
    decreases i,
{
    if i <= 0 {
        0
    } else {
        start_ticks(segs, i - 1) + segs[i - 1].ticks()
    }
}

/// The first segment that ends after `t`, searching from `i`.
pub open spec fn division_index(segs: Seq<MetreSegment>, t: Q, i: int) -> Option<int>
    decreases segs.len() - i,
{
    if i < 0 || i >= segs.len() {
        None
    } else if q_lt(t, from_tick(start_ticks(segs, i + 1), metre_grid())) {
        Some(i)
    } else {
        division_index(segs, t, i + 1)
    }
}

/// The first segment starting at `t`, searching from `i`.
pub open spec fn division_at(segs: Seq<MetreSegment>, t: Q, i: int) -> Option<int>
    decreases segs.len() - i,
{
    if i < 0 || i >= segs.len() {
        None
    } else if t == from_tick(start_ticks(segs, i), metre_grid()) {
        Some(i)
    } else {
        division_at(segs, t, i + 1)
    }
}

/// A segment of a well-formed metre that starts at `t` is the one `division_at` finds.
pub proof fn lemma_division_at_start(segs: Seq<MetreSegment>, t: Q, i: int, j: int)
    requires
        0 <= i <= j < segs.len(),
        forall|k: int| 0 <= k < segs.len() ==> #[trigger] segs[k].wf(),
        from_tick(start_ticks(segs, j), metre_grid()) == t,
    ensures
        division_at(segs, t, i) == Some(j),
    decreases j - i,
{
    if i < j {
        lemma_start_ticks(segs, i, j);
        crate::arith::lemma_from_tick(start_ticks(segs, i), metre_grid());
        crate::arith::lemma_from_tick(start_ticks(segs, j), metre_grid());
        lemma_division_at_start(segs, t, i + 1, j);
    }
}

/// The beats of the segments from `i` on, as grid steps.
pub open spec fn beat_ticks(segs: Seq<MetreSegment>, i: int) -> Seq<int>
    decreases segs.len() - i,
{
    if i < 0 || i >= segs.len() {
        Seq::empty()
    } else {
        let s = segs[i];
        let step = s.ticks() / s.subdivisions_spec();
        Seq::new(s.subdivisions_spec() as nat, |k: int| start_ticks(segs, i) + k * step)
            + beat_ticks(segs, i + 1)
    }
}

/// Total grid steps of a sequence of segment values.
pub open spec fn seg_total(ss: Seq<SegSpec>) -> int
    decreases ss.len(),
{
    if ss.len() == 0 {
        0
    } else {
        seg_total(ss.drop_last()) + ss.last().ticks
    }
}

proof fn lemma_seg_total_concat(a: Seq<SegSpec>, b: Seq<SegSpec>)
    ensures
        seg_total(a + b) == seg_total(a) + seg_total(b),
    decreases b.len(),
{
    if b.len() > 0 {
        assert((a + b).drop_last() =~= a + b.drop_last());
        lemma_seg_total_concat(a, b.drop_last());
    } else {
        assert(a + b =~= a);
    }
}

proof fn lemma_seg_total_repeat(x: int, s: int, sup: Superdivision, n: nat)
    ensures
        seg_total(repeat_seg(x, s, sup, n)) == n * x,
    decreases n,
{
    if n > 0 {
        assert(repeat_seg(x, s, sup, n).drop_last() =~= repeat_seg(x, s, sup, (n - 1) as nat));
        assert(repeat_seg(x, s, sup, n).last().ticks == x);
        lemma_seg_total_repeat(x, s, sup, (n - 1) as nat);
        assert(n * x == (n - 1) * x + x) by (nonlinear_arith);
        assert(seg_total(repeat_seg(x, s, sup, n)) == seg_total(repeat_seg(x, s, sup, (n - 1) as nat)) + x);
    } else {
        assert(n * x == 0) by (nonlinear_arith)
            requires
                n == 0,
        ;
    }
}

proof fn lemma_seg_total_general(t: int, den: int)
    requires
        valid_den(den),
    ensures
        seg_total(general_segments(t, den)) * den == 32 * (if t > 0 {
            t
        } else {
            0
        }),
    decreases t,
{
    if t > 0 {
        let s = general_subdivisions(t);
        let head = seq![SegSpec { ticks: s * 32 / den, subdivisions: s, superdivision: Superdivision::Duple }];
        lemma_seg_total_general(t - s, den);
        lemma_seg_total_concat(head, general_segments(t - s, den));
        assert(seg_total(head) == s * 32 / den) by {
            assert(head.drop_last() =~= Seq::<SegSpec>::empty());
            assert(seg_total(Seq::<SegSpec>::empty()) == 0);
            assert(head.last().ticks == s * 32 / den);
        }
        assert((s * 32 / den) * den == 32 * s) by {
            vstd::arithmetic::div_mod::lemma_fundamental_div_mod(s * 32, den);
            assert((s * 32) % den == 0) by {
                if den == 1 {
                } else if den == 2 {
                } else if den == 4 {
                } else if den == 8 {
                } else if den == 16 {
                } else {
                }
            }
        }
        assert(seg_total(general_segments(t, den)) * den == (s * 32 / den) * den + seg_total(
            general_segments(t - s, den),
        ) * den) by (nonlinear_arith)
            requires
                seg_total(general_segments(t, den)) == s * 32 / den + seg_total(
                    general_segments(t - s, den),
                ),
        ;
    }
}

/// Grid steps before segment `i` are the total of the first `i` segment values.
proof fn lemma_start_ticks_total(segs: Seq<MetreSegment>, i: int)
    requires
        0 <= i <= segs.len(),
    ensures
        start_ticks(segs, i) == seg_total(
            segs.map_values(|s: MetreSegment| s.spec_view()).take(i),
        ),
    decreases i,
{
    if i > 0 {
        lemma_start_ticks_total(segs, i - 1);
        let m = segs.map_values(|s: MetreSegment| s.spec_view());
        assert(m.take(i).drop_last() =~= m.take(i - 1));
    }
}

proof fn lemma_metre_total(segs: Seq<MetreSegment>, num: int, den: int)
    requires
        valid_den(den),
        segs.map_values(|s: MetreSegment| s.spec_view()) == metre_segments(num, den),
        num >= 0,
    ensures
        start_ticks(segs, segs.len() as int) * den == 32 * num,
{
    let m = segs.map_values(|s: MetreSegment| s.spec_view());
    lemma_start_ticks_total(segs, segs.len() as int);
    assert(m.take(segs.len() as int) =~= m);
    let d = Superdivision::Duple;
    if num == 12 && den == 8 {
        let a = repeat_seg(12, 3, d, 2);
        let q = seq![SegSpec { ticks: 12, subdivisions: 3, superdivision: Superdivision::Quadruple }];
        let b = repeat_seg(12, 3, d, 1);
        lemma_seg_total_concat(a + q, b);
        lemma_seg_total_concat(a, q);
        lemma_seg_total_repeat(12, 3, d, 2);
        lemma_seg_total_repeat(12, 3, d, 1);
        assert(q.drop_last() =~= Seq::<SegSpec>::empty());
        assert(seg_total(Seq::<SegSpec>::empty()) == 0);
        assert(seg_total(q) == 12);
        assert(metre_segments(num, den) == a + q + b);
    } else if (num == 4 && den == 4) || (num == 2 && den == 2) {
        lemma_seg_total_repeat(16, if num == 4 { 2 } else { 1 }, d, 2);
    } else if (num == 4 && den == 8) || (num == 2 && den == 4) {
        lemma_seg_total_repeat(8, if num == 4 { 2 } else { 1 }, d, 2);
    } else if num == 6 && den == 16 {
        lemma_seg_total_repeat(6, 3, d, 2);
    } else if num == 6 && den == 8 {
        lemma_seg_total_repeat(12, 3, d, 2);
    } else if num == 6 && den == 4 {
        lemma_seg_total_repeat(24, 3, d, 2);
    } else if num == 3 && den == 4 {
        lemma_seg_total_repeat(8, 1, Superdivision::Triple, 3);
    } else if num == 3 && den == 8 {
        lemma_seg_total_repeat(4, 1, Superdivision::Triple, 3);
    } else if num == 9 && den == 8 {
        lemma_seg_total_repeat(12, 3, Superdivision::Triple, 3);
    } else {
        lemma_seg_total_general(num, den);
    }
}

/// Segments for a time signature that follows no convention.
fn general(num: u8, den: u8) -> (v: Vec<MetreSegment>)
    requires
        valid_den(den as int),
    ensures
        v@.len() <= 255,
        forall|i: int| 0 <= i < v@.len() ==> #[trigger] v@[i].wf(),
        v@.map_values(|s: MetreSegment| s.spec_view()) == general_segments(num as int, den as int),
{
    let mut segments: Vec<MetreSegment> = Vec::new();
    let mut t: u8 = num;
    while t > 0
        invariant
            valid_den(den as int),
            t <= num,
            segments@.len() + t <= num,
            forall|i: int| 0 <= i < segments@.len() ==> #[trigger] segments@[i].wf(),
            segments@.map_values(|s: MetreSegment| s.spec_view()) + general_segments(
                t as int,
                den as int,
            ) == general_segments(num as int, den as int),
        decreases t,
    {
        let subdivisions: u8 = if t == 4 {
            4
        } else if t >= 3 {
            3
        } else if t >= 2 {
            2
        } else {
            1
        };
        let per: i64 = if den == 1 {
            32
        } else if den == 2 {
            16
        } else if den == 4 {
            8
        } else if den == 8 {
            4
        } else if den == 16 {
            2
        } else {
            1
        };
        let ticks = (subdivisions as i64) * per;
        proof {
            assert(per * (den as int) == 32);
            assert(ticks == (subdivisions as int) * 32 / (den as int)) by {
                vstd::arithmetic::div_mod::lemma_div_multiples_vanish(
                    (subdivisions as int) * per,
                    den as int,
                );
                assert((subdivisions as int) * 32 == (den as int) * ((subdivisions as int) * per))
                    by (nonlinear_arith)
                    requires
                        per * (den as int) == 32,
                ;
            }
            assert(1 <= per <= 32);
            assert(1 <= ticks <= 128) by (nonlinear_arith)
                requires
                    ticks == (subdivisions as int) * per,
                    1 <= subdivisions <= 4,
                    1 <= per <= 32,
            ;
            vstd::arithmetic::div_mod::lemma_mod_multiples_basic(per as int, subdivisions as int);
            assert(ticks % (subdivisions as i64) == 0) by {
                assert(ticks == per * (subdivisions as int)) by (nonlinear_arith)
                    requires
                        ticks == (subdivisions as int) * per,
                ;
            }
        }
        let seg = MetreSegment::build(ticks, subdivisions, Superdivision::Duple);
        let ghost old_segs = segments@;
        segments.push(seg);
        proof {
            let m_old = old_segs.map_values(|s: MetreSegment| s.spec_view());
            let m_new = segments@.map_values(|s: MetreSegment| s.spec_view());
            assert(m_new =~= m_old.push(seg.spec_view()));
            let head = seq![seg.spec_view()];
            assert(general_segments(t as int, den as int) == head + general_segments(
                t - subdivisions,
                den as int,
            ));
            assert(m_new + general_segments((t - subdivisions) as int, den as int) =~= m_old + (
            head + general_segments((t - subdivisions) as int, den as int)));
        }
        t = t - subdivisions;
    }
    proof {
        assert(general_segments(0, den as int) =~= Seq::<SegSpec>::empty());
        let m = segments@.map_values(|s: MetreSegment| s.spec_view());
        assert(m + Seq::<SegSpec>::empty() =~= m);
    }
    segments
}

/// The way beats are organized in a bar of music.
#[derive(Debug, Clone)]
pub struct Metre(Vec<MetreSegment>);

fn repeated(ticks: i64, subdivisions: u8, sup: Superdivision, n: usize) -> (v: Vec<MetreSegment>)
    requires
        1 <= ticks <= 128,
        1 <= subdivisions <= 4,
        ticks % (subdivisions as i64) == 0,
    ensures
        v@.len() == n,
        forall|i: int| 0 <= i < n ==> #[trigger] v@[i].wf(),
        v@.map_values(|s: MetreSegment| s.spec_view()) =~= repeat_seg(
            ticks as int,
            subdivisions as int,
            sup,
            n as nat,
        ),
{
    let mut v: Vec<MetreSegment> = Vec::new();
    let mut i: usize = 0;
    while i < n
        invariant
            i <= n,
            v@.len() == i,
            1 <= ticks <= 128,
            1 <= subdivisions <= 4,
            ticks % (subdivisions as i64) == 0,
            forall|j: int| 0 <= j < i ==> #[trigger] v@[j].wf(),
            forall|j: int|
                0 <= j < i ==> #[trigger] v@[j].spec_view() == (SegSpec {
                    ticks: ticks as int,
                    subdivisions: subdivisions as int,
                    superdivision: sup,
                }),
        decreases n - i,
    {
        v.push(MetreSegment::build(ticks, subdivisions, sup));
        i = i + 1;
    }
    v
}

impl Metre {
    pub closed spec fn segments(&self) -> Seq<MetreSegment> {
        self.0@
    }

    /// Grid steps in the whole bar.
    pub open spec fn total_ticks(&self) -> int {
        start_ticks(self.segments(), self.segments().len() as int)
    }

    /// The start of segment `i` (or of the next bar, for `i == len`).
    pub open spec fn start_q(&self, i: int) -> Q {
        from_tick(start_ticks(self.segments(), i), metre_grid())
    }

    pub open spec fn wf(&self) -> bool {
        &&& self.segments().len() <= 255
        &&& forall|i: int| 0 <= i < self.segments().len() ==> #[trigger] self.segments()[i].wf()
    }

    /// The time signature `num / den`, for a denominator of 1, 2, 4, 8, 16 or 32.  Common
    /// signatures follow convention; for others, beats are grouped in
    /// fours (when exactly four are left), threes, twos and ones.
    pub fn new(num: u8, den: u8) -> (r: Metre)
        requires
            valid_den(den as int),
        ensures
            r.wf(),
            r.segments().map_values(|s: MetreSegment| s.spec_view()) == metre_segments(
                num as int,
                den as int,
            ),
            r.total_ticks() * (den as int) == 32 * (num as int),
    {
        let d = Superdivision::Duple;
        let segs: Vec<MetreSegment> = if num == 4 && den == 4 {
            repeated(16, 2, d, 2)
        } else if num == 2 && den == 2 {
            repeated(16, 1, d, 2)
        } else if num == 4 && den == 8 {
            repeated(8, 2, d, 2)
        } else if num == 2 && den == 4 {
            repeated(8, 1, d, 2)
        } else if num == 6 && den == 16 {
            repeated(6, 3, d, 2)
        } else if num == 6 && den == 8 {
            repeated(12, 3, d, 2)
        } else if num == 6 && den == 4 {
            repeated(24, 3, d, 2)
        } else if num == 12 && den == 8 {
            let mut v = repeated(12, 3, d, 2);
            v.push(MetreSegment::build(12, 3, Superdivision::Quadruple));
            v.push(MetreSegment::build(12, 3, d));
            v
        } else if num == 3 && den == 4 {
            repeated(8, 1, Superdivision::Triple, 3)
        } else if num == 3 && den == 8 {
            repeated(4, 1, Superdivision::Triple, 3)
        } else if num == 9 && den == 8 {
            repeated(12, 3, Superdivision::Triple, 3)
        } else {
            general(num, den)
        };
        let r = Metre(segs);
        proof {
            if num == 12 && den == 8 {
                let m = r.segments().map_values(|s: MetreSegment| s.spec_view());
                assert(m =~= metre_segments(num as int, den as int));
            }
            lemma_metre_total(r.segments(), num as int, den as int);
        }
        r
    }
}

/// Segment starts grow by each segment's length.
pub proof fn lemma_start_ticks(segs: Seq<MetreSegment>, i: int, j: int)
    requires
        0 <= i <= j <= segs.len(),
        forall|k: int| 0 <= k < segs.len() ==> #[trigger] segs[k].wf(),
    ensures
        0 <= start_ticks(segs, i) <= 128 * i,
        i < j ==> start_ticks(segs, i) < start_ticks(segs, j),
        start_ticks(segs, i) <= start_ticks(segs, j),
    decreases j,
{
    if j > 0 {
        if i < j {
            lemma_start_ticks(segs, i, j - 1);
        }
        assert(segs[j - 1].wf());
    }
    if i > 0 {
        lemma_start_ticks(segs, i - 1, i - 1);
        assert(segs[i - 1].wf());
    }
}

/// The first start after `t`, searching the starts `j..=len`.
pub open spec fn next_index(segs: Seq<MetreSegment>, t: Q, j: int) -> int
    decreases segs.len() + 1 - j,
{
    if j < 0 || j >= segs.len() {
        segs.len() as int
    } else if q_lt(t, from_tick(start_ticks(segs, j), metre_grid())) {
        j
    } else {
        next_index(segs, t, j + 1)
    }
}

/// The least common multiple of the beat denominators of segments `0..i`.
pub open spec fn beat_lcm(segs: Seq<MetreSegment>, i: int) -> nat
    decreases i,
{
    if i <= 0 {
        1
    } else {
        lcm(
            beat_lcm(segs, i - 1),
            from_tick(segs[i - 1].ticks() / segs[i - 1].subdivisions_spec(), metre_grid()).d as nat,
        )
    }
}

impl Metre {
    /// The least common multiple of the denominators of the beat durations (a divisor of 32).
    pub fn lcm(&self) -> (r: i64)
        requires
            self.wf(),
        ensures
            r == beat_lcm(self.segments(), self.segments().len() as int),
            r > 0,
            32int % (r as int) == 0,
    {
        let mut acc: i64 = 1;
        let mut i: usize = 0;
        while i < self.0.len()
            invariant
                self.wf(),
                i <= self.segments().len(),
                acc == beat_lcm(self.segments(), i as int),
                acc > 0,
                32int % (acc as int) == 0,
            decreases self.segments().len() - i,
        {
            let sd = self.0[i].subdivision_duration();
            let d = sd.denom();
            proof {
                assert(self.segments()[i as int].wf());
                let k = self.segments()[i as int].ticks() / self.segments()[i as int].subdivisions_spec();
                assert(0 <= k <= 128) by {
                    vstd::arithmetic::div_mod::lemma_div_is_ordered(0, self.segments()[i as int].ticks(), self.segments()[i as int].subdivisions_spec());
                    vstd::arithmetic::div_mod::lemma_div_is_ordered_by_denominator(self.segments()[i as int].ticks(), 1, self.segments()[i as int].subdivisions_spec());
                }
                crate::arith::lemma_from_tick(k, 32);
            }
            acc = crate::rational::i64_lcm(acc, d, Ghost(32));
            i = i + 1;
        }
        acc
    }

    /// The duration of the bar, in whole notes.
    pub fn duration(&self) -> (r: Rational)
        requires
            self.wf(),
        ensures
            r.wf(),
            r@ == self.start_q(self.segments().len() as int),
    {
        let mut len = Rational::zero();
        let mut i: usize = 0;
        proof {
            crate::arith::lemma_from_tick(0, 32);
            crate::arith::lemma_grid_determined(len@, 32);
        }
        while i < self.0.len()
            invariant
                self.wf(),
                i <= self.segments().len(),
                len.wf(),
                len@ == self.start_q(i as int),
            decreases self.segments().len() - i,
        {
            let seg = &self.0[i];
            let d = seg.duration();
            proof {
                lemma_start_ticks(self.segments(), i as int, i as int + 1);
                lemma_ticks(start_ticks(self.segments(), i as int), seg.ticks(), 32);
                lemma_start_ticks(self.segments(), i as int + 1, i as int + 1);
                lemma_tick_fits(start_ticks(self.segments(), i as int + 1), 32);
            }
            len = len.add(d);
            i = i + 1;
        }
        len
    }

    /// The start times (in whole notes) of the segments of this bar, and the start of the
    /// next bar.
    pub fn division_starts(&self) -> (r: Vec<Rational>)
        requires
            self.wf(),
        ensures
            r@.len() == self.segments().len() + 1,
            forall|j: int| 0 <= j < r@.len() ==> (#[trigger] r@[j]).wf() && r@[j]@ == self.start_q(j),
    {
        let mut divisions: Vec<Rational> = Vec::new();
        let mut start = Rational::zero();
        let mut i: usize = 0;
        proof {
            crate::arith::lemma_from_tick(0, 32);
            crate::arith::lemma_grid_determined(start@, 32);
        }
        while i < self.0.len()
            invariant
                self.wf(),
                i <= self.segments().len(),
                start.wf(),
                start@ == self.start_q(i as int),
                divisions@.len() == i,
                forall|j: int| 0 <= j < i ==> (#[trigger] divisions@[j]).wf() && divisions@[j]@ == self.start_q(j),
            decreases self.segments().len() - i,
        {
            divisions.push(start);
            let d = self.0[i].duration();
            proof {
                lemma_start_ticks(self.segments(), i as int, i as int + 1);
                lemma_ticks(start_ticks(self.segments(), i as int), self.segments()[i as int].ticks(), 32);
                lemma_start_ticks(self.segments(), i as int + 1, i as int + 1);
                lemma_tick_fits(start_ticks(self.segments(), i as int + 1), 32);
            }
            start = start.add(d);
            i = i + 1;
        }
        divisions.push(start);
        divisions
    }

    /// The segment that starts exactly at `t`, if any.
    pub fn on_division(&self, t: Rational) -> (r: Option<&MetreSegment>)
        requires
            self.wf(),
            t.wf(),
        ensures
            r is Some <==> division_at(self.segments(), t@, 0) is Some,
            r matches Some(s) ==> *s == self.segments()[division_at(self.segments(), t@, 0)->0],
    {
        let mut t2 = Rational::zero();
        let mut i: usize = 0;
        proof {
            crate::arith::lemma_from_tick(0, 32);
            crate::arith::lemma_grid_determined(t2@, 32);
        }
        while i < self.0.len()
            invariant
                self.wf(),
                t.wf(),
                i <= self.segments().len(),
                t2.wf(),
                t2@ == self.start_q(i as int),
                division_at(self.segments(), t@, 0) == division_at(self.segments(), t@, i as int),
            decreases self.segments().len() - i,
        {
            if t.eq(&t2) {
                return Some(&self.0[i]);
            }
            let d = self.0[i].duration();
            proof {
                lemma_start_ticks(self.segments(), i as int, i as int + 1);
                lemma_ticks(start_ticks(self.segments(), i as int), self.segments()[i as int].ticks(), 32);
                lemma_start_ticks(self.segments(), i as int + 1, i as int + 1);
                lemma_tick_fits(start_ticks(self.segments(), i as int + 1), 32);
            }
            t2 = t2.add(d);
            i = i + 1;
        }
        None
    }

    /// The start of the segment that `t` falls in, and that segment; past the end of the bar,
    /// the end of the bar and the last segment.  The metre has at least one segment.
    pub fn division(&self, t: Rational) -> (r: (Rational, MetreSegment))
        requires
            self.wf(),
            t.wf(),
            self.segments().len() >= 1,
        ensures
            r.0.wf(),
            r.1.wf(),
            match division_index(self.segments(), t@, 0) {
                Some(i) => r.0@ == self.start_q(i) && r.1 == self.segments()[i],
                None => r.0@ == self.start_q(self.segments().len() as int) && r.1
                    == self.segments().last(),
            },
    {
        let mut t2 = Rational::zero();
        let mut i: usize = 0;
        proof {
            crate::arith::lemma_from_tick(0, 32);
            crate::arith::lemma_grid_determined(t2@, 32);
        }
        while i < self.0.len()
            invariant
                self.wf(),
                t.wf(),
                i <= self.segments().len(),
                t2.wf(),
                t2@ == self.start_q(i as int),
                division_index(self.segments(), t@, 0) == division_index(
                    self.segments(),
                    t@,
                    i as int,
                ),
            decreases self.segments().len() - i,
        {
            let d = self.0[i].duration();
            proof {
                lemma_start_ticks(self.segments(), i as int, i as int + 1);
                lemma_ticks(start_ticks(self.segments(), i as int), self.segments()[i as int].ticks(), 32);
                lemma_start_ticks(self.segments(), i as int + 1, i as int + 1);
                lemma_tick_fits(start_ticks(self.segments(), i as int + 1), 32);
            }
            let next = t2.add(d);
            if t.lt(&next) {
                return (t2, self.0[i]);
            }
            t2 = next;
            i = i + 1;
        }
        let last = self.0[self.0.len() - 1];
        (t2, last)
    }

    /// The start of the segment after `t`, or the end of the bar.
    pub fn next_division(&self, t: Rational) -> (r: Rational)
        requires
            self.wf(),
            t.wf(),
        ensures
            r.wf(),
            r@ == self.start_q(next_index(self.segments(), t@, 0)),
    {
        let starts = self.division_starts();
        let mut j: usize = 0;
        while j < starts.len()
            invariant
                self.wf(),
                t.wf(),
                j <= starts@.len(),
                starts@.len() == self.segments().len() + 1,
                forall|k: int| 0 <= k < starts@.len() ==> (#[trigger] starts@[k]).wf() && starts@[k]@ == self.start_q(k),
                next_index(self.segments(), t@, 0) == next_index(self.segments(), t@, if j <= self.segments().len() { j as int } else { self.segments().len() as int }),
                forall|k: int| 0 <= k < j ==> !q_lt(t@, #[trigger] starts@[k]@),
            decreases starts@.len() - j,
        {
            if t.lt(&starts[j]) {
                proof {
                    if j as int == self.segments().len() {
                        assert(next_index(self.segments(), t@, j as int) == j);
                    }
                }
                return starts[j];
            }
            j = j + 1;
        }
        starts[starts.len() - 1]
    }

    /// The start times (in whole notes) of the beats of this bar, and the first beat of the next
    /// bar.
    pub fn beats(&self) -> (r: Vec<Rational>)
        requires
            self.wf(),
        ensures
            r@.len() == beat_ticks(self.segments(), 0).len() + 1,
            forall|j: int| 0 <= j < r@.len() ==> (#[trigger] r@[j]).wf() && r@[j]@ == from_tick(
                beat_ticks(self.segments(), 0).push(self.total_ticks())[j],
                metre_grid(),
            ),
    {
        let mut beats: Vec<Rational> = Vec::new();
        let ghost mut ts: Seq<int> = Seq::empty();
        let mut start = Rational::zero();
        let mut i: usize = 0;
        proof {
            crate::arith::lemma_from_tick(0, 32);
            crate::arith::lemma_grid_determined(start@, 32);
        }
        while i < self.0.len()
            invariant
                self.wf(),
                i <= self.segments().len(),
                start.wf(),
                start@ == self.start_q(i as int),
                beats@.len() == ts.len(),
                forall|j: int| 0 <= j < ts.len() ==> (#[trigger] beats@[j]).wf() && beats@[j]@ == from_tick(ts[j], metre_grid()),
                ts + beat_ticks(self.segments(), i as int) == beat_ticks(self.segments(), 0),
                ts.len() <= 4 * i,
            decreases self.segments().len() - i,
        {
            let seg = self.0[i];
            let increment = seg.subdivision_duration();
            let ghost step = seg.ticks() / seg.subdivisions_spec();
            let ghost st = start_ticks(self.segments(), i as int);
            let ghost ts0 = ts;
            proof {
                assert(seg == self.segments()[i as int]);
                assert(self.segments()[i as int].wf());
                lemma_start_ticks(self.segments(), i as int, i as int + 1);
                crate::arith::lemma_from_tick(step, 32);
                crate::arith::lemma_grid_determined(increment@, 32);
                vstd::arithmetic::div_mod::lemma_fundamental_div_mod(seg.ticks(), seg.subdivisions_spec());
            }
            let mut k: u8 = 0;
            while k < seg.subdivisions
                invariant
                    self.wf(),
                    i < self.segments().len(),
                    seg == self.segments()[i as int],
                    seg.wf(),
                    k <= seg.subdivisions_spec(),
                    step == seg.ticks() / seg.subdivisions_spec(),
                    seg.ticks() == seg.subdivisions_spec() * step,
                    st == start_ticks(self.segments(), i as int),
                    0 <= st <= 128 * i,
                    increment.wf(),
                    increment@ == from_tick(step, 32),
                    start.wf(),
                    start@ == from_tick(st + k * step, 32),
                    beats@.len() == ts.len(),
                    forall|j: int| 0 <= j < ts.len() ==> (#[trigger] beats@[j]).wf() && beats@[j]@ == from_tick(ts[j], metre_grid()),
                    ts == ts0 + Seq::new(k as nat, |m: int| st + m * step),
                decreases seg.subdivisions_spec() - k,
            {
                beats.push(start);
                proof {
                    ts = ts.push(st + k * step);
                    assert(ts =~= ts0 + Seq::new((k + 1) as nat, |m: int| st + m * step));
                    assert(0 <= st + (k + 1) * step <= 128 * i + 128) by (nonlinear_arith)
                        requires
                            0 <= k < seg.subdivisions_spec(),
                            seg.ticks() == seg.subdivisions_spec() * step,
                            1 <= seg.ticks() <= 128,
                            0 <= st <= 128 * i,
                    ;
                    lemma_ticks(st + k * step, step, 32);
                    lemma_tick_fits(st + (k + 1) * step, 32);
                    assert(st + k * step + step == st + (k + 1) * step) by (nonlinear_arith);
                }
                start = start.add(increment);
                k = k + 1;
            }
            proof {
                assert(st + seg.subdivisions_spec() * step == start_ticks(self.segments(), i as int + 1));
                assert(beat_ticks(self.segments(), i as int) == Seq::new(seg.subdivisions_spec() as nat, |m: int| st + m * step) + beat_ticks(self.segments(), i as int + 1));
                assert(ts + beat_ticks(self.segments(), i as int + 1) =~= ts0 + beat_ticks(self.segments(), i as int));
            }
            i = i + 1;
        }
        beats.push(start);
        proof {
            assert(beat_ticks(self.segments(), i as int) =~= Seq::<int>::empty());
            assert(ts =~= beat_ticks(self.segments(), 0));
            let all = beat_ticks(self.segments(), 0).push(self.total_ticks());
            assert forall|j: int| 0 <= j < beats@.len() implies (#[trigger] beats@[j]).wf() && beats@[j]@ == from_tick(all[j], metre_grid()) by {
                if j < ts.len() {
                    assert(all[j] == ts[j]);
                }
            }
        }
        beats
    }

    /// The duration (in whole notes) of a beat in the segment that `time` falls in; zero past
    /// the end of the bar.
    pub fn beat_duration(&self, time: Rational) -> (r: Rational)
        requires
            self.wf(),
            time.wf(),
        ensures
            r.wf(),
            match division_index(self.segments(), time@, 0) {
                Some(i) => r@ == from_tick(
                    self.segments()[i].ticks() / self.segments()[i].subdivisions_spec(),
                    metre_grid(),
                ),
                None => r@ == q_int(0),
            },
    {
        let mut start = Rational::zero();
        let mut i: usize = 0;
        proof {
            crate::arith::lemma_from_tick(0, 32);
            crate::arith::lemma_grid_determined(start@, 32);
        }
        while i < self.0.len()
            invariant
                self.wf(),
                time.wf(),
                i <= self.segments().len(),
                start.wf(),
                start@ == self.start_q(i as int),
                division_index(self.segments(), time@, 0) == division_index(
                    self.segments(),
                    time@,
                    i as int,
                ),
            decreases self.segments().len() - i,
        {
            let d = self.0[i].duration();
            proof {
                lemma_start_ticks(self.segments(), i as int, i as int + 1);
                lemma_ticks(start_ticks(self.segments(), i as int), self.segments()[i as int].ticks(), 32);
                lemma_start_ticks(self.segments(), i as int + 1, i as int + 1);
                lemma_tick_fits(start_ticks(self.segments(), i as int + 1), 32);
            }
            let end = start.add(d);
            if time.lt(&end) {
                return self.0[i].subdivision_duration();
            }
            start = end;
            i = i + 1;
        }
        Rational::zero()
    }
}

} // verus!
