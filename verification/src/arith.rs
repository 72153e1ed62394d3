//! Exact fractions as mathematical values, with the number theory that makes their
//! lowest-terms representation unique.
use vstd::arithmetic::div_mod::*;
use vstd::arithmetic::mul::*;
use vstd::prelude::*;

verus! {

/// Absolute value of an integer.
pub open spec fn abs(x: int) -> int {
    if x < 0 {
        -x
    } else {
        x
    }
}

/// Greatest common divisor (Euclid).  `gcd(a, 0) == a`.
pub open spec fn gcd(a: nat, b: nat) -> nat
    decreases b,
{
    if b == 0 {
        a
    } else {
        gcd(b, a % b)
    }
}

/// Bezout coefficients `(x, y)` with `a * x + b * y == gcd(a, b)`.
pub open spec fn bezout(a: nat, b: nat) -> (int, int)
    decreases b,
{
    if b == 0 {
        (1, 0)
    } else {
        let r = bezout(b, a % b);
        (r.1, r.0 - (a / b) as int * r.1)
    }
}

/// A fraction as a mathematical value: numerator and denominator.
pub struct Q {
    pub n: int,
    pub d: int,
}

/// A fraction in lowest terms with a positive denominator.
pub open spec fn reduced(q: Q) -> bool {
    q.d > 0 && gcd(abs(q.n) as nat, q.d as nat) == 1
}

/// The lowest-terms form of `n / d` (for `d != 0`).
pub open spec fn canon(n: int, d: int) -> Q {
    let g = gcd(abs(n) as nat, abs(d) as nat) as int;
    let s: int = if (n < 0) != (d < 0) {
        -1
    } else {
        1
    };
    Q { n: s * (abs(n) / g), d: abs(d) / g }
}

/// `a` and `b` denote the same number (for positive denominators).
pub open spec fn same(a: Q, b: Q) -> bool {
    a.n * b.d == b.n * a.d
}

pub open spec fn q_int(i: int) -> Q {
    Q { n: i, d: 1 }
}

pub open spec fn q_add(a: Q, b: Q) -> Q {
    canon(a.n * b.d + b.n * a.d, a.d * b.d)
}

pub open spec fn q_sub(a: Q, b: Q) -> Q {
    canon(a.n * b.d - b.n * a.d, a.d * b.d)
}

pub open spec fn q_mul(a: Q, b: Q) -> Q {
    canon(a.n * b.n, a.d * b.d)
}

pub open spec fn q_div(a: Q, b: Q) -> Q {
    canon(a.n * b.d, a.d * b.n)
}

/// `a < b` (for positive denominators).
pub open spec fn q_lt(a: Q, b: Q) -> bool {
    a.n * b.d < b.n * a.d
}

/// `a <= b` (for positive denominators).
pub open spec fn q_le(a: Q, b: Q) -> bool {
    a.n * b.d <= b.n * a.d
}

/// Every integer over 1 is in lowest terms.
pub proof fn lemma_gcd_one(a: nat)
    ensures
        gcd(a, 1) == 1,
{
    assert(a % 1 == 0);
    assert(gcd(1, 0) == 1);
}

pub proof fn lemma_gcd_pos(a: nat, b: nat)
    requires
        a > 0 || b > 0,
    ensures
        gcd(a, b) > 0,
    decreases b,
{
    if b != 0 {
        lemma_gcd_pos(b, a % b);
    }
}

pub proof fn lemma_bezout(a: nat, b: nat)
    ensures
        a * bezout(a, b).0 + b * bezout(a, b).1 == gcd(a, b),
    decreases b,
{
    if b != 0 {
        lemma_bezout(b, a % b);
        let r = bezout(b, a % b);
        let q = (a / b) as int;
        lemma_fundamental_div_mod(a as int, b as int);
        assert(a * r.1 + b * (r.0 - q * r.1) == b * r.0 + (a - b * q) * r.1) by (nonlinear_arith);
    }
}

/// `gcd(a, b)` divides both `a` and `b`.
pub proof fn lemma_gcd_divides(a: nat, b: nat)
    requires
        a > 0 || b > 0,
    ensures
        a % gcd(a, b) == 0,
        b % gcd(a, b) == 0,
    decreases b,
{
    lemma_gcd_pos(a, b);
    if b == 0 {
        lemma_mod_self_0(a as int);
        lemma_small_mod(0, a);
    } else {
        let g = gcd(a, b);
        lemma_gcd_divides(b, a % b);
        lemma_fundamental_div_mod(a as int, b as int);
        lemma_fundamental_div_mod(b as int, g as int);
        lemma_fundamental_div_mod((a % b) as int, g as int);
        let kb = b / g;
        let kr = (a % b) / g;
        let q = a / b;
        assert(a == g * (q * kb + kr)) by (nonlinear_arith)
            requires
                a == b * q + a % b,
                b == g * kb,
                a % b == g * kr,
        ;
        lemma_mod_multiples_basic((q * kb + kr) as int, g as int);
        lemma_mul_is_commutative(g as int, (q * kb + kr) as int);
    }
}

/// Integer `x` is a multiple of `m` (for positive `m`) when `x == m * k`.
pub proof fn lemma_multiple_mod(m: int, k: int)
    requires
        m > 0,
    ensures
        (m * k) % m == 0,
{
    lemma_mul_is_commutative(m, k);
    lemma_mod_multiples_basic(k, m);
}

/// Gauss: if `d` divides `a * c` and `gcd(a, d) == 1`, then `d` divides `c`.
pub proof fn lemma_gauss(a: nat, c: int, d: nat)
    requires
        d > 0,
        gcd(a, d) == 1,
        (a * c) % (d as int) == 0,
    ensures
        c % (d as int) == 0,
{
    lemma_bezout(a, d);
    let (x, y) = bezout(a, d);
    lemma_fundamental_div_mod(a * c, d as int);
    let k = (a * c) / (d as int);
    assert(c == d * (k * x + c * y)) by (nonlinear_arith)
        requires
            a * x + d * y == 1,
            a * c == d * k,
    ;
    lemma_multiple_mod(d as int, k * x + c * y);
}

/// Two lowest-terms fractions denoting the same number are equal.
pub proof fn lemma_reduced_unique(p: Q, q: Q)
    requires
        reduced(p),
        reduced(q),
        same(p, q),
    ensures
        p == q,
{
    let pn = abs(p.n) as nat;
    let qn = abs(q.n) as nat;
    assert(pn * q.d == qn * p.d) by (nonlinear_arith)
        requires
            p.n * q.d == q.n * p.d,
            p.d > 0,
            q.d > 0,
            pn == abs(p.n),
            qn == abs(q.n),
    ;
    lemma_multiple_mod(p.d, qn as int);
    lemma_mul_is_commutative(p.d, qn as int);
    lemma_gauss(pn, q.d, p.d as nat);
    lemma_multiple_mod(q.d, pn as int);
    lemma_mul_is_commutative(q.d, pn as int);
    lemma_gauss(qn, p.d, q.d as nat);
    lemma_fundamental_div_mod(q.d, p.d);
    lemma_fundamental_div_mod(p.d, q.d);
    let k1 = q.d / p.d;
    let k2 = p.d / q.d;
    assert(p.d == q.d) by (nonlinear_arith)
        requires
            q.d == p.d * k1,
            p.d == q.d * k2,
            p.d > 0,
            q.d > 0,
    ;
    assert(p.n == q.n) by (nonlinear_arith)
        requires
            p.n * q.d == q.n * p.d,
            p.d == q.d,
            p.d > 0,
    ;
}

/// Dividing two numbers by their gcd leaves coprime numbers.
proof fn lemma_div_gcd_coprime(a: nat, b: nat)
    requires
        b > 0,
    ensures
        gcd(a / gcd(a, b), b / gcd(a, b)) == 1,
{
    let g = gcd(a, b);
    lemma_gcd_pos(a, b);
    lemma_gcd_divides(a, b);
    lemma_bezout(a, b);
    let (x, y) = bezout(a, b);
    lemma_fundamental_div_mod(a as int, g as int);
    lemma_fundamental_div_mod(b as int, g as int);
    let a2 = a / g;
    let b2 = b / g;
    assert(a2 * x + b2 * y == 1) by (nonlinear_arith)
        requires
            a * x + b * y == g,
            a == g * a2,
            b == g * b2,
            g > 0,
    ;
    assert(b2 > 0) by (nonlinear_arith)
        requires
            b == g * b2,
            b > 0,
            g > 0,
    ;
    let h = gcd(a2, b2);
    lemma_gcd_pos(a2, b2);
    lemma_gcd_divides(a2, b2);
    lemma_fundamental_div_mod(a2 as int, h as int);
    lemma_fundamental_div_mod(b2 as int, h as int);
    let ka = a2 / h;
    let kb = b2 / h;
    assert(h * (ka * x + kb * y) == 1) by (nonlinear_arith)
        requires
            a2 * x + b2 * y == 1,
            a2 == h * ka,
            b2 == h * kb,
    ;
    assert(h == 1) by (nonlinear_arith)
        requires
            h * (ka * x + kb * y) == 1,
            h > 0,
    ;
}

/// `canon(n, d)` is in lowest terms and denotes `n / d`.
pub proof fn lemma_canon(n: int, d: int)
    requires
        d != 0,
    ensures
        reduced(canon(n, d)),
        canon(n, d).n * d == n * canon(n, d).d,
        abs(canon(n, d).n) <= abs(n),
        canon(n, d).d <= abs(d),
{
    let an = abs(n) as nat;
    let ad = abs(d) as nat;
    let g = gcd(an, ad);
    lemma_gcd_pos(an, ad);
    lemma_gcd_divides(an, ad);
    lemma_div_gcd_coprime(an, ad);
    lemma_fundamental_div_mod(an as int, g as int);
    lemma_fundamental_div_mod(ad as int, g as int);
    let c = canon(n, d);
    let a2 = an / g;
    let d2 = ad / g;
    assert(d2 > 0 && d2 <= ad && a2 <= an) by (nonlinear_arith)
        requires
            ad == g * d2,
            an == g * a2,
            ad > 0,
            g > 0,
            a2 >= 0,
    ;
    assert(abs(n) / (g as int) == a2);
    assert(c.n == (if (n < 0) != (d < 0) {
        -1int
    } else {
        1int
    }) * (abs(n) / (g as int)));
    let t = abs(n) / (g as int);
    assert(t == a2 as int);
    if (n < 0) != (d < 0) {
        assert(c.n == -1 * t);
        assert(c.n == -(a2 as int)) by (nonlinear_arith)
            requires
                c.n == -1 * t,
                t == a2 as int,
        ;
    } else {
        assert(c.n == 1 * t);
        assert(c.n == a2) by (nonlinear_arith)
            requires
                c.n == 1 * t,
                t == a2 as int,
        ;
    }
    assert(abs(c.n) == a2);
    assert(c.n * d == n * c.d) by (nonlinear_arith)
        requires
            an == g * a2,
            ad == g * d2,
            c.d == d2,
            an == abs(n),
            ad == abs(d),
            c.n == (if (n < 0) != (d < 0) {
                -1int
            } else {
                1int
            }) * a2,
            d != 0,
    ;
}

/// `canon` maps fractions denoting the same number to the same lowest-terms form.
pub proof fn lemma_canon_same(n1: int, d1: int, n2: int, d2: int)
    requires
        d1 != 0,
        d2 != 0,
        n1 * d2 == n2 * d1,
    ensures
        canon(n1, d1) == canon(n2, d2),
{
    lemma_canon(n1, d1);
    lemma_canon(n2, d2);
    let c1 = canon(n1, d1);
    let c2 = canon(n2, d2);
    assert(c1.n * c2.d == c2.n * c1.d) by (nonlinear_arith)
        requires
            c1.n * d1 == n1 * c1.d,
            c2.n * d2 == n2 * c2.d,
            n1 * d2 == n2 * d1,
            d1 != 0,
            d2 != 0,
            c1.d > 0,
            c2.d > 0,
    ;
    lemma_reduced_unique(c1, c2);
}

/// A lowest-terms fraction is its own canonical form.
pub proof fn lemma_canon_reduced(q: Q)
    requires
        reduced(q),
    ensures
        canon(q.n, q.d) == q,
{
    lemma_canon(q.n, q.d);
    let c = canon(q.n, q.d);
    lemma_reduced_unique(c, q);
}

/// The canonical form of `n / d` denotes the same number as any `m / e` equal to `n / d`.
pub proof fn lemma_canon_same_as(n: int, d: int, q: Q)
    requires
        d != 0,
        q.d > 0,
        n * q.d == q.n * d,
    ensures
        same(canon(n, d), q),
{
    lemma_canon(n, d);
    let c = canon(n, d);
    assert(c.n * q.d == q.n * c.d) by (nonlinear_arith)
        requires
            c.n * d == n * c.d,
            n * q.d == q.n * d,
            d != 0,
            c.d > 0,
    ;
}

pub proof fn lemma_q_lt_trans(a: Q, b: Q, c: Q)
    requires
        a.d > 0,
        b.d > 0,
        c.d > 0,
        q_lt(a, b),
        q_le(b, c),
    ensures
        q_lt(a, c),
{
    assert(a.n * c.d < c.n * a.d) by (nonlinear_arith)
        requires
            a.n * b.d < b.n * a.d,
            b.n * c.d <= c.n * b.d,
            a.d > 0,
            b.d > 0,
            c.d > 0,
    ;
}

/// Of two lowest-terms fractions, at most one is less than the other, and neither is exactly
/// when they are equal.
pub proof fn lemma_q_trichotomy(a: Q, b: Q)
    requires
        reduced(a),
        reduced(b),
    ensures
        !(q_lt(a, b) && q_lt(b, a)),
        !q_lt(a, b) && !q_lt(b, a) <==> a == b,
{
    if !q_lt(a, b) && !q_lt(b, a) {
        lemma_reduced_unique(a, b);
    }
}

/// Bounds on numerator and denominator bound the canonical form.
pub proof fn lemma_canon_fits(n: int, d: int, bn: int, bd: int)
    requires
        d != 0,
        abs(n) <= bn,
        abs(d) <= bd,
    ensures
        abs(canon(n, d).n) <= bn,
        0 < canon(n, d).d <= bd,
{
    lemma_canon(n, d);
}

/// Least common multiple.
pub open spec fn lcm(a: nat, b: nat) -> nat {
    if a == 0 || b == 0 {
        0
    } else {
        (a * b) / gcd(a, b)
    }
}

/// The least common multiple of positive numbers is a positive common multiple that divides
/// every common multiple.
pub proof fn lemma_lcm(a: nat, b: nat, m: int)
    requires
        a > 0,
        b > 0,
        m > 0,
        m % (a as int) == 0,
        m % (b as int) == 0,
    ensures
        lcm(a, b) > 0,
        (lcm(a, b) as int) % (a as int) == 0,
        (lcm(a, b) as int) % (b as int) == 0,
        m % (lcm(a, b) as int) == 0,
        lcm(a, b) <= m,
        lcm(a, b) == (a / gcd(a, b)) * b,
{
    let g = gcd(a, b);
    lemma_gcd_pos(a, b);
    lemma_gcd_divides(a, b);
    lemma_fundamental_div_mod(a as int, g as int);
    lemma_fundamental_div_mod(b as int, g as int);
    let ka = a / g;
    let kb = b / g;
    assert(a * b == g * (ka * b)) by (nonlinear_arith)
        requires
            a == g * ka,
    ;
    lemma_div_multiples_vanish((ka * b) as int, g as int);
    let l = ka * b;
    assert(lcm(a, b) == l);
    assert(l == a * kb) by (nonlinear_arith)
        requires
            a == g * ka,
            b == g * kb,
            l == ka * b,
    ;
    assert(ka > 0 && kb > 0) by (nonlinear_arith)
        requires
            a == g * ka,
            b == g * kb,
            a > 0,
            b > 0,
            g > 0,
    ;
    lemma_multiple_mod(b as int, ka as int);
    lemma_mul_is_commutative(b as int, ka as int);
    lemma_multiple_mod(a as int, kb as int);
    lemma_fundamental_div_mod(m, a as int);
    lemma_fundamental_div_mod(m, b as int);
    let x = m / (a as int);
    let y = m / (b as int);
    lemma_bezout(a, b);
    let (s, t) = bezout(a, b);
    assert(m * g == (g * l) * (y * s + x * t)) by (nonlinear_arith)
        requires
            a * s + b * t == g,
            m == a * x,
            m == b * y,
            l == ka * b,
            a == g * ka,
    ;
    assert(m == l * (y * s + x * t)) by (nonlinear_arith)
        requires
            m * g == (g * l) * (y * s + x * t),
            g > 0,
    ;
    lemma_multiple_mod(l as int, y * s + x * t);
    assert(l <= m) by (nonlinear_arith)
        requires
            m == l * (y * s + x * t),
            m > 0,
            l > 0,
    ;
}

/// `q` is a whole number of `1 / l` steps (for `l > 0`).
pub open spec fn on_grid(q: Q, l: int) -> bool {
    q.d > 0 && l % q.d == 0
}

/// The number of `1 / l` steps in `q` (for `q` on the grid).
pub open spec fn tick(q: Q, l: int) -> int {
    q.n * (l / q.d)
}

/// The value of `x` steps of `1 / l`, in lowest terms.
pub open spec fn from_tick(x: int, l: int) -> Q {
    canon(x, l)
}

/// `from_tick(x, l)` lies on the grid and has `x` steps.
pub proof fn lemma_from_tick(x: int, l: int)
    requires
        l > 0,
    ensures
        on_grid(from_tick(x, l), l),
        tick(from_tick(x, l), l) == x,
        reduced(from_tick(x, l)),
{
    lemma_canon(x, l);
    let c = canon(x, l);
    let ax = abs(x) as nat;
    let g = gcd(ax, l as nat);
    lemma_gcd_pos(ax, l as nat);
    lemma_gcd_divides(ax, l as nat);
    lemma_fundamental_div_mod(l, g as int);
    let k = l / (g as int);
    assert(c.d == k);
    assert(l == k * g) by (nonlinear_arith)
        requires
            l == g * k,
    ;
    lemma_multiple_mod(k, g as int);
    lemma_div_multiples_vanish(g as int, k);
    assert(l / c.d == g);
    assert(c.n * g == x) by (nonlinear_arith)
        requires
            c.n * l == x * c.d,
            l == c.d * g,
            c.d > 0,
    ;
}

/// A lowest-terms value on the grid is determined by its number of steps.
pub proof fn lemma_grid_determined(q: Q, l: int)
    requires
        l > 0,
        reduced(q),
        on_grid(q, l),
    ensures
        q == from_tick(tick(q, l), l),
{
    lemma_fundamental_div_mod(l, q.d);
    let k = l / q.d;
    lemma_from_tick(tick(q, l), l);
    let c = from_tick(tick(q, l), l);
    lemma_canon(tick(q, l), l);
    assert(c.n * q.d == q.n * c.d) by (nonlinear_arith)
        requires
            c.n * l == (q.n * k) * c.d,
            l == q.d * k,
            q.d > 0,
            l > 0,
    ;
    lemma_reduced_unique(c, q);
}

pub proof fn lemma_grid_add(a: Q, b: Q, l: int)
    requires
        l > 0,
        reduced(a),
        reduced(b),
        on_grid(a, l),
        on_grid(b, l),
    ensures
        q_add(a, b) == from_tick(tick(a, l) + tick(b, l), l),
{
    lemma_fundamental_div_mod(l, a.d);
    lemma_fundamental_div_mod(l, b.d);
    let ka = l / a.d;
    let kb = l / b.d;
    assert((a.n * b.d + b.n * a.d) * l == (a.n * ka + b.n * kb) * (a.d * b.d)) by (nonlinear_arith)
        requires
            l == a.d * ka,
            l == b.d * kb,
    ;
    assert(a.d * b.d != 0) by (nonlinear_arith)
        requires
            a.d > 0,
            b.d > 0,
    ;
    lemma_canon_same(a.n * b.d + b.n * a.d, a.d * b.d, a.n * ka + b.n * kb, l);
}

pub proof fn lemma_grid_sub(a: Q, b: Q, l: int)
    requires
        l > 0,
        reduced(a),
        reduced(b),
        on_grid(a, l),
        on_grid(b, l),
    ensures
        q_sub(a, b) == from_tick(tick(a, l) - tick(b, l), l),
{
    lemma_fundamental_div_mod(l, a.d);
    lemma_fundamental_div_mod(l, b.d);
    let ka = l / a.d;
    let kb = l / b.d;
    assert((a.n * b.d) * l == (a.n * ka) * (a.d * b.d)) by (nonlinear_arith)
        requires
            l == a.d * ka,
    ;
    assert((b.n * a.d) * l == (b.n * kb) * (a.d * b.d)) by (nonlinear_arith)
        requires
            l == b.d * kb,
    ;
    assert((a.n * b.d - b.n * a.d) * l == (a.n * ka - b.n * kb) * (a.d * b.d)) by (nonlinear_arith)
        requires
            (a.n * b.d) * l == (a.n * ka) * (a.d * b.d),
            (b.n * a.d) * l == (b.n * kb) * (a.d * b.d),
    ;
    assert(a.d * b.d != 0) by (nonlinear_arith)
        requires
            a.d > 0,
            b.d > 0,
    ;
    lemma_canon_same(a.n * b.d - b.n * a.d, a.d * b.d, a.n * ka - b.n * kb, l);
}

/// Order on the grid is order of the step counts.
pub proof fn lemma_grid_order(a: Q, b: Q, l: int)
    requires
        l > 0,
        on_grid(a, l),
        on_grid(b, l),
    ensures
        q_lt(a, b) == (tick(a, l) < tick(b, l)),
        q_le(a, b) == (tick(a, l) <= tick(b, l)),
{
    lemma_fundamental_div_mod(l, a.d);
    lemma_fundamental_div_mod(l, b.d);
    let ka = l / a.d;
    let kb = l / b.d;
    assert((a.n * b.d < b.n * a.d) == (a.n * ka < b.n * kb)) by (nonlinear_arith)
        requires
            l == a.d * ka,
            l == b.d * kb,
            a.d > 0,
            b.d > 0,
            l > 0,
    ;
    assert((a.n * b.d <= b.n * a.d) == (a.n * ka <= b.n * kb)) by (nonlinear_arith)
        requires
            l == a.d * ka,
            l == b.d * kb,
            a.d > 0,
            b.d > 0,
            l > 0,
    ;
}

/// A value on the grid is no larger (in magnitude) than its step count, and its
/// denominator is no larger than the grid.
pub proof fn lemma_grid_bounds(q: Q, l: int)
    requires
        l > 0,
        on_grid(q, l),
    ensures
        abs(q.n) <= abs(tick(q, l)),
        q.d <= l,
        (q.n > 0) == (tick(q, l) > 0),
        (q.n == 0) == (tick(q, l) == 0),
{
    lemma_fundamental_div_mod(l, q.d);
    let k = l / q.d;
    assert(k >= 1 && q.d <= l) by (nonlinear_arith)
        requires
            l == q.d * k,
            q.d > 0,
            l > 0,
    ;
    assert(abs(q.n) <= abs(q.n * k)) by (nonlinear_arith)
        requires
            k >= 1,
    ;
    assert((q.n > 0) == (q.n * k > 0)) by (nonlinear_arith)
        requires
            k >= 1,
    ;
    assert((q.n == 0) == (q.n * k == 0)) by (nonlinear_arith)
        requires
            k >= 1,
    ;
}

/// Arithmetic and order of grid values are those of their step counts.
pub proof fn lemma_ticks(x: int, y: int, l: int)
    requires
        l > 0,
    ensures
        q_add(from_tick(x, l), from_tick(y, l)) == from_tick(x + y, l),
        q_sub(from_tick(x, l), from_tick(y, l)) == from_tick(x - y, l),
        q_lt(from_tick(x, l), from_tick(y, l)) == (x < y),
        q_le(from_tick(x, l), from_tick(y, l)) == (x <= y),
        (from_tick(x, l) == from_tick(y, l)) == (x == y),
{
    lemma_from_tick(x, l);
    lemma_from_tick(y, l);
    lemma_grid_add(from_tick(x, l), from_tick(y, l), l);
    lemma_grid_sub(from_tick(x, l), from_tick(y, l), l);
    lemma_grid_order(from_tick(x, l), from_tick(y, l), l);
}

/// A grid value with a moderate step count on a moderate grid is representable.
pub proof fn lemma_tick_fits(x: int, l: int)
    requires
        0 < l <= 0x4000_0000_0000_0000,
        -0x4000_0000_0000_0000 <= x <= 0x4000_0000_0000_0000,
    ensures
        i64::MIN < from_tick(x, l).n <= i64::MAX,
        0 < from_tick(x, l).d <= i64::MAX,
        reduced(from_tick(x, l)),
        on_grid(from_tick(x, l), l),
        tick(from_tick(x, l), l) == x,
{
    lemma_from_tick(x, l);
    lemma_grid_bounds(from_tick(x, l), l);
}

/// A value on a grid is also on every multiple of that grid.
pub proof fn lemma_grid_refine(q: Q, l: int, m: int)
    requires
        l > 0,
        m > 0,
        on_grid(q, l),
    ensures
        on_grid(q, l * m),
        tick(q, l * m) == tick(q, l) * m,
{
    lemma_fundamental_div_mod(l, q.d);
    let k = l / q.d;
    assert(l * m == q.d * (k * m)) by (nonlinear_arith)
        requires
            l == q.d * k,
    ;
    lemma_multiple_mod(q.d, k * m);
    lemma_div_multiples_vanish(k * m, q.d);
    assert(q.n * (k * m) == (q.n * k) * m) by (nonlinear_arith);
}

} // verus!
