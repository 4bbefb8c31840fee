//! Rounding keeps the order of values, and so does everything that is made of rounded
//! steps.

use crate::single::{
    ceiling, floor, hundredths, lemma_nearest, lemma_of_int_bounds, lemma_rounded_bounds,
    lemma_whole_factor, less, nearest, of_bits, of_int, over, plus, rounded, rounded_high,
    rounded_low, scaled, times, whole, Ratio, MANTISSA_END, MANTISSA_MIN,
};
use vstd::arithmetic::div_mod::lemma_fundamental_div_mod;
use vstd::arithmetic::power2::{
    lemma2_to64, lemma_pow2_adds, lemma_pow2_pos, lemma_pow2_strictly_increases, lemma_pow2_unfold,
    pow2,
};
use vstd::prelude::*;

verus! {

/// True where the one value is not above the other.
pub open spec fn at_most(a: Ratio, b: Ratio) -> bool {
    a.num * b.den <= b.num * a.den
}

/// Whole numbers nearest to values are in the order of the values.
pub proof fn lemma_nearest_keeps_order(n1: nat, d1: nat, n2: nat, d2: nat)
    requires
        d1 > 0,
        d2 > 0,
        n1 * d2 <= n2 * d1,
    ensures
        nearest(n1, d1) <= nearest(n2, d2),
{
    let q1 = n1 / d1;
    let r1 = n1 % d1;
    let q2 = n2 / d2;
    let r2 = n2 % d2;
    lemma_fundamental_div_mod(n1 as int, d1 as int);
    lemma_fundamental_div_mod(n2 as int, d2 as int);
    assert(n1 * d2 == q1 * (d1 * d2) + r1 * d2) by (nonlinear_arith)
        requires
            n1 == d1 * q1 + r1,
    ;
    assert(n2 * d1 == q2 * (d1 * d2) + r2 * d1) by (nonlinear_arith)
        requires
            n2 == d2 * q2 + r2,
    ;
    let d = d1 * d2;
    assert(0 <= r1 * d2 < d && 0 <= r2 * d1 < d && d > 0) by (nonlinear_arith)
        requires
            0 <= r1 < d1,
            0 <= r2 < d2,
            d == d1 * d2,
    ;
    assert(q1 <= q2) by (nonlinear_arith)
        requires
            q1 * d + r1 * d2 <= q2 * d + r2 * d1,
            0 <= r1 * d2,
            r2 * d1 < d,
            d > 0,
    ;
    if q1 == q2 {
        assert(r1 * d2 <= r2 * d1);
        if 2 * r1 >= d1 {
            assert(2 * r2 >= d2) by (nonlinear_arith)
                requires
                    2 * r1 >= d1,
                    r1 * d2 <= r2 * d1,
                    d1 > 0,
                    d2 > 0,
            ;
            if 2 * r1 > d1 {
                assert(2 * r2 > d2) by (nonlinear_arith)
                    requires
                        2 * r1 > d1,
                        r1 * d2 <= r2 * d1,
                        d1 > 0,
                        d2 > 0,
                ;
            }
        }
    }
}

/// A value from `MANTISSA_MIN` on, rounded: the unit of the last place is a power of two.
proof fn lemma_high_form(num: nat, den: nat, j: nat) -> (k: nat)
    requires
        den > 0,
        num >= MANTISSA_MIN * (den * pow2(j)),
    ensures
        rounded_high(num, den * pow2(j), pow2(j)) == (Ratio {
            num: nearest(num, den * pow2(k)) * pow2(k),
            den: 1,
        }),
        MANTISSA_MIN * (den * pow2(k)) <= num < MANTISSA_END * (den * pow2(k)),
        pow2(k) > 0,
    decreases 2 * num - MANTISSA_END * (den * pow2(j)),
{
    lemma_pow2_pos(j);
    let unit = den * pow2(j);
    assert(unit > 0) by (nonlinear_arith)
        requires
            unit == den * pow2(j),
            den > 0,
            pow2(j) > 0,
    ;
    if num >= MANTISSA_END * unit {
        lemma_pow2_unfold(j + 1);
        assert(den * pow2(j + 1) == 2 * unit) by (nonlinear_arith)
            requires
                unit == den * pow2(j),
                pow2(j + 1) == 2 * pow2(j),
        ;
        lemma_high_form(num, den, j + 1)
    } else {
        j
    }
}

/// A value below `MANTISSA_MIN`, rounded: the unit of the last place is one part in a power
/// of two.
proof fn lemma_low_form(num: nat, den: nat, j: nat) -> (k: nat)
    requires
        den > 0,
        num > 0,
        num * pow2(j) < MANTISSA_END * den,
    ensures
        k >= j,
        num < MANTISSA_MIN * den && j == 0 ==> k > 0,
        rounded_low(num * pow2(j), den, pow2(j)) == (Ratio {
            num: nearest(num * pow2(k), den),
            den: pow2(k),
        }),
        MANTISSA_MIN * den <= num * pow2(k) < MANTISSA_END * den,
        pow2(k) > 0,
    decreases MANTISSA_END * den - num * pow2(j),
{
    lemma_pow2_pos(j);
    let scaled = num * pow2(j);
    assert(scaled > 0) by (nonlinear_arith)
        requires
            scaled == num * pow2(j),
            num > 0,
            pow2(j) > 0,
    ;
    if scaled < MANTISSA_MIN * den {
        lemma_pow2_unfold(j + 1);
        assert(num * pow2(j + 1) == 2 * scaled) by (nonlinear_arith)
            requires
                scaled == num * pow2(j),
                pow2(j + 1) == 2 * pow2(j),
        ;
        lemma_low_form(num, den, j + 1)
    } else {
        assert(j == 0 ==> scaled == num) by {
            lemma2_to64();
        }
        j
    }
}

proof fn lemma_nearest_in_binade(n: nat, d: nat)
    requires
        d > 0,
        MANTISSA_MIN * d <= n < MANTISSA_END * d,
    ensures
        MANTISSA_MIN <= nearest(n, d) <= MANTISSA_END,
{
    let lo = MANTISSA_MIN as nat;
    let hi = MANTISSA_END as nat;
    assert(lo % 1 == 0 && hi % 1 == 0);
    lemma_nearest_keeps_order(lo, 1, n, d);
    lemma_nearest_keeps_order(n, d, hi, 1);
    assert(nearest(lo, 1) == lo && nearest(hi, 1) == hi);
}

/// The larger unit of the last place is at least twice the smaller one.
proof fn lemma_doubled(k1: nat, k2: nat)
    requires
        k1 < k2,
    ensures
        2 * pow2(k1) <= pow2(k2),
{
    lemma_pow2_unfold(k1 + 1);
    if k1 + 1 < k2 {
        lemma_pow2_strictly_increases(k1 + 1, k2);
    }
}

proof fn lemma_high_keeps_order(n1: nat, d1: nat, n2: nat, d2: nat)
    requires
        d1 > 0,
        d2 > 0,
        n1 >= MANTISSA_MIN * d1,
        n2 >= MANTISSA_MIN * d2,
        n1 * d2 <= n2 * d1,
    ensures
        rounded_high(n1, d1, 1).den == 1,
        rounded_high(n2, d2, 1).den == 1,
        MANTISSA_MIN <= rounded_high(n1, d1, 1).num <= rounded_high(n2, d2, 1).num,
{
    lemma2_to64();
    assert(d1 * pow2(0) == d1 && d2 * pow2(0) == d2);
    let k1 = lemma_high_form(n1, d1, 0);
    let k2 = lemma_high_form(n2, d2, 0);
    let p1 = pow2(k1);
    let p2 = pow2(k2);
    let u1 = d1 * p1;
    let u2 = d2 * p2;
    assert(u1 > 0 && u2 > 0) by (nonlinear_arith)
        requires
            u1 == d1 * p1,
            u2 == d2 * p2,
            d1 > 0,
            d2 > 0,
            p1 > 0,
            p2 > 0,
    ;
    lemma_nearest_in_binade(n1, u1);
    lemma_nearest_in_binade(n2, u2);
    let m1 = nearest(n1, u1);
    let m2 = nearest(n2, u2);
    assert(m1 * p1 >= MANTISSA_MIN) by (nonlinear_arith)
        requires
            m1 >= MANTISSA_MIN,
            p1 >= 1,
    ;
    if k1 == k2 {
        assert(n1 * u2 <= n2 * u1) by (nonlinear_arith)
            requires
                n1 * d2 <= n2 * d1,
                u1 == d1 * p1,
                u2 == d2 * p1,
                p1 >= 0,
        ;
        lemma_nearest_keeps_order(n1, u1, n2, u2);
        assert(m1 * p1 <= m2 * p1) by (nonlinear_arith)
            requires
                m1 <= m2,
                p1 >= 0,
        ;
    } else if k1 < k2 {
        lemma_doubled(k1, k2);
        assert(m1 * p1 <= m2 * p2) by (nonlinear_arith)
            requires
                m1 <= MANTISSA_END,
                m2 >= MANTISSA_MIN,
                2 * p1 <= p2,
                p1 >= 0,
        ;
    } else {
        lemma_doubled(k2, k1);
        assert(n1 >= MANTISSA_END * (d1 * p2)) by (nonlinear_arith)
            requires
                n1 >= MANTISSA_MIN * (d1 * p1),
                p1 >= 2 * p2,
                d1 >= 0,
        ;
        assert(n1 * d2 >= MANTISSA_END * (d1 * p2) * d2) by (nonlinear_arith)
            requires
                n1 >= MANTISSA_END * (d1 * p2),
                d2 >= 0,
        ;
        assert(n2 * d1 < MANTISSA_END * (d2 * p2) * d1) by (nonlinear_arith)
            requires
                n2 < MANTISSA_END * (d2 * p2),
                d1 > 0,
        ;
        assert(MANTISSA_END * (d1 * p2) * d2 == MANTISSA_END * (d2 * p2) * d1) by (nonlinear_arith);
    }
}

proof fn lemma_low_keeps_order(n1: nat, d1: nat, n2: nat, d2: nat)
    requires
        d1 > 0,
        d2 > 0,
        0 < n1 < MANTISSA_MIN * d1,
        0 < n2 < MANTISSA_MIN * d2,
        n1 * d2 <= n2 * d1,
    ensures
        at_most(rounded_low(n1, d1, 1), rounded_low(n2, d2, 1)),
{
    lemma2_to64();
    assert(n1 * pow2(0) == n1 && n2 * pow2(0) == n2);
    let k1 = lemma_low_form(n1, d1, 0);
    let k2 = lemma_low_form(n2, d2, 0);
    let s1 = pow2(k1);
    let s2 = pow2(k2);
    let a1 = n1 * s1;
    let a2 = n2 * s2;
    lemma_nearest_in_binade(a1, d1);
    lemma_nearest_in_binade(a2, d2);
    let m1 = nearest(a1, d1);
    let m2 = nearest(a2, d2);
    if k1 == k2 {
        assert(a1 * d2 <= a2 * d1) by (nonlinear_arith)
            requires
                n1 * d2 <= n2 * d1,
                a1 == n1 * s1,
                a2 == n2 * s1,
                s1 >= 0,
        ;
        lemma_nearest_keeps_order(a1, d1, a2, d2);
        assert(m1 * s2 <= m2 * s1) by (nonlinear_arith)
            requires
                m1 <= m2,
                s1 == s2,
                s1 >= 0,
        ;
    } else if k1 > k2 {
        lemma_doubled(k2, k1);
        assert(m1 * s2 <= m2 * s1) by (nonlinear_arith)
            requires
                m1 <= MANTISSA_END,
                m2 >= MANTISSA_MIN,
                2 * s2 <= s1,
                s2 >= 0,
        ;
    } else {
        lemma_doubled(k1, k2);
        assert(n1 * s2 >= MANTISSA_END * d1) by (nonlinear_arith)
            requires
                n1 * s1 >= MANTISSA_MIN * d1,
                s2 >= 2 * s1,
                n1 >= 0,
        ;
        assert(n1 * s2 * d2 >= MANTISSA_END * d1 * d2) by (nonlinear_arith)
            requires
                n1 * s2 >= MANTISSA_END * d1,
                d2 >= 0,
        ;
        assert(n2 * s2 * d1 < MANTISSA_END * d2 * d1) by (nonlinear_arith)
            requires
                n2 * s2 < MANTISSA_END * d2,
                d1 > 0,
        ;
        assert(n1 * s2 * d2 <= n2 * s2 * d1) by (nonlinear_arith)
            requires
                n1 * d2 <= n2 * d1,
                s2 >= 0,
        ;
        assert(MANTISSA_END * d1 * d2 == MANTISSA_END * d2 * d1) by (nonlinear_arith);
    }
}

/// Rounded values are in the order of the exact ones.
pub proof fn law_rounding_keeps_order(n1: nat, d1: nat, n2: nat, d2: nat)
    requires
        d1 > 0,
        d2 > 0,
        n1 * d2 <= n2 * d1,
    ensures
        rounded(n1, d1).den > 0,
        rounded(n2, d2).den > 0,
        at_most(rounded(n1, d1), rounded(n2, d2)),
{
    lemma_rounded_bounds(n1, d1);
    lemma_rounded_bounds(n2, d2);
    let r1 = rounded(n1, d1);
    let r2 = rounded(n2, d2);
    if n1 == 0 {
        assert(r1.num * r2.den == 0 && r2.num * r1.den >= 0) by (nonlinear_arith)
            requires
                r1.num == 0,
                r2.num >= 0,
                r1.den >= 0,
        ;
    } else if n2 == 0 {
        assert(n1 * d2 > 0) by (nonlinear_arith)
            requires
                n1 > 0,
                d2 > 0,
        ;
        assert(n2 * d1 == 0) by (nonlinear_arith)
            requires
                n2 == 0,
        ;
    } else if n1 >= MANTISSA_MIN * d1 {
        assert(n2 >= MANTISSA_MIN * d2) by (nonlinear_arith)
            requires
                n1 >= MANTISSA_MIN * d1,
                n1 * d2 <= n2 * d1,
                d1 > 0,
                d2 > 0,
        ;
        lemma_high_keeps_order(n1, d1, n2, d2);
        assert(r1.num * r2.den == r1.num && r2.num * r1.den == r2.num) by (nonlinear_arith)
            requires
                r1.den == 1,
                r2.den == 1,
        ;
    } else if n2 >= MANTISSA_MIN * d2 {
        lemma2_to64();
        assert(n1 * pow2(0) == n1);
        let k = lemma_low_form(n1, d1, 0);
        lemma_doubled(0, k);
        assert(r1.num * r2.den <= r2.num * r1.den) by (nonlinear_arith)
            requires
                r1.num <= MANTISSA_END,
                r2.num >= MANTISSA_MIN,
                r1.den >= 2,
                r2.den == 1,
        ;
    } else {
        lemma_low_keeps_order(n1, d1, n2, d2);
    }
}

/// A whole number of at most 24 bits is not changed.
proof fn lemma_whole_is_kept(n: nat)
    requires
        n < MANTISSA_END,
    ensures
        rounded(n, 1).den > 0,
        rounded(n, 1).num == n * rounded(n, 1).den,
{
    lemma_rounded_bounds(n, 1);
    if n >= MANTISSA_MIN {
        lemma_of_int_bounds(n);
        assert(rounded(n, 1) == of_int(n));
    } else if n > 0 {
        lemma2_to64();
        assert(n * pow2(0) == n);
        let k = lemma_low_form(n, 1, 0);
        let scaled = n * pow2(k);
        assert(scaled % 1 == 0 && scaled / 1 == scaled);
    }
}

/// Rounding does not cross a whole number of at most 24 bits.
pub proof fn law_rounding_keeps_whole_bounds(num: nat, den: nat, n: nat)
    requires
        den > 0,
        n < MANTISSA_END,
    ensures
        rounded(num, den).den > 0,
        num <= n * den ==> rounded(num, den).num <= n * rounded(num, den).den,
        num >= n * den ==> rounded(num, den).num >= n * rounded(num, den).den,
{
    lemma_rounded_bounds(num, den);
    lemma_whole_is_kept(n);
    let r = rounded(num, den);
    let w = rounded(n, 1);
    if num <= n * den {
        law_rounding_keeps_order(num, den, n, 1);
        assert(r.num <= n * r.den) by (nonlinear_arith)
            requires
                r.num * w.den <= w.num * r.den,
                w.num == n * w.den,
                w.den > 0,
        ;
    }
    if num >= n * den {
        law_rounding_keeps_order(n, 1, num, den);
        assert(r.num >= n * r.den) by (nonlinear_arith)
            requires
                w.num * r.den <= r.num * w.den,
                w.num == n * w.den,
                w.den > 0,
        ;
    }
}

proof fn lemma_nearest_exact(q: nat, den: nat)
    requires
        den > 0,
    ensures
        nearest(q * den, den) == q,
{
    vstd::arithmetic::div_mod::lemma_div_multiples_vanish(q as int, den as int);
    vstd::arithmetic::div_mod::lemma_mod_multiples_basic(q as int, den as int);
    assert(den * q == q * den) by (nonlinear_arith);
}

/// A mantissa that reaches into the next binade is the power of two with which that begins.
proof fn lemma_next_binade(mantissa: nat, p: nat, q: nat)
    requires
        mantissa <= MANTISSA_END,
        0 < p,
        2 * p <= q,
        MANTISSA_MIN * q <= mantissa * p,
    ensures
        mantissa * p == MANTISSA_MIN * q,
        mantissa == MANTISSA_END,
        q == 2 * p,
{
    assert(mantissa * p <= MANTISSA_END * p) by (nonlinear_arith)
        requires
            mantissa <= MANTISSA_END,
    ;
    assert(mantissa == MANTISSA_END) by (nonlinear_arith)
        requires
            mantissa <= MANTISSA_END,
            mantissa * p >= MANTISSA_END * p,
            p > 0,
    ;
}

/// A value with a mantissa of 24 bits is not changed by rounding.
pub proof fn law_rounding_keeps_singles(mantissa: nat, exponent: int)
    requires
        mantissa <= MANTISSA_END,
    ensures
        ({
            let a = scaled(mantissa, exponent);
            let r = rounded(a.num, a.den);
            &&& a.den > 0
            &&& r.den > 0
            &&& r.num * a.den == a.num * r.den
        }),
{
    let a = scaled(mantissa, exponent);
    lemma2_to64();
    if exponent < 0 {
        lemma_pow2_pos((-exponent) as nat);
    }
    lemma_rounded_bounds(a.num, a.den);
    let r = rounded(a.num, a.den);
    if a.num == 0 {
        assert(r.num * a.den == 0 && a.num * r.den == 0) by (nonlinear_arith)
            requires
                r.num == 0,
                a.num == 0,
        ;
    } else if exponent >= 0 {
        if a.num < MANTISSA_END {
            lemma_whole_is_kept(a.num);
        } else {
            assert(1 * pow2(0) == 1);
            let k = lemma_high_form(a.num, 1, 0);
            lemma_pow2_pos(exponent as nat);
            let (p, q) = (pow2(exponent as nat), pow2(k));
            if k <= exponent {
                let d = (exponent - k) as nat;
                lemma_pow2_adds(k, d);
                let m = mantissa * pow2(d);
                let e = pow2(d);
                assert(mantissa * p == m * q) by (nonlinear_arith)
                    requires
                        p == q * e,
                        m == mantissa * e,
                ;
                lemma_nearest_exact(m, q);
            } else {
                lemma_doubled(exponent as nat, k);
                lemma_next_binade(mantissa, p, q);
                lemma_nearest_exact(MANTISSA_MIN as nat, q);
            }
        }
    } else {
        let j = (-exponent) as nat;
        let p = pow2(j);
        if mantissa >= MANTISSA_MIN * p {
            lemma_doubled(0, j);
            lemma_next_binade(mantissa, 1, p);
            law_rounding_keeps_whole_bounds(mantissa, p, MANTISSA_MIN as nat);
            assert(r.num * 2 == mantissa * r.den) by (nonlinear_arith)
                requires
                    r.num == MANTISSA_MIN * r.den,
                    mantissa == MANTISSA_END,
            ;
        } else {
            assert(mantissa * pow2(0) == mantissa);
            let k = lemma_low_form(mantissa, p, 0);
            let q = pow2(k);
            if k >= j {
                let d = (k - j) as nat;
                lemma_pow2_adds(j, d);
                let m = mantissa * pow2(d);
                let e = pow2(d);
                assert(mantissa * q == m * p) by (nonlinear_arith)
                    requires
                        q == p * e,
                        m == mantissa * e,
                ;
                lemma_nearest_exact(m, p);
            } else {
                lemma_doubled(k, j);
                lemma_next_binade(mantissa, q, p);
                lemma_nearest_exact(MANTISSA_MIN as nat, p);
            }
        }
    }
}

/// Every rounded value has a mantissa of 24 bits, or of the next power of two.
pub proof fn lemma_rounded_is_scaled(num: nat, den: nat) -> (r: (nat, int))
    requires
        den > 0,
    ensures
        r.0 <= MANTISSA_END,
        rounded(num, den) == scaled(r.0, r.1),
{
    lemma2_to64();
    if num == 0 {
        (0, 0)
    } else if num >= MANTISSA_MIN * den {
        assert(den * pow2(0) == den);
        let k = lemma_high_form(num, den, 0);
        let unit = den * pow2(k);
        assert(unit > 0) by (nonlinear_arith)
            requires
                unit == den * pow2(k),
                den > 0,
                pow2(k) > 0,
        ;
        lemma_nearest_in_binade(num, unit);
        (nearest(num, unit), k as int)
    } else {
        assert(num * pow2(0) == num);
        let k = lemma_low_form(num, den, 0);
        lemma_nearest_in_binade(num * pow2(k), den);
        (nearest(num * pow2(k), den), -(k as int))
    }
}

/// Division by 1024 is exact.
pub proof fn law_division_by_1024_is_exact(mantissa: nat, exponent: int)
    requires
        mantissa <= MANTISSA_END,
    ensures
        ({
            let a = scaled(mantissa, exponent);
            let r = over(a, whole(1024));
            &&& a.den > 0
            &&& r.den > 0
            &&& 1024 * (r.num * a.den) == a.num * r.den
        }),
{
    let a = scaled(mantissa, exponent);
    let b = scaled(mantissa, exponent - 10);
    lemma2_to64();
    if exponent < 0 {
        lemma_pow2_pos((-exponent) as nat);
    }
    lemma_whole_factor(1024, a);
    law_rounding_keeps_singles(mantissa, exponent - 10);
    assert(b.num * (a.den * 1024) == a.num * b.den) by {
        if exponent >= 10 {
            let p = pow2((exponent - 10) as nat);
            lemma_pow2_adds((exponent - 10) as nat, 10);
            assert(mantissa * p * 1024 == mantissa * (p * 1024)) by (nonlinear_arith);
        } else if exponent >= 0 {
            let (p, q) = (pow2(exponent as nat), pow2((10 - exponent) as nat));
            lemma_pow2_adds(exponent as nat, (10 - exponent) as nat);
            assert(mantissa * p * q == mantissa * (p * q)) by (nonlinear_arith);
        } else {
            lemma_pow2_adds((-exponent) as nat, 10);
        }
    }
    let d = a.den * 1024;
    let r = rounded(a.num, d);
    let s = rounded(b.num, b.den);
    law_rounding_keeps_order(a.num, d, b.num, b.den);
    law_rounding_keeps_order(b.num, b.den, a.num, d);
    assert(r.num * s.den == s.num * r.den);
    assert(r.num * b.den == b.num * r.den) by (nonlinear_arith)
        requires
            r.num * s.den == s.num * r.den,
            s.num * b.den == b.num * s.den,
            s.den > 0,
    ;
    assert(r.num * d == a.num * r.den) by (nonlinear_arith)
        requires
            r.num * b.den == b.num * r.den,
            b.num * d == a.num * b.den,
            b.den > 0,
    ;
    assert(r.num * d == 1024 * (r.num * a.den)) by (nonlinear_arith)
        requires
            d == a.den * 1024,
    ;
}

/// Rounding takes away less than a thousandth.
pub proof fn law_rounding_stays_close(num: nat, den: nat)
    requires
        den > 0,
    ensures
        rounded(num, den).den > 0,
        1000 * (rounded(num, den).num * den) >= 999 * (num * rounded(num, den).den),
{
    lemma_rounded_bounds(num, den);
    let r = rounded(num, den);
    lemma2_to64();
    if num == 0 {
        assert(num * r.den == 0 && r.num * den >= 0) by (nonlinear_arith)
            requires
                num == 0,
                r.num >= 0,
                den >= 0,
        ;
    } else if num >= MANTISSA_MIN * den {
        assert(den * pow2(0) == den);
        let k = lemma_high_form(num, den, 0);
        let p = pow2(k);
        let unit = den * p;
        assert(unit > 0) by (nonlinear_arith)
            requires
                unit == den * p,
                den > 0,
                p > 0,
        ;
        lemma_nearest(num, unit);
        let m = nearest(num, unit);
        assert(r.num * den == m * unit) by (nonlinear_arith)
            requires
                r.num == m * p,
                unit == den * p,
        ;
        assert(num * r.den == num);
    } else {
        assert(num * pow2(0) == num);
        let k = lemma_low_form(num, den, 0);
        lemma_nearest(num * pow2(k), den);
    }
}

/// Converted integers are in the order of the integers.
pub proof fn lemma_of_int_keeps_order(a: nat, b: nat)
    requires
        a <= b,
    ensures
        at_most(of_int(a), of_int(b)),
{
    lemma_of_int_bounds(a);
    lemma_of_int_bounds(b);
    if a >= MANTISSA_MIN {
        assert(a * 1 == a && b * 1 == b);
        lemma_high_keeps_order(a, 1, b, 1);
    }
}

/// Products with a whole number are in the order of the factors.
pub proof fn lemma_times_keeps_order(n: nat, a: Ratio, b: Ratio)
    requires
        a.den > 0,
        b.den > 0,
        at_most(a, b),
    ensures
        times(whole(n), a).den > 0,
        times(whole(n), b).den > 0,
        at_most(times(whole(n), a), times(whole(n), b)),
{
    lemma_whole_factor(n, a);
    lemma_whole_factor(n, b);
    assert((n * a.num) * b.den <= (n * b.num) * a.den) by (nonlinear_arith)
        requires
            a.num * b.den <= b.num * a.den,
            n >= 0,
    ;
    law_rounding_keeps_order(n * a.num, a.den, n * b.num, b.den);
}

/// Quotients are in the order of the dividends.
pub proof fn lemma_over_keeps_order(a: Ratio, b: Ratio, c: Ratio)
    requires
        a.den > 0,
        b.den > 0,
        c.num > 0,
        c.den > 0,
        at_most(a, b),
    ensures
        over(a, c).den > 0,
        over(b, c).den > 0,
        at_most(over(a, c), over(b, c)),
{
    assert((a.num * c.den) * (b.den * c.num) <= (b.num * c.den) * (a.den * c.num))
        by (nonlinear_arith)
        requires
            a.num * b.den <= b.num * a.den,
            c.num > 0,
            c.den > 0,
    ;
    assert(a.den * c.num > 0 && b.den * c.num > 0) by (nonlinear_arith)
        requires
            a.den > 0,
            b.den > 0,
            c.num > 0,
    ;
    law_rounding_keeps_order(a.num * c.den, a.den * c.num, b.num * c.den, b.den * c.num);
}

/// Values rounded up to whole numbers are in the order of the values.
pub proof fn lemma_ceiling_keeps_order(a: Ratio, b: Ratio)
    requires
        a.den > 0,
        b.den > 0,
        at_most(a, b),
    ensures
        ceiling(a) <= ceiling(b),
{
    let c = ceiling(b);
    lemma_ceiling_bounds(a);
    lemma_ceiling_bounds(b);
    assert(a.num <= c * a.den) by (nonlinear_arith)
        requires
            a.num * b.den <= b.num * a.den,
            b.num <= c * b.den,
            b.den > 0,
            a.den > 0,
    ;
    let e = ceiling(a);
    assert(e <= c) by (nonlinear_arith)
        requires
            a.num <= c * a.den,
            e * a.den <= a.num + a.den - 1,
            a.den > 0,
    ;
}

/// A value rounded up to a whole number is reached, by less than one.
pub proof fn lemma_ceiling_bounds(a: Ratio)
    requires
        a.den > 0,
    ensures
        a.num <= ceiling(a) * a.den <= a.num + a.den - 1,
{
    let n = (a.num + a.den - 1) as int;
    let d = a.den as int;
    lemma_fundamental_div_mod(n, d);
    assert(ceiling(a) * a.den == d * (n / d)) by (nonlinear_arith)
        requires
            ceiling(a) == n / d,
            a.den == d,
    ;
}

/// The nearest whole number is no further away than half, and even where it is that far.
pub proof fn law_nearest_is_nearest(num: nat, den: nat)
    requires
        den > 0,
    ensures
        -den <= 2 * (nearest(num, den) * den - num) <= den,
        2 * (nearest(num, den) * den - num) == den || 2 * (nearest(num, den) * den - num) == -den
            ==> nearest(num, den) % 2 == 0,
{
    let q = num / den;
    let r = num % den;
    lemma_fundamental_div_mod(num as int, den as int);
    assert(num == q * den + r) by (nonlinear_arith)
        requires
            num == den * q + r,
    ;
    assert((q + 1) * den == q * den + den) by (nonlinear_arith);
}

/// A mantissa counts units, a unit doubles with every exponent, and at the exponent zero it is
/// one.
pub proof fn law_scaled_counts_units(mantissa: nat, exponent: int)
    ensures
        scaled(mantissa, 0) == whole(mantissa),
        scaled(mantissa, exponent).num == mantissa * scaled(1, exponent).num,
        scaled(mantissa, exponent).den == scaled(1, exponent).den,
        scaled(1, exponent).num > 0 && scaled(1, exponent).den > 0,
        scaled(1, exponent + 1).num * scaled(1, exponent).den == 2 * (scaled(1, exponent).num
            * scaled(1, exponent + 1).den),
{
    lemma2_to64();
    assert(mantissa * pow2(0) == mantissa);
    if exponent >= 0 {
        lemma_pow2_pos(exponent as nat);
        lemma_pow2_unfold((exponent + 1) as nat);
        let p = pow2(exponent as nat);
        assert(pow2((exponent + 1) as nat) == 2 * p);
        assert(scaled(1, exponent) == (Ratio { num: p, den: 1 }));
        assert(scaled(1, exponent + 1) == (Ratio { num: 2 * p, den: 1 }));
        let (u, v) = (scaled(1, exponent), scaled(1, exponent + 1));
        assert(v.num * u.den == 2 * (u.num * v.den)) by (nonlinear_arith)
            requires
                v.num == 2 * p && v.den == 1,
                u.num == p && u.den == 1,
        ;
    } else {
        lemma_pow2_pos((-exponent) as nat);
        lemma_pow2_unfold((-exponent) as nat);
        let q = pow2((-exponent - 1) as nat);
        assert(mantissa * 1 == mantissa);
        assert(pow2((-exponent) as nat) == 2 * q);
        assert(scaled(1, exponent) == (Ratio { num: 1, den: 2 * q }));
        assert(scaled(1, exponent + 1) == (Ratio { num: 1, den: q }));
        let (u, v) = (scaled(1, exponent), scaled(1, exponent + 1));
        assert(v.num * u.den == 2 * (u.num * v.den)) by (nonlinear_arith)
            requires
                v.num == 1 && v.den == q,
                u.num == 1 && u.den == 2 * q,
        ;
    }
}

/// A rounded value has a full mantissa of 24 bits, or the next power of two, and is no further
/// from the exact value than half a unit of its last place. Where it is that far, the mantissa
/// is even. The unit is the one with which the exact value has 24 bits before the point.
pub proof fn law_rounded_is_nearest(num: nat, den: nat) -> (r: (nat, int))
    requires
        num > 0,
        den > 0,
    ensures
        rounded(num, den) == scaled(r.0, r.1),
        0x80_0000 <= r.0 <= 0x100_0000,
        ({
            let unit = scaled(1, r.1);
            let exact = num * unit.den;
            let step = den * unit.num;
            &&& 0x80_0000 * step <= exact < 0x100_0000 * step
            &&& -step <= 2 * (r.0 * step - exact) <= step
            &&& 2 * (r.0 * step - exact) == step || 2 * (r.0 * step - exact) == -step ==> r.0 % 2
                == 0
        }),
{
    lemma2_to64();
    if num >= MANTISSA_MIN * den {
        assert(den * pow2(0) == den);
        let k = lemma_high_form(num, den, 0);
        let unit = den * pow2(k);
        assert(unit > 0) by (nonlinear_arith)
            requires
                unit == den * pow2(k),
                den > 0,
                pow2(k) > 0,
        ;
        lemma_nearest_in_binade(num, unit);
        law_nearest_is_nearest(num, unit);
        let p = pow2(k);
        assert(1 * p == p && num * 1 == num);
        (nearest(num, unit), k as int)
    } else {
        assert(num * pow2(0) == num);
        let k = lemma_low_form(num, den, 0);
        lemma_nearest_in_binade(num * pow2(k), den);
        law_nearest_is_nearest(num * pow2(k), den);
        assert(den * 1 == den);
        (nearest(num * pow2(k), den), -(k as int))
    }
}

/// Zero stays zero.
pub proof fn law_rounded_zero(den: nat)
    ensures
        rounded(0, den) == whole(0),
{
}

/// True of two fractions of the same value.
pub open spec fn same(a: Ratio, b: Ratio) -> bool {
    a.num * b.den == b.num * a.den
}

proof fn lemma_rounded_same(n1: nat, d1: nat, n2: nat, d2: nat)
    requires
        d1 > 0,
        d2 > 0,
        n1 * d2 == n2 * d1,
    ensures
        same(rounded(n1, d1), rounded(n2, d2)),
{
    law_rounding_keeps_order(n1, d1, n2, d2);
    law_rounding_keeps_order(n2, d2, n1, d1);
}

/// An integer is converted to the rounded value of the integer.
pub proof fn law_integers_are_rounded(n: nat)
    ensures
        same(of_int(n), rounded(n, 1)),
{
    lemma_of_int_bounds(n);
    if n < MANTISSA_END {
        lemma_whole_is_kept(n);
    } else {
        assert(rounded(n, 1) == of_int(n));
    }
}

/// A product is the rounded value of the exact product, in whatever way that is written.
pub proof fn law_products_are_rounded(a: Ratio, b: Ratio, num: nat, den: nat)
    requires
        a.den > 0,
        b.den > 0,
        den > 0,
        num * (a.den * b.den) == (a.num * b.num) * den,
    ensures
        same(times(a, b), rounded(num, den)),
{
    assert(a.den * b.den > 0) by (nonlinear_arith)
        requires
            a.den > 0,
            b.den > 0,
    ;
    lemma_rounded_same(a.num * b.num, a.den * b.den, num, den);
}

/// A quotient is the rounded value of the exact quotient, in whatever way that is written.
pub proof fn law_quotients_are_rounded(a: Ratio, b: Ratio, num: nat, den: nat)
    requires
        a.den > 0,
        b.den > 0,
        b.num > 0,
        den > 0,
        num * (a.den * b.num) == (a.num * b.den) * den,
    ensures
        same(over(a, b), rounded(num, den)),
{
    assert(a.den * b.num > 0) by (nonlinear_arith)
        requires
            a.den > 0,
            b.num > 0,
    ;
    lemma_rounded_same(a.num * b.den, a.den * b.num, num, den);
}

/// A sum is the rounded value of the exact sum, in whatever way that is written.
pub proof fn law_sums_are_rounded(a: Ratio, b: Ratio, num: nat, den: nat)
    requires
        a.den > 0,
        b.den > 0,
        den > 0,
        num * (a.den * b.den) == (a.num * b.den + b.num * a.den) * den,
    ensures
        same(plus(a, b), rounded(num, den)),
{
    assert(a.den * b.den > 0) by (nonlinear_arith)
        requires
            a.den > 0,
            b.den > 0,
    ;
    lemma_rounded_same(a.num * b.den + b.num * a.den, a.den * b.den, num, den);
}

/// Values with the same denominator compare as their numerators, and a fraction may be expanded.
pub proof fn law_comparison(n1: nat, n2: nat, d: nat, a: Ratio, k: nat)
    requires
        d > 0,
        k > 0,
    ensures
        less(Ratio { num: n1, den: d }, Ratio { num: n2, den: d }) <==> n1 < n2,
        less(Ratio { num: k * n1, den: k * d }, a) <==> less(Ratio { num: n1, den: d }, a),
        less(a, Ratio { num: k * n1, den: k * d }) <==> less(a, Ratio { num: n1, den: d }),
{
    assert(n1 * d < n2 * d <==> n1 < n2) by (nonlinear_arith)
        requires
            d > 0,
    ;
    let (x, y) = (n1 * a.den, a.num * d);
    assert((k * n1) * a.den == k * x && a.num * (k * d) == k * y) by (nonlinear_arith)
        requires
            x == n1 * a.den,
            y == a.num * d,
    ;
    assert((k * x < k * y <==> x < y) && (k * y < k * x <==> y < x)) by (nonlinear_arith)
        requires
            k > 0,
    ;
}

/// A value lies between the whole numbers that it is rounded down and up to, which are less than
/// one away from it.
pub proof fn law_whole_parts(a: Ratio)
    requires
        a.den > 0,
    ensures
        floor(a) * a.den <= a.num < (floor(a) + 1) * a.den,
        (ceiling(a) - 1) * a.den < a.num <= ceiling(a) * a.den,
{
    lemma_ceiling_bounds(a);
    lemma_fundamental_div_mod(a.num as int, a.den as int);
    let f = floor(a);
    assert(f * a.den == a.den * f && (f + 1) * a.den == f * a.den + a.den) by (nonlinear_arith);
    let c = ceiling(a);
    assert((c - 1) * a.den == c * a.den - a.den) by (nonlinear_arith);
}

/// A value is shown with the hundredths nearest to it, the even ones of two equally near.
pub proof fn law_hundredths_are_nearest(a: Ratio)
    requires
        a.den > 0,
    ensures
        -a.den <= 2 * (hundredths(a) * a.den - 100 * a.num) <= a.den,
        2 * (hundredths(a) * a.den - 100 * a.num) == a.den || 2 * (hundredths(a) * a.den - 100
            * a.num) == -a.den ==> hundredths(a) % 2 == 0,
{
    law_nearest_is_nearest(100 * a.num, a.den);
}

/// Bits up to those of the first doubled exponent count the smallest unit, and every further
/// exponent doubles the value. Bits from those of infinity on make no number.
pub proof fn law_bits_count(bits: u32)
    ensures
        bits <= 0x100_0000 ==> (of_bits(bits) matches Some(a) && same(
            a,
            scaled(bits as nat, -149),
        )),
        0x80_0000 <= bits < 0x7f00_0000 ==> {
            let (a, b) = (of_bits(bits)->Some_0, of_bits((bits + 0x80_0000) as u32)->Some_0);
            &&& of_bits(bits) is Some && of_bits((bits + 0x80_0000) as u32) is Some
            &&& b.num * a.den == 2 * (a.num * b.den)
        },
        bits >= 0x7f80_0000 ==> of_bits(bits) is None,
{
    if bits < 0x80_0000 {
    } else if bits < 0x7f80_0000 {
        let m = (0x80_0000 + bits % 0x80_0000) as nat;
        let e = bits / 0x80_0000 - 150;
        law_scaled_counts_units(m, e);
        law_scaled_counts_units(m, e + 1);
        if bits < 0x7f00_0000 {
            let next = (bits + 0x80_0000) as u32;
            assert(next % 0x80_0000 == bits % 0x80_0000 && next / 0x80_0000 - 150 == e + 1);
            let (u, v) = (scaled(1, e), scaled(1, e + 1));
            assert((m * v.num) * u.den == 2 * ((m * u.num) * v.den)) by (nonlinear_arith)
                requires
                    v.num * u.den == 2 * (u.num * v.den),
            ;
        }
        if bits <= 0x100_0000 {
            law_scaled_counts_units(bits as nat, -149);
            law_scaled_counts_units(1, -149);
            if bits < 0x100_0000 {
                assert(m == bits && e == -149);
            } else {
                assert(m == 0x80_0000 && e == -148);
                let (u, v) = (scaled(1, -149), scaled(1, -148));
                assert((m * v.num) * u.den == (0x100_0000 * u.num) * v.den) by (nonlinear_arith)
                    requires
                        v.num * u.den == 2 * (u.num * v.den),
                        m == 0x80_0000,
                ;
            }
        }
    }
}

} // verus!
