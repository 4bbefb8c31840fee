//! How far rounded steps lead away from the exact value.

use crate::rounding::{law_rounded_is_nearest, law_scaled_counts_units};
use crate::single::{
    lemma_of_int_bounds, lemma_whole_factor, of_int, over, plus, rounded, scaled, times, whole,
    Ratio, MANTISSA_END,
};
use vstd::prelude::*;

verus! {

/// True of a value that differs from `num / den` by at most `k` parts in 2 to the power 24.
pub open spec fn close(r: Ratio, num: nat, den: nat, k: nat) -> bool {
    &&& r.den > 0
    &&& den > 0
    &&& (0x100_0000 - k) * (num * r.den) <= 0x100_0000 * (r.num * den)
    &&& 0x100_0000 * (r.num * den) <= (0x100_0000 + k) * (num * r.den)
}

/// Rounding leads away by at most one part.
pub proof fn law_rounding_is_close(num: nat, den: nat)
    requires
        den > 0,
    ensures
        close(rounded(num, den), num, den, 1),
{
    let r = rounded(num, den);
    if num == 0 {
        assert(r.num * den == 0 && num * r.den == 0) by (nonlinear_arith)
            requires
                r.num == 0,
                num == 0,
        ;
    } else {
        let (m, e) = law_rounded_is_nearest(num, den);
        law_scaled_counts_units(m, e);
        let unit = scaled(1, e);
        let step = den * unit.num;
        let exact = num * unit.den;
        assert(num * r.den == exact);
        assert(r.num * den == m * step) by (nonlinear_arith)
            requires
                r.num == m * unit.num,
                step == den * unit.num,
        ;
        let reached = m * step;
        assert(0x80_0000 * step <= exact);
        assert(0x100_0000 * reached <= 0x100_0001 * exact);
        assert(0xff_ffff * exact <= 0x100_0000 * reached);
    }
}

/// A conversion leads away by at most one part.
pub proof fn lemma_of_int_close(n: nat)
    ensures
        close(of_int(n), n, 1, 1),
{
    lemma_of_int_bounds(n);
    if n >= MANTISSA_END {
        law_rounding_is_close(n, 1);
        assert(rounded(n, 1) == of_int(n));
    } else {
        lemma_whole_close(n, 1);
    }
}

/// A whole number is exact.
pub proof fn lemma_whole_close(n: nat, k: nat)
    requires
        k <= 1000,
    ensures
        close(whole(n), n, 1, k),
{
    assert((0x100_0000 - k) * n <= 0x100_0000 * n && 0x100_0000 * n <= (0x100_0000 + k) * n)
        by (nonlinear_arith)
        requires
            n >= 0,
            k >= 0,
    ;
}

/// What is close within few parts is close within more.
pub proof fn lemma_close_more(r: Ratio, num: nat, den: nat, j: nat, k: nat)
    requires
        close(r, num, den, j),
        j <= k,
    ensures
        close(r, num, den, k),
{
    let t = num * r.den;
    assert((0x100_0000 - k) * t <= (0x100_0000 - j) * t && (0x100_0000 + j) * t <= (0x100_0000 + k)
        * t) by (nonlinear_arith)
        requires
            j <= k,
            t >= 0,
    ;
}

/// Two steps lead away by hardly more than both together.
pub proof fn lemma_close_trans(r: Ratio, a: Ratio, num: nat, den: nat, j: nat, k: nat)
    requires
        close(r, a.num, a.den, j),
        close(a, num, den, k),
        j <= 1000,
        k <= 1000,
    ensures
        close(r, num, den, j + k + 1),
{
    let c: int = 0x100_0000;
    let (x, y, p, q) = (r.num as int, r.den as int, a.num as int, a.den as int);
    let s = x * den;
    let t = num * y;
    let w = (p * y) * den;
    // Both bounds, brought to the same denominator.
    assert((c - j) * w <= c * (s * q) && c * (s * q) <= (c + j) * w) by (nonlinear_arith)
        requires
            (c - j) * (p * y) <= c * (x * q),
            c * (x * q) <= (c + j) * (p * y),
            s == x * den,
            w == (p * y) * den,
            den > 0,
    ;
    assert((c - k) * (t * q) <= c * w && c * w <= (c + k) * (t * q)) by (nonlinear_arith)
        requires
            (c - k) * (num * q) <= c * (p * den),
            c * (p * den) <= (c + k) * (num * q),
            t == num * y,
            w == (p * y) * den,
            y > 0,
    ;
    let (sq, tq) = (s * q, t * q);
    assert(c * c * sq <= (c + j) * (c + k) * tq) by (nonlinear_arith)
        requires
            c * sq <= (c + j) * w,
            c * w <= (c + k) * tq,
            c > 0,
            j >= 0,
    ;
    assert((c - j) * (c - k) * tq <= c * c * sq) by (nonlinear_arith)
        requires
            (c - j) * w <= c * sq,
            (c - k) * tq <= c * w,
            c > 0,
            c - j > 0,
    ;
    assert(c * c * s <= (c + j) * (c + k) * t) by (nonlinear_arith)
        requires
            c * c * sq <= (c + j) * (c + k) * tq,
            sq == s * q,
            tq == t * q,
            q > 0,
    ;
    assert((c - j) * (c - k) * t <= c * c * s) by (nonlinear_arith)
        requires
            (c - j) * (c - k) * tq <= c * c * sq,
            sq == s * q,
            tq == t * q,
            q > 0,
    ;
    assert(t >= 0) by (nonlinear_arith)
        requires
            t == num * y,
            num >= 0,
            y > 0,
    ;
    assert(j * k <= 1000 * 1000) by (nonlinear_arith)
        requires
            0 <= j <= 1000,
            0 <= k <= 1000,
    ;
    assert((c + j) * (c + k) <= c * (c + (j + k + 1)) && c * (c - (j + k + 1)) <= (c - j) * (c - k))
        by (nonlinear_arith)
        requires
            j * k <= c,
            j >= 0,
            k >= 0,
            c > 0,
    ;
    let (hi, lo) = ((c + j) * (c + k), (c - j) * (c - k));
    assert(c * s <= (c + (j + k + 1)) * t) by (nonlinear_arith)
        requires
            c * c * s <= hi * t,
            hi <= c * (c + (j + k + 1)),
            t >= 0,
            c > 0,
    ;
    assert((c - (j + k + 1)) * t <= c * s) by (nonlinear_arith)
        requires
            lo * t <= c * c * s,
            c * (c - (j + k + 1)) <= lo,
            t >= 0,
            c > 0,
    ;
}

/// An exact factor leads nowhere.
pub proof fn lemma_close_scale(a: Ratio, num: nat, den: nat, k: nat, c: nat, e: nat)
    requires
        close(a, num, den, k),
        k <= 1000,
        e > 0,
    ensures
        close(Ratio { num: a.num * c, den: a.den * e }, num * c, den * e, k),
{
    let (s, t, f) = (a.num * den, num * a.den, c * e);
    assert((a.num * c) * (den * e) == s * f && (num * c) * (a.den * e) == t * f)
        by (nonlinear_arith)
        requires
            s == a.num * den,
            t == num * a.den,
            f == c * e,
    ;
    assert((0x100_0000 - k) * (t * f) <= 0x100_0000 * (s * f) && 0x100_0000 * (s * f)
        <= (0x100_0000 + k) * (t * f)) by (nonlinear_arith)
        requires
            (0x100_0000 - k) * t <= 0x100_0000 * s,
            0x100_0000 * s <= (0x100_0000 + k) * t,
            f >= 0,
    ;
    assert(a.den * e > 0 && den * e > 0) by (nonlinear_arith)
        requires
            a.den > 0,
            den > 0,
            e > 0,
    ;
}

/// The reciprocal leads away by at most twice as much.
pub proof fn lemma_close_reciprocal(a: Ratio, num: nat, den: nat, k: nat)
    requires
        close(a, num, den, k),
        k <= 500,
        num > 0,
    ensures
        a.num > 0,
        close(Ratio { num: a.den, den: a.num }, den, num, 2 * k),
{
    let c: int = 0x100_0000;
    let (s, t) = (a.num * den, num * a.den);
    assert(t > 0) by (nonlinear_arith)
        requires
            t == num * a.den,
            num > 0,
            a.den > 0,
    ;
    assert(s > 0) by (nonlinear_arith)
        requires
            (c - k) * t <= c * s,
            c - k > 0,
            t > 0,
            c > 0,
    ;
    assert(a.num > 0) by (nonlinear_arith)
        requires
            s == a.num * den,
            s > 0,
            a.num >= 0,
    ;
    assert(a.den * num == t && den * a.num == s) by (nonlinear_arith)
        requires
            s == a.num * den,
            t == num * a.den,
    ;
    assert((c - k) * (c + 2 * k) >= c * c && (c + k) * (c - 2 * k) <= c * c) by (nonlinear_arith)
        requires
            0 <= k <= 500,
            c == 0x100_0000,
    ;
    let (u, v) = ((c - k) * (c + 2 * k), (c + k) * (c - 2 * k));
    assert(c * t <= (c + 2 * k) * s) by (nonlinear_arith)
        requires
            (c - k) * t <= c * s,
            u == (c - k) * (c + 2 * k),
            u >= c * c,
            t > 0,
            s > 0,
            c > 0,
            k >= 0,
    ;
    assert((c - 2 * k) * s <= c * t) by (nonlinear_arith)
        requires
            c * s <= (c + k) * t,
            v == (c + k) * (c - 2 * k),
            v <= c * c,
            t > 0,
            s > 0,
            c - 2 * k > 0,
            c > 0,
    ;
}

proof fn lemma_regroup(a: nat, b: nat, c: nat, d: nat)
    ensures
        (a * b) * (c * d) == (a * c) * (b * d),
{
    assert((a * b) * (c * d) == (a * c) * (b * d)) by (nonlinear_arith);
}

proof fn lemma_distribute(a: nat, b: nat, c: nat)
    ensures
        (a + b) * c == a * c + b * c,
{
    assert((a + b) * c == a * c + b * c) by (nonlinear_arith);
}

/// A sum leads away by no more than its parts.
pub proof fn lemma_close_sum(
    a: Ratio,
    n1: nat,
    d1: nat,
    b: Ratio,
    n2: nat,
    d2: nat,
    k: nat,
)
    requires
        close(a, n1, d1, k),
        close(b, n2, d2, k),
        k <= 1000,
    ensures
        close(
            Ratio { num: a.num * b.den + b.num * a.den, den: a.den * b.den },
            n1 * d2 + n2 * d1,
            d1 * d2,
            k,
        ),
{
    let (s1, t1) = (a.num * d1, n1 * a.den);
    let (s2, t2) = (b.num * d2, n2 * b.den);
    let (f, g) = (b.den * d2, a.den * d1);
    lemma_regroup(a.num, b.den, d1, d2);
    lemma_regroup(b.num, a.den, d2, d1);
    lemma_regroup(n1, d2, a.den, b.den);
    lemma_regroup(n2, d1, b.den, a.den);
    assert(d1 * d2 == d2 * d1 && a.den * b.den == b.den * a.den && d2 * b.den == f && d1 * a.den
        == g) by (nonlinear_arith)
        requires
            f == b.den * d2,
            g == a.den * d1,
    ;
    lemma_distribute(a.num * b.den, b.num * a.den, d1 * d2);
    lemma_distribute(n1 * d2, n2 * d1, a.den * b.den);
    let c: int = 0x100_0000;
    assert((c - k) * (t1 * f) <= c * (s1 * f) && c * (s1 * f) <= (c + k) * (t1 * f))
        by (nonlinear_arith)
        requires
            (c - k) * t1 <= c * s1,
            c * s1 <= (c + k) * t1,
            f >= 0,
    ;
    assert((c - k) * (t2 * g) <= c * (s2 * g) && c * (s2 * g) <= (c + k) * (t2 * g))
        by (nonlinear_arith)
        requires
            (c - k) * t2 <= c * s2,
            c * s2 <= (c + k) * t2,
            g >= 0,
    ;
    let (x1, x2, y1, y2) = (t1 * f, t2 * g, s1 * f, s2 * g);
    assert((c - k) * (x1 + x2) <= c * (y1 + y2) && c * (y1 + y2) <= (c + k) * (x1 + x2))
        by (nonlinear_arith)
        requires
            (c - k) * x1 <= c * y1,
            c * y1 <= (c + k) * x1,
            (c - k) * x2 <= c * y2,
            c * y2 <= (c + k) * x2,
    ;
    assert(a.den * b.den > 0 && d1 * d2 > 0) by (nonlinear_arith)
        requires
            a.den > 0,
            b.den > 0,
            d1 > 0,
            d2 > 0,
    ;
}

/// A product with a whole number is close to the exact one.
pub proof fn lemma_times_close(w: nat, a: Ratio, num: nat, den: nat, k: nat)
    requires
        close(a, num, den, k),
        k <= 900,
    ensures
        close(times(whole(w), a), w * num, den, k + 2),
{
    lemma_whole_factor(w, a);
    lemma_close_scale(a, num, den, k, w, 1);
    let p = Ratio { num: a.num * w, den: a.den * 1 };
    assert(p.num == w * a.num && p.den == a.den && num * w == w * num && den * 1 == den)
        by (nonlinear_arith)
        requires
            p.num == a.num * w,
            p.den == a.den * 1,
    ;
    law_rounding_is_close(p.num, p.den);
    lemma_close_trans(rounded(p.num, p.den), p, w * num, den, 1, k);
}

/// A quotient is close to the exact one.
pub proof fn lemma_over_close(
    a: Ratio,
    n1: nat,
    d1: nat,
    j: nat,
    b: Ratio,
    n2: nat,
    d2: nat,
    k: nat,
)
    requires
        close(a, n1, d1, j),
        close(b, n2, d2, k),
        j <= 400,
        k <= 200,
        n2 > 0,
    ensures
        b.num > 0,
        close(over(a, b), n1 * d2, d1 * n2, j + 2 * k + 3),
{
    lemma_close_reciprocal(b, n2, d2, k);
    lemma_close_scale(a, n1, d1, j, b.den, b.num);
    let p = Ratio { num: a.num * b.den, den: a.den * b.num };
    let m = Ratio { num: n1 * b.den, den: d1 * b.num };
    let inverse = Ratio { num: b.den, den: b.num };
    lemma_close_scale(inverse, d2, n2, 2 * k, n1, d1);
    assert(b.den * n1 == n1 * b.den && b.num * d1 == d1 * b.num && d2 * n1 == n1 * d2 && n2 * d1
        == d1 * n2) by (nonlinear_arith);
    assert(close(m, n1 * d2, d1 * n2, 2 * k));
    lemma_close_trans(p, m, n1 * d2, d1 * n2, j, 2 * k);
    law_rounding_is_close(p.num, p.den);
    lemma_close_trans(rounded(p.num, p.den), p, n1 * d2, d1 * n2, 1, j + 2 * k + 1);
}

/// A sum is close to the exact one.
pub proof fn lemma_plus_close(
    a: Ratio,
    n1: nat,
    d1: nat,
    b: Ratio,
    n2: nat,
    d2: nat,
    k: nat,
)
    requires
        close(a, n1, d1, k),
        close(b, n2, d2, k),
        k <= 900,
    ensures
        close(plus(a, b), n1 * d2 + n2 * d1, d1 * d2, k + 2),
{
    lemma_close_sum(a, n1, d1, b, n2, d2, k);
    let p = Ratio { num: a.num * b.den + b.num * a.den, den: a.den * b.den };
    law_rounding_is_close(p.num, p.den);
    lemma_close_trans(rounded(p.num, p.den), p, n1 * d2 + n2 * d1, d1 * d2, 1, k);
}

} // verus!
