//! Non-negative single-precision arithmetic on whole numbers.
//!
//! A value is held exactly, as a mantissa and an exponent. Every operation computes the exact
//! quotient, product or sum and rounds it once to the nearest number with a
//! mantissa of 24 bits, a tie going to the even mantissa, which is what IEEE 754
//! asks of binary32. Every finite value of that format can be held. The results that
//! occur here stay far inside its range, so that neither overflow nor gradual underflow
//! is modelled.

use vstd::arithmetic::div_mod::lemma_fundamental_div_mod;
use vstd::arithmetic::power2::{
    lemma2_to64, lemma2_to64_rest, lemma_pow2_adds, lemma_pow2_pos, lemma_pow2_strictly_increases,
    lemma_pow2_unfold, pow2,
};
use vstd::prelude::*;

verus! {

/// 2 to the power 23, the smallest mantissa of 24 bits.
pub const MANTISSA_MIN: u128 = 0x80_0000;

/// 2 to the power 24, which no mantissa of 24 bits reaches.
pub const MANTISSA_END: u128 = 0x100_0000;

/// The value `num / den`.
#[verifier::ext_equal]
pub struct Ratio {
    pub num: nat,
    pub den: nat,
}

/// The whole number nearest to `num / den`, the even one of two equally near.
pub open spec fn nearest(num: nat, den: nat) -> nat {
    let q = num / den;
    let r = num % den;
    if 2 * r > den || (2 * r == den && q % 2 == 1) {
        q + 1
    } else {
        q
    }
}

/// Rounds a value of at least `MANTISSA_MIN`: the unit of the last place, `scale`,
/// is doubled until the mantissa fits. `unit` is `scale` times the denominator.
pub open spec fn rounded_high(num: nat, unit: nat, scale: nat) -> Ratio
    decreases 2 * num - MANTISSA_END * unit,
{
    if unit > 0 && num >= MANTISSA_END * unit {
        rounded_high(num, 2 * unit, 2 * scale)
    } else {
        Ratio { num: nearest(num, unit) * scale, den: 1 }
    }
}

/// Rounds a value below `MANTISSA_MIN`: the unit of the last place, one part in
/// `scale`, is halved until the mantissa is full. `scaled` is `scale` times the
/// numerator.
pub open spec fn rounded_low(scaled: nat, den: nat, scale: nat) -> Ratio
    decreases MANTISSA_END * den - scaled,
{
    if scaled > 0 && scaled < MANTISSA_MIN * den {
        rounded_low(2 * scaled, den, 2 * scale)
    } else {
        Ratio { num: nearest(scaled, den), den: scale }
    }
}

/// `num / den`, rounded to 24 bits of mantissa.
pub open spec fn rounded(num: nat, den: nat) -> Ratio {
    if num == 0 {
        Ratio { num: 0, den: 1 }
    } else if num >= MANTISSA_MIN * den {
        rounded_high(num, den, 1)
    } else {
        rounded_low(num, den, 1)
    }
}

/// A whole number below `MANTISSA_END`, which needs no rounding.
pub open spec fn whole(n: nat) -> Ratio {
    Ratio { num: n, den: 1 }
}

/// The conversion of an integer.
pub open spec fn of_int(n: nat) -> Ratio {
    rounded_high(n, 1, 1)
}

/// The product.
pub open spec fn times(a: Ratio, b: Ratio) -> Ratio {
    rounded(a.num * b.num, a.den * b.den)
}

/// The quotient.
pub open spec fn over(a: Ratio, b: Ratio) -> Ratio {
    rounded(a.num * b.den, a.den * b.num)
}

/// The sum.
pub open spec fn plus(a: Ratio, b: Ratio) -> Ratio {
    rounded(a.num * b.den + b.num * a.den, a.den * b.den)
}

/// The comparison.
pub open spec fn less(a: Ratio, b: Ratio) -> bool {
    a.num * b.den < b.num * a.den
}

/// The smallest whole number that is not below the value.
pub open spec fn ceiling(a: Ratio) -> nat {
    ((a.num + a.den - 1) as nat) / a.den
}

/// The largest whole number that is not above the value.
pub open spec fn floor(a: Ratio) -> nat {
    a.num / a.den
}

/// The value in hundredths, rounded for display.
pub open spec fn hundredths(a: Ratio) -> nat {
    nearest(100 * a.num, a.den)
}

/// How far the nearest whole number can be, and that it does not lie beyond another one.
pub proof fn lemma_nearest(num: nat, den: nat)
    requires
        den > 0,
    ensures
        nearest(num, den) * den <= num + den,
        num <= nearest(num, den) * den + den,
        forall|k: nat| num >= #[trigger] (k * den) ==> nearest(num, den) >= k,
        forall|k: nat| num <= #[trigger] (k * den) ==> nearest(num, den) <= k,
{
    let q = num / den;
    let r = num % den;
    lemma_fundamental_div_mod(num as int, den as int);
    assert(num == q * den + r) by (nonlinear_arith)
        requires
            num == den * q + r,
    ;
    assert((q + 1) * den == q * den + den) by (nonlinear_arith);
    assert forall|k: nat| num >= #[trigger] (k * den) implies nearest(num, den) >= k by {
        if q < k {
            assert(k * den >= (q + 1) * den) by (nonlinear_arith)
                requires
                    k >= q + 1,
                    den > 0,
            ;
        }
    }
    assert forall|k: nat| num <= #[trigger] (k * den) implies nearest(num, den) <= k by {
        assert(q <= k) by (nonlinear_arith)
            requires
                q * den <= k * den,
                den > 0,
        ;
    }
}

proof fn lemma_high_bounds(num: nat, unit: nat, scale: nat, den: nat)
    requires
        den > 0,
        scale > 0,
        unit == den * scale,
        num >= MANTISSA_MIN * unit,
    ensures
        rounded_high(num, unit, scale).den == 1,
        rounded_high(num, unit, scale).num * den <= 2 * num,
        rounded_high(num, unit, scale).num >= MANTISSA_MIN,
    decreases 2 * num - MANTISSA_END * unit,
{
    assert(unit > 0) by (nonlinear_arith)
        requires
            unit == den * scale,
            den > 0,
            scale > 0,
    ;
    if num >= MANTISSA_END * unit {
        assert(2 * unit == den * (2 * scale)) by (nonlinear_arith)
            requires
                unit == den * scale,
        ;
        lemma_high_bounds(num, 2 * unit, 2 * scale, den);
    } else {
        lemma_nearest(num, unit);
        let q = nearest(num, unit);
        assert((q * scale) * den == q * unit) by (nonlinear_arith)
            requires
                unit == den * scale,
        ;
        assert((MANTISSA_MIN as nat) * unit == MANTISSA_MIN * unit);
        assert(q >= MANTISSA_MIN);
        assert(q * scale >= q) by (nonlinear_arith)
            requires
                scale >= 1,
                q >= 0,
        ;
    }
}

proof fn lemma_low_bounds(scaled: nat, den: nat, scale: nat, num: nat)
    requires
        den > 0,
        num > 0,
        scale > 0,
        scaled == num * scale,
        scaled < MANTISSA_END * den,
    ensures
        rounded_low(scaled, den, scale).den > 0,
        rounded_low(scaled, den, scale).den * num <= MANTISSA_END * den,
        MANTISSA_MIN <= rounded_low(scaled, den, scale).num <= MANTISSA_END,
    decreases MANTISSA_END * den - scaled,
{
    assert(scaled > 0) by (nonlinear_arith)
        requires
            scaled == num * scale,
            num > 0,
            scale > 0,
    ;
    if scaled < MANTISSA_MIN * den {
        assert(2 * scaled == num * (2 * scale)) by (nonlinear_arith)
            requires
                scaled == num * scale,
        ;
        lemma_low_bounds(2 * scaled, den, 2 * scale, num);
    } else {
        lemma_nearest(scaled, den);
        assert((MANTISSA_MIN as nat) * den == MANTISSA_MIN * den);
        assert((MANTISSA_END as nat) * den == MANTISSA_END * den);
        assert(scale * num == num * scale) by (nonlinear_arith);
    }
}

/// How large the two parts of a rounded value can become.
pub proof fn lemma_rounded_bounds(num: nat, den: nat)
    requires
        den > 0,
    ensures
        rounded(num, den).den > 0,
        num == 0 ==> rounded(num, den) == whole(0),
        num > 0 ==> rounded(num, den).num >= MANTISSA_MIN,
        num >= MANTISSA_MIN * den ==> rounded(num, den).den == 1 && rounded(num, den).num * den
            <= 2 * num,
        num < MANTISSA_MIN * den ==> rounded(num, den).num <= MANTISSA_END && rounded(
            num,
            den,
        ).den * num <= MANTISSA_END * den,
{
    if num == 0 {
    } else if num >= MANTISSA_MIN * den {
        lemma_high_bounds(num, den, 1, den);
    } else {
        lemma_low_bounds(num, den, 1, num);
    }
}

/// How large the two parts of a rounded value can become when those of the exact
/// value are at most `num_cap` and `den_cap`.
pub proof fn lemma_rounded_caps(num: nat, den: nat, num_cap: nat, den_cap: nat)
    requires
        0 < den <= den_cap,
        num <= num_cap,
    ensures
        rounded(num, den).den > 0,
        num == 0 ==> rounded(num, den) == whole(0),
        num > 0 ==> rounded(num, den).num >= MANTISSA_MIN,
        rounded(num, den).num <= 2 * num_cap || rounded(num, den).num <= MANTISSA_END,
        rounded(num, den).den <= MANTISSA_END * den_cap,
        num >= MANTISSA_MIN ==> rounded(num, den).den <= 2 * den_cap,
{
    lemma_rounded_bounds(num, den);
    let r = rounded(num, den);
    if num == 0 {
    } else if num >= MANTISSA_MIN * den {
        assert(r.num <= r.num * den) by (nonlinear_arith)
            requires
                den >= 1,
                r.num >= 0,
        ;
    } else {
        assert(r.den <= r.den * num) by (nonlinear_arith)
            requires
                num >= 1,
                r.den >= 0,
        ;
        if num >= MANTISSA_MIN {
            assert(r.den * num >= r.den * MANTISSA_MIN) by (nonlinear_arith)
                requires
                    num >= MANTISSA_MIN,
                    r.den >= 0,
            ;
        }
    }
}

/// Multiplication with a whole number, and division by it.
pub proof fn lemma_whole_factor(n: nat, a: Ratio)
    ensures
        whole(n).num * a.num == n * a.num,
        whole(n).den * a.den == a.den,
        a.num * whole(n).den == a.num,
        a.den * whole(n).num == a.den * n,
        times(whole(n), a) == rounded(n * a.num, a.den),
        over(a, whole(n)) == rounded(a.num, a.den * n),
{
    assert(1 * a.den == a.den && a.num * 1 == a.num) by (nonlinear_arith);
}

/// Division by 1024 of a value of at least 1: neither part grows beyond measure.
pub proof fn lemma_over_1024_bounds(a: Ratio)
    requires
        0 < a.den <= a.num,
    ensures
        a.num * whole(1024).den == a.num,
        a.den * whole(1024).num == a.den * 1024,
        over(a, whole(1024)).num <= a.num || over(a, whole(1024)).num <= MANTISSA_END,
        over(a, whole(1024)).num * 512 <= a.num || over(a, whole(1024)).num <= MANTISSA_END,
        0 < over(a, whole(1024)).den <= MANTISSA_END * 1024,
{
    let num = a.num;
    let den = a.den * 1024;
    assert(over(a, whole(1024)) == rounded(num, den));
    lemma_rounded_bounds(num, den);
    let r = rounded(num, den);
    if num >= MANTISSA_MIN * den {
        assert(r.num * 512 <= num) by (nonlinear_arith)
            requires
                r.num * den <= 2 * num,
                den >= 1024,
                r.num >= 0,
        ;
    } else {
        assert(r.den <= MANTISSA_END * 1024) by (nonlinear_arith)
            requires
                r.den * num <= MANTISSA_END * (a.den * 1024),
                num >= a.den,
                a.den > 0,
                r.den >= 0,
        ;
    }
}

/// How large a converted integer can become.
pub proof fn lemma_of_int_bounds(n: nat)
    ensures
        of_int(n).den == 1,
        of_int(n).num <= 2 * n,
        n > 0 ==> of_int(n).num > 0,
        n < MANTISSA_END ==> of_int(n) == whole(n),
        n >= MANTISSA_END ==> of_int(n).num >= MANTISSA_MIN,
{
    if n < MANTISSA_END {
        assert(n % 1 == 0);
        assert(n / 1 == n);
    } else {
        lemma_high_bounds(n, 1, 1, 1);
    }
}

/// The value `mantissa` times 2 to the power `exponent`.
pub open spec fn scaled(mantissa: nat, exponent: int) -> Ratio {
    if exponent >= 0 {
        Ratio { num: mantissa * pow2(exponent as nat), den: 1 }
    } else {
        Ratio { num: mantissa, den: pow2((-exponent) as nat) }
    }
}

/// The largest finite number: a full mantissa times 2 to the power 104.
pub const LARGEST: u128 = 0xffff_ff00_0000_0000_0000_0000_0000_0000;

/// The number with the given bits in the format of binary32, where it is neither negative
/// nor infinite and a number at all.
pub open spec fn of_bits(bits: u32) -> Option<Ratio> {
    if bits >= 0x7f80_0000 {
        None
    } else if bits < MANTISSA_MIN {
        Some(scaled(bits as nat, -149))
    } else {
        Some(
            scaled(
                (MANTISSA_MIN + bits % 0x80_0000) as nat,
                bits / 0x80_0000 - 150,
            ),
        )
    }
}

/// True of the values that a single-precision number can have: none is above the largest,
/// and a fraction has a mantissa of 24 bits above its denominator.
pub open spec fn is_single(a: Ratio) -> bool {
    &&& a.den > 0
    &&& a.num <= LARGEST
    &&& a.den == 1 || a.num <= MANTISSA_END
}

/// A non-negative, finite single-precision number: a mantissa times a power of two.
#[derive(Clone, Copy)]
pub struct Single {
    mantissa: u32,
    exponent: i32,
}

impl View for Single {
    type V = Ratio;

    closed spec fn view(&self) -> Ratio {
        scaled(self.mantissa as nat, self.exponent as int)
    }
}

/// 2 to the power `k`.
fn power(k: u32) -> (r: u128)
    requires
        k < 128,
    ensures
        r == pow2(k as nat),
{
    let mut r: u128 = 1;
    let mut i: u32 = 0;
    proof {
        lemma2_to64();
    }
    while i < k
        invariant
            i <= k < 128,
            r == pow2(i as nat),
        decreases k - i,
    {
        proof {
            lemma_pow2_unfold((i + 1) as nat);
            lemma_pow2_under((i + 1) as nat);
        }
        r = 2 * r;
        i = i + 1;
    }
    r
}

/// A power of two below 2 to the power 128 fits in `u128`.
proof fn lemma_pow2_under(k: nat)
    requires
        k < 128,
    ensures
        0 < pow2(k) <= 0x8000_0000_0000_0000_0000_0000_0000_0000,
{
    lemma_pow2_pos(k);
    lemma2_to64();
    lemma2_to64_rest();
    lemma_pow2_adds(64, 63);
    assert(0x1_0000_0000_0000_0000 * 0x8000_0000_0000_0000
        == 0x8000_0000_0000_0000_0000_0000_0000_0000);
    if k < 127 {
        lemma_pow2_strictly_increases(k, 127);
    }
}

/// The whole number nearest to `num / den`.
fn nearest_whole(num: u128, den: u128) -> (r: u128)
    requires
        0 < den <= 0x8000_0000_0000_0000_0000_0000_0000_0000,
    ensures
        r == nearest(num as nat, den as nat),
{
    let q = num / den;
    let r = num % den;
    proof {
        assert(r > 0 ==> q < num) by (nonlinear_arith)
            requires
                q == num / den,
                r == num % den,
                den > 0,
        ;
    }
    if r > den - r || (r == den - r && q % 2 == 1) {
        q + 1
    } else {
        q
    }
}

impl Single {
    /// The mantissa has 24 bits, or is the next power of two, and the value is in range.
    #[verifier::type_invariant]
    pub closed spec fn wf(&self) -> bool {
        &&& self.mantissa <= MANTISSA_END
        &&& -149 <= self.exponent <= 104
        &&& self@.num <= LARGEST
    }

    /// The number with the given bits in the format of binary32, where it is neither
    /// negative nor infinite and a number at all.
    pub fn from_bits(bits: u32) -> (r: Option<Single>)
        ensures
            match of_bits(bits) {
                Some(value) => r matches Some(s) && s@ == value,
                None => r is None,
            },
    {
        if bits >= 0x7f80_0000 {
            return None;
        }
        proof {
            lemma_scaled_bounds(0xff_ffff, 104);
        }
        if bits < 0x80_0000 {
            return Some(Single { mantissa: bits, exponent: -149 });
        }
        let mantissa: u32 = 0x80_0000 + bits % 0x80_0000;
        let exponent: i32 = (bits / 0x80_0000) as i32 - 150;
        proof {
            lemma_scaled_bounds(mantissa as nat, exponent as int);
        }
        Some(Single { mantissa, exponent })
    }

    /// The numerator.
    fn num(&self) -> (r: u128)
        ensures
            r == self@.num,
    {
        proof {
            use_type_invariant(self);
        }
        if self.exponent >= 0 {
            self.mantissa as u128 * power(self.exponent as u32)
        } else {
            self.mantissa as u128
        }
    }

    /// The denominator.
    fn den(&self) -> (r: u128)
        requires
            self@.den <= u128::MAX,
        ensures
            r == self@.den,
    {
        if self.exponent >= 0 {
            1
        } else {
            proof {
                use_type_invariant(self);
                lemma_small_power((-self.exponent) as nat);
            }
            power((-self.exponent) as u32)
        }
    }

    /// `num / den`, rounded to 24 bits of mantissa.
    pub fn rounded(num: u128, den: u128) -> (r: Single)
        requires
            0 < den <= 0x80_0000_0000_0000_0000_0000_0000,
            num <= LARGEST,
        ensures
            r@ == rounded(num as nat, den as nat),
    {
        proof {
            lemma2_to64();
        }
        if num == 0 {
            return Single { mantissa: 0, exponent: 0 };
        }
        if num >= MANTISSA_MIN * den {
            return Single::rounded_high(num, den);
        }
        let mut scaled_num: u128 = num;
        let mut k: u32 = 0;
        assert(num * pow2(0) == num);
        while scaled_num < MANTISSA_MIN * den
            invariant
                0 < num,
                0 < den <= 0x80_0000_0000_0000_0000_0000_0000,
                0 < scaled_num < MANTISSA_END * den,
                scaled_num == num * pow2(k as nat),
                k < 128,
                rounded_low(scaled_num as nat, den as nat, pow2(k as nat)) == rounded_low(
                    num as nat,
                    den as nat,
                    1,
                ),
            decreases MANTISSA_END * den - scaled_num,
        {
            proof {
                lemma_pow2_unfold((k + 1) as nat);
                assert(num * pow2((k + 1) as nat) == 2 * scaled_num) by (nonlinear_arith)
                    requires
                        scaled_num == num * pow2(k as nat),
                        pow2((k + 1) as nat) == 2 * pow2(k as nat),
                ;
                assert(pow2((k + 1) as nat) <= 2 * scaled_num) by (nonlinear_arith)
                    requires
                        num * pow2((k + 1) as nat) == 2 * scaled_num,
                        num >= 1,
                ;
                lemma_small_power((k + 1) as nat);
            }
            scaled_num = 2 * scaled_num;
            k = k + 1;
        }
        let m = nearest_whole(scaled_num, den);
        proof {
            lemma_nearest(scaled_num as nat, den as nat);
            assert((MANTISSA_END as nat) * (den as nat) == MANTISSA_END * den);
            assert(m <= MANTISSA_END);
            lemma_scaled_bounds(m as nat, -(k as int));
        }
        Single { mantissa: m as u32, exponent: -(k as i32) }
    }

    fn rounded_high(num: u128, den: u128) -> (r: Single)
        requires
            0 < den <= 0x80_0000_0000_0000_0000_0000_0000,
            num <= LARGEST,
        ensures
            r@ == rounded_high(num as nat, den as nat, 1),
    {
        let mut unit: u128 = den;
        let mut k: u32 = 0;
        proof {
            lemma2_to64();
            assert(den * pow2(0) == den);
        }
        while num / MANTISSA_END >= unit
            invariant
                num <= LARGEST,
                0 < den,
                0 < unit <= 0x8000_0000_0000_0000_0000_0000_0000_0000,
                unit == den * pow2(k as nat),
                k <= 104,
                rounded_high(num as nat, unit as nat, pow2(k as nat)) == rounded_high(
                    num as nat,
                    den as nat,
                    1,
                ),
            decreases num - unit,
        {
            proof {
                lemma_pow2_unfold((k + 1) as nat);
                assert(den * pow2((k + 1) as nat) == 2 * unit) by (nonlinear_arith)
                    requires
                        unit == den * pow2(k as nat),
                        pow2((k + 1) as nat) == 2 * pow2(k as nat),
                ;
                assert(num >= MANTISSA_END * unit);
                if k == 104 {
                    lemma_pow2_104();
                    assert(unit >= pow2(104)) by (nonlinear_arith)
                        requires
                            unit == den * pow2(104),
                            den >= 1,
                    ;
                }
            }
            unit = 2 * unit;
            k = k + 1;
        }
        let m = nearest_whole(num, unit);
        proof {
            assert(num < MANTISSA_END * unit);
            lemma_nearest(num as nat, unit as nat);
            assert((MANTISSA_END as nat) * (unit as nat) == MANTISSA_END * unit);
            assert(m <= MANTISSA_END);
            if k == 104 {
                lemma_pow2_104();
                assert(unit >= pow2(104)) by (nonlinear_arith)
                    requires
                        unit == den * pow2(104),
                        den >= 1,
                ;
                assert(0xff_ffffnat * (unit as nat) >= num);
                assert(m <= 0xff_ffff);
            }
            lemma_scaled_bounds(m as nat, k as int);
        }
        Single { mantissa: m as u32, exponent: k as i32 }
    }

    /// A whole number that needs no rounding.
    pub fn whole(n: u32) -> (r: Single)
        requires
            n < MANTISSA_END,
        ensures
            r@ == whole(n as nat),
    {
        proof {
            lemma2_to64();
            assert(n * pow2(0) == n);
        }
        Single { mantissa: n, exponent: 0 }
    }

    /// The conversion of an integer.
    pub fn of_int(n: u64) -> (r: Single)
        ensures
            r@ == of_int(n as nat),
    {
        Single::rounded_high(n as u128, 1)
    }

    /// The product.
    pub fn times(self, other: Single) -> (r: Single)
        requires
            0 < self@.den * other@.den <= 0x80_0000_0000_0000_0000_0000_0000,
            self@.num * other@.num <= LARGEST,
        ensures
            r@ == times(self@, other@),
    {
        proof {
            lemma_factors(self@.den, other@.den);
        }
        Single::rounded(self.num() * other.num(), self.den() * other.den())
    }

    /// The quotient.
    pub fn over(self, other: Single) -> (r: Single)
        requires
            0 < self@.den * other@.num <= 0x80_0000_0000_0000_0000_0000_0000,
            self@.num * other@.den <= LARGEST,
            other@.den <= u128::MAX,
        ensures
            r@ == over(self@, other@),
    {
        proof {
            lemma_factors(self@.den, other@.num);
        }
        Single::rounded(self.num() * other.den(), self.den() * other.num())
    }

    /// The sum.
    pub fn plus(self, other: Single) -> (r: Single)
        requires
            0 < self@.den * other@.den <= 0x80_0000_0000_0000_0000_0000_0000,
            self@.num * other@.den + other@.num * self@.den <= LARGEST,
        ensures
            r@ == plus(self@, other@),
    {
        proof {
            lemma_factors(self@.den, other@.den);
        }
        Single::rounded(
            self.num() * other.den() + other.num() * self.den(),
            self.den() * other.den(),
        )
    }

    /// The comparison.
    pub fn less(self, other: Single) -> (r: bool)
        ensures
            r == less(self@, other@),
    {
        proof {
            use_type_invariant(&self);
            use_type_invariant(&other);
        }
        let (a, b) = (self.mantissa as u128, other.mantissa as u128);
        if self.exponent >= other.exponent {
            let d: u32 = (self.exponent - other.exponent) as u32;
            proof {
                lemma_less_scaled(
                    a as nat,
                    self.exponent as int,
                    b as nat,
                    other.exponent as int,
                );
                lemma_far(a as nat, b as nat, d as nat);
            }
            if d >= 64 {
                a == 0 && b > 0
            } else {
                proof {
                    lemma_near(a as nat, d as nat);
                }
                a * power(d) < b
            }
        } else {
            let d: u32 = (other.exponent - self.exponent) as u32;
            proof {
                lemma_less_scaled(
                    a as nat,
                    self.exponent as int,
                    b as nat,
                    other.exponent as int,
                );
                lemma_far(b as nat, a as nat, d as nat);
            }
            if d >= 64 {
                b > 0
            } else {
                proof {
                    lemma_near(b as nat, d as nat);
                }
                a < b * power(d)
            }
        }
    }

    /// Whether the value is zero.
    pub fn is_zero(self) -> (r: bool)
        ensures
            r == (self@.num == 0),
    {
        self.num() == 0
    }

    /// The smallest whole number that is not below the value.
    pub fn ceiling(self) -> (r: u128)
        ensures
            r == ceiling(self@),
    {
        proof {
            use_type_invariant(&self);
        }
        if self.exponent >= 0 {
            let n = self.num();
            assert((n + 1 - 1) / 1 == n);
            return n;
        }
        if self.exponent < -64 {
            proof {
                lemma_steep((-self.exponent) as nat);
                let d = self@.den as int;
                let n = self@.num + d - 1;
                if self.mantissa == 0 {
                    assert(n / d == 0) by (nonlinear_arith)
                        requires
                            n == d - 1,
                            d > 0,
                    ;
                } else {
                    assert(n / d == 1) by (nonlinear_arith)
                        requires
                            d <= n < 2 * d,
                            d > 0,
                    ;
                }
            }
            return if self.mantissa == 0 {
                0
            } else {
                1
            };
        }
        let k: u32 = (-self.exponent) as u32;
        proof {
            lemma_near(1, k as nat);
        }
        let den = power(k);
        (self.mantissa as u128 + (den - 1)) / den
    }

    /// The largest whole number that is not above the value.
    pub fn floor(self) -> (r: u128)
        ensures
            r == floor(self@),
    {
        proof {
            use_type_invariant(&self);
        }
        if self.exponent >= 0 {
            let n = self.num();
            assert(n / 1 == n);
            return n;
        }
        if self.exponent < -64 {
            proof {
                lemma_steep((-self.exponent) as nat);
                let d = self@.den;
                let n = self@.num;
                assert(n / d == 0) by (nonlinear_arith)
                    requires
                        n < d,
                ;
            }
            return 0;
        }
        let k: u32 = (-self.exponent) as u32;
        proof {
            lemma_near(1, k as nat);
        }
        self.mantissa as u128 / power(k)
    }

    /// The value in hundredths, rounded for display.
    pub fn hundredths(self) -> (r: u128)
        requires
            100 * self@.num <= u128::MAX,
        ensures
            r == hundredths(self@),
    {
        proof {
            use_type_invariant(&self);
        }
        if self.exponent < -64 {
            proof {
                lemma_steep((-self.exponent) as nat);
                let d = self@.den;
                let n = 100 * self@.num;
                assert(n / d == 0 && n % d == n) by (nonlinear_arith)
                    requires
                        n < d,
                ;
            }
            return 0;
        }
        if self.exponent >= 0 {
            return nearest_whole(100 * self.num(), 1);
        }
        let k: u32 = (-self.exponent) as u32;
        proof {
            lemma_near(1, k as nat);
        }
        nearest_whole(100 * self.mantissa as u128, power(k))
    }
}

/// Every single-precision number has a value that such a number can have.
pub proof fn lemma_single(s: Single)
    requires
        s.wf(),
    ensures
        is_single(s@),
{
    if s.exponent < 0 {
        lemma_pow2_pos((-s.exponent) as nat);
    }
}

/// The mantissa and the exponent of a number.
pub proof fn lemma_single_parts(s: Single) -> (r: (nat, int))
    requires
        s.wf(),
    ensures
        r.0 <= MANTISSA_END,
        s@ == scaled(r.0, r.1),
{
    (s.mantissa as nat, s.exponent as int)
}

proof fn lemma_pow2_104()
    ensures
        pow2(104) == 0x100_0000_0000_0000_0000_0000_0000,
{
    lemma2_to64();
    lemma2_to64_rest();
    lemma_pow2_adds(64, 40);
    assert(0x1_0000_0000_0000_0000 * 0x100_0000_0000
        == 0x100_0000_0000_0000_0000_0000_0000);
}

/// A power of two that fits in `u128` has an exponent below 128.
proof fn lemma_small_power(k: nat)
    requires
        pow2(k) <= u128::MAX,
    ensures
        k < 128,
{
    lemma2_to64();
    lemma_pow2_adds(64, 64);
    assert(0x1_0000_0000_0000_0000 * 0x1_0000_0000_0000_0000
        == 0x1_0000_0000_0000_0000_0000_0000_0000_0000);
    if k > 128 {
        lemma_pow2_strictly_increases(128, k);
    }
}

/// Up to the exponent 103 every mantissa is in range, and at 104 every one of 24 bits.
proof fn lemma_scaled_bounds(mantissa: nat, exponent: int)
    requires
        mantissa <= MANTISSA_END,
        exponent <= 103 || (exponent == 104 && mantissa < MANTISSA_END),
    ensures
        scaled(mantissa, exponent).num <= LARGEST,
{
    if exponent >= 0 {
        lemma_pow2_104();
        let p = pow2(exponent as nat);
        if exponent <= 103 {
            lemma_pow2_unfold(104);
            if exponent < 103 {
                lemma_pow2_strictly_increases(exponent as nat, 103);
            }
            assert(mantissa * p <= 0x100_0000 * 0x80_0000_0000_0000_0000_0000_0000)
                by (nonlinear_arith)
                requires
                    mantissa <= 0x100_0000,
                    p <= 0x80_0000_0000_0000_0000_0000_0000,
                    p >= 0,
            ;
        } else {
            assert(mantissa * p <= 0xff_ffff * 0x100_0000_0000_0000_0000_0000_0000)
                by (nonlinear_arith)
                requires
                    mantissa <= 0xff_ffff,
                    p == 0x100_0000_0000_0000_0000_0000_0000,
            ;
        }
    }
}

proof fn lemma_factors(a: nat, b: nat)
    requires
        0 < a * b <= u128::MAX,
    ensures
        0 < a <= u128::MAX,
        0 < b <= u128::MAX,
{
    assert(0 < a <= a * b && 0 < b <= a * b) by (nonlinear_arith)
        requires
            a * b > 0,
            a >= 0,
            b >= 0,
    ;
}

/// Two values compare as their mantissas do at the smaller exponent.
proof fn lemma_less_scaled(a: nat, x: int, b: nat, y: int)
    ensures
        x >= y ==> less(scaled(a, x), scaled(b, y)) == (a * pow2((x - y) as nat) < b),
        x <= y ==> less(scaled(a, x), scaled(b, y)) == (a < b * pow2((y - x) as nat)),
{
    let p = ((if x >= 0 {
        x
    } else {
        0
    }) + (if y < 0 {
        -y
    } else {
        0
    })) as nat;
    let q = ((if y >= 0 {
        y
    } else {
        0
    }) + (if x < 0 {
        -x
    } else {
        0
    })) as nat;
    assert(p - q == x - y);
    lemma2_to64();
    lemma_cross(a, x, y);
    lemma_cross(b, y, x);
    let (f, g) = (pow2(p) as int, pow2(q) as int);
    if x >= y {
        let d = (x - y) as nat;
        lemma_pow2_adds(q, d);
        lemma_pow2_pos(q);
        let e = pow2(d) as int;
        assert((a * f < b * g) == (a * e < b)) by (nonlinear_arith)
            requires
                f == g * e,
                g > 0,
        ;
    }
    if x <= y {
        let d = (y - x) as nat;
        lemma_pow2_adds(p, d);
        lemma_pow2_pos(p);
        let e = pow2(d) as int;
        assert((a * f < b * g) == (a < b * e)) by (nonlinear_arith)
            requires
                g == f * e,
                f > 0,
        ;
    }
}

/// One side of a comparison: the numerator of one value times the denominator of another.
proof fn lemma_cross(a: nat, x: int, y: int)
    ensures
        forall|b: nat|
            scaled(a, x).num * (#[trigger] scaled(b, y)).den == a * pow2(
                ((if x >= 0 {
                    x
                } else {
                    0
                }) + (if y < 0 {
                    -y
                } else {
                    0
                })) as nat,
            ),
{
    lemma2_to64();
    if x >= 0 && y < 0 {
        lemma_pow2_adds(x as nat, (-y) as nat);
        let (f, g) = (pow2(x as nat), pow2((-y) as nat));
        assert((a * f) * g == a * (f * g)) by (nonlinear_arith);
    } else {
        assert(a * 1 == a);
        if x >= 0 {
            let f = a * pow2(x as nat);
            assert(f * 1 == f);
        }
    }
}

/// At a distance of 64 exponents the mantissas no longer matter.
proof fn lemma_far(a: nat, b: nat, d: nat)
    requires
        b <= MANTISSA_END,
    ensures
        d >= 64 ==> (a * pow2(d) < b <==> a == 0 && b > 0),
        d >= 64 ==> (b < a * pow2(d) <==> a > 0),
{
    if d >= 64 {
        lemma2_to64();
        if d > 64 {
            lemma_pow2_strictly_increases(64, d);
        }
        let p = pow2(d);
        if a > 0 {
            assert(a * p >= p) by (nonlinear_arith)
                requires
                    a >= 1,
                    p >= 0,
            ;
        } else {
            assert(a * p == 0) by (nonlinear_arith)
                requires
                    a == 0,
            ;
        }
    }
}

/// At a smaller distance they are compared in `u128`.
proof fn lemma_near(a: nat, d: nat)
    requires
        a <= MANTISSA_END,
        d <= 64,
    ensures
        0 < pow2(d) <= 0x1_0000_0000_0000_0000,
        a * pow2(d) <= u128::MAX,
{
    lemma2_to64();
    lemma_pow2_pos(d);
    if d < 64 {
        lemma_pow2_strictly_increases(d, 64);
    }
    let p = pow2(d);
    assert(a * p <= 0x100_0000 * 0x1_0000_0000_0000_0000) by (nonlinear_arith)
        requires
            a <= 0x100_0000,
            p <= 0x1_0000_0000_0000_0000,
            p >= 0,
    ;
}

/// Below the exponent -64 a value is less than a part of a hundredth.
proof fn lemma_steep(k: nat)
    requires
        k > 64,
    ensures
        pow2(k) > 0x1_0000_0000_0000_0000,
{
    lemma2_to64();
    lemma_pow2_strictly_increases(64, k);
}

} // verus!
