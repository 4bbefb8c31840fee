//! Time spans, and the speed at which bytes arrive.

use crate::closeness::{
    close, lemma_close_more, lemma_of_int_close, lemma_over_close, lemma_plus_close,
};
use crate::rounding::{law_rounding_keeps_whole_bounds, law_whole_parts};
use crate::single::{
    floor, lemma_of_int_bounds, lemma_rounded_bounds, of_int, over, plus, rounded, whole, Ratio,
    Single, MANTISSA_END, MANTISSA_MIN,
};
use vstd::prelude::*;

verus! {

/// A span of time: whole seconds, and the nanoseconds beyond them.
#[derive(Clone, Copy, PartialEq, Eq, Debug)]
pub struct Elapsed {
    pub secs: u64,
    pub nanos: u32,
}

impl Elapsed {
    /// The nanoseconds make less than a second.
    pub open spec fn wf(self) -> bool {
        self.nanos < 1_000_000_000
    }

    /// The span in seconds, in single precision: the fraction of a second is rounded
    /// before it is added to the whole seconds.
    pub open spec fn in_seconds(self) -> Ratio {
        plus(of_int(self.secs as nat), over(of_int(self.nanos as nat), of_int(1_000_000_000)))
    }

    /// The span in seconds.
    pub fn seconds(self) -> (r: Single)
        requires
            self.wf(),
        ensures
            r@ == self.in_seconds(),
    {
        proof {
            lemma_fraction_bounds(self.nanos as nat);
            lemma_of_int_bounds(self.secs as nat);
            lemma_of_int_bounds(self.nanos as nat);
            lemma_of_int_bounds(1_000_000_000);
        }
        let fraction = Single::of_int(self.nanos as u64).over(Single::of_int(1_000_000_000));
        let whole_secs = Single::of_int(self.secs);
        proof {
            let s = whole_secs@;
            let f = fraction@;
            assert(s.num * f.den <= 0x2_0000_0000_0000_0000 * 0x80_0000_0000_0000)
                by (nonlinear_arith)
                requires
                    s.num <= 0x2_0000_0000_0000_0000,
                    f.den <= 0x80_0000_0000_0000,
                    s.num >= 0,
                    f.den >= 0,
            ;
        }
        whole_secs.plus(fraction)
    }
}

proof fn lemma_fraction_bounds(nanos: nat)
    requires
        nanos < 1_000_000_000,
    ensures
        over(of_int(nanos), of_int(1_000_000_000)).num <= MANTISSA_END,
        0 < over(of_int(nanos), of_int(1_000_000_000)).den <= 0x80_0000_0000_0000,
        nanos > 0 ==> over(of_int(nanos), of_int(1_000_000_000)).num >= MANTISSA_MIN,
        nanos == 0 ==> over(of_int(nanos), of_int(1_000_000_000)) == whole(0),
{
    lemma_of_int_bounds(nanos);
    lemma_of_int_bounds(1_000_000_000);
    let n = of_int(nanos).num;
    let d = of_int(1_000_000_000).num;
    assert(of_int(nanos).num * 1 == n && 1 * d == d);
    lemma_rounded_bounds(n, d);
    let r = over(of_int(nanos), of_int(1_000_000_000));
    if nanos > 0 {
        assert(r.den <= r.den * n) by (nonlinear_arith)
            requires
                n >= 1,
                r.den >= 0,
        ;
    } else {
        assert(of_int(0) == whole(0));
    }
}

/// A span in seconds has parts of a moderate size, and is zero only where the span is.
pub proof fn lemma_seconds_bounds(e: Elapsed)
    requires
        e.wf(),
    ensures
        0 < e.in_seconds().den <= 0x100_0000_0000_0000,
        e.in_seconds().num <= 0x10_0000_0000_0000_0000,
        e.in_seconds().num == 0 <==> e.secs == 0 && e.nanos == 0,
{
    lemma_of_int_bounds(e.secs as nat);
    lemma_fraction_bounds(e.nanos as nat);
    let s = of_int(e.secs as nat);
    let f = over(of_int(e.nanos as nat), of_int(1_000_000_000));
    let n = s.num * f.den + f.num * s.den;
    let d = s.den * f.den;
    assert(f.num * s.den == f.num);
    assert(d == f.den);
    let r = e.in_seconds();
    lemma_rounded_bounds(n, d);
    if e.secs == 0 {
        assert(of_int(0) == whole(0)) by {
            lemma_of_int_bounds(0);
        }
        assert(s.num * f.den == 0) by (nonlinear_arith)
            requires
                s.num == 0,
        ;
    } else {
        assert(s.num * f.den >= f.den) by (nonlinear_arith)
            requires
                s.num >= 1,
                f.den >= 0,
        ;
    }
    if n == 0 {
    } else if n >= MANTISSA_MIN * d {
        assert(r.num <= 2 * s.num + 2 * f.num) by (nonlinear_arith)
            requires
                r.num * d <= 2 * n,
                n == s.num * d + f.num,
                d >= 1,
                f.num >= 0,
        ;
    } else if e.secs == 0 {
        assert(r.den <= 2 * d) by (nonlinear_arith)
            requires
                r.den * n <= MANTISSA_END * d,
                n >= MANTISSA_MIN,
                r.den >= 0,
        ;
    } else {
        assert(r.den <= MANTISSA_END) by (nonlinear_arith)
            requires
                r.den * n <= MANTISSA_END * d,
                n >= d,
                d >= 1,
                r.den >= 0,
        ;
    }
}

/// Bytes per second as a single-precision number, where the span is not zero.
pub open spec fn exact_rate(bytes: nat, span: Elapsed) -> Ratio {
    over(of_int(bytes), span.in_seconds())
}

/// Whole bytes per second. A rate beyond `usize` is cut to its maximum, which is
/// also what any number of bytes in no time makes.
pub open spec fn whole_rate(bytes: nat, span: Elapsed) -> nat {
    if span.in_seconds().num == 0 {
        if bytes == 0 {
            0
        } else {
            usize::MAX as nat
        }
    } else if floor(exact_rate(bytes, span)) > usize::MAX {
        usize::MAX as nat
    } else {
        floor(exact_rate(bytes, span))
    }
}

/// The two sides of a rate have a moderate size.
pub proof fn lemma_rate_bounds(bytes: nat, span: Elapsed)
    requires
        bytes <= u64::MAX,
        span.wf(),
        span.in_seconds().num > 0,
    ensures
        of_int(bytes).num * span.in_seconds().den
            <= 0x200_0000_0000_0000_0000_0000_0000_0000,
        0 < of_int(bytes).den * span.in_seconds().num <= 0x10_0000_0000_0000_0000,
{
    lemma_of_int_bounds(bytes);
    lemma_seconds_bounds(span);
    let b = of_int(bytes);
    let s = span.in_seconds();
    assert(b.num * s.den <= 0x2_0000_0000_0000_0000 * 0x100_0000_0000_0000) by (nonlinear_arith)
        requires
            b.num <= 0x2_0000_0000_0000_0000,
            s.den <= 0x100_0000_0000_0000,
            b.num >= 0,
            s.den >= 0,
    ;
    assert(b.den * s.num == s.num);
}

/// The speed at which `bytes` bytes arrived.
pub fn rate(bytes: usize, span: Elapsed) -> (r: usize)
    requires
        span.wf(),
    ensures
        r == whole_rate(bytes as nat, span),
{
    let secs = span.seconds();
    if secs.is_zero() {
        if bytes == 0 {
            return 0;
        }
        return usize::MAX;
    }
    proof {
        lemma_rate_bounds(bytes as nat, span);
        lemma_seconds_bounds(span);
    }
    let r = Single::of_int(bytes as u64).over(secs).floor();
    if r > usize::MAX as u128 {
        usize::MAX
    } else {
        r as usize
    }
}

/// A span in seconds is close to the whole seconds and the nanoseconds beyond them.
pub proof fn law_seconds_are_close(span: Elapsed)
    requires
        span.wf(),
    ensures
        close(
            span.in_seconds(),
            (span.secs * 1_000_000_000 + span.nanos) as nat,
            1_000_000_000,
            8,
        ),
{
    let (s, n) = (span.secs as nat, span.nanos as nat);
    lemma_of_int_close(s);
    lemma_of_int_close(n);
    lemma_of_int_close(1_000_000_000);
    lemma_over_close(of_int(n), n, 1, 1, of_int(1_000_000_000), 1_000_000_000, 1, 1);
    lemma_close_more(of_int(s), s, 1, 1, 6);
    lemma_plus_close(
        of_int(s),
        s,
        1,
        over(of_int(n), of_int(1_000_000_000)),
        n,
        1_000_000_000,
        6,
    );
}

/// Whole seconds of at most 24 bits are exact.
pub proof fn law_whole_seconds_are_exact(span: Elapsed)
    requires
        span.nanos == 0,
        span.secs < 0x100_0000,
    ensures
        span.in_seconds().den > 0,
        span.in_seconds().num == span.secs * span.in_seconds().den,
{
    let s = span.secs as nat;
    lemma_of_int_bounds(s);
    lemma_fraction_bounds(0);
    assert(plus(whole(s), whole(0)) == rounded(s, 1)) by {
        assert(s * 1 + 0 * 1 == s);
    }
    law_rounding_keeps_whole_bounds(s, 1, s);
}

/// A rate is close to the bytes divided by the time.
pub proof fn law_rate_is_close(bytes: nat, span: Elapsed)
    requires
        span.wf(),
        span.secs > 0 || span.nanos > 0,
    ensures
        close(
            exact_rate(bytes, span),
            bytes * 1_000_000_000,
            (span.secs * 1_000_000_000 + span.nanos) as nat,
            20,
        ),
{
    let t = (span.secs * 1_000_000_000 + span.nanos) as nat;
    lemma_of_int_close(bytes);
    law_seconds_are_close(span);
    lemma_over_close(of_int(bytes), bytes, 1, 1, span.in_seconds(), t, 1_000_000_000, 8);
}

/// A rate in whole bytes is what fits of it, cut to the largest `usize`. In no time nothing
/// comes at no rate, and anything at the largest.
pub proof fn law_rate_in_whole_bytes(bytes: nat, span: Elapsed)
    requires
        span.wf(),
    ensures
        whole_rate(bytes, span) <= usize::MAX,
        span.secs == 0 && span.nanos == 0 ==> whole_rate(bytes, span) == if bytes == 0 {
            0
        } else {
            usize::MAX as nat
        },
        span.secs > 0 || span.nanos > 0 ==> {
            let rate = exact_rate(bytes, span);
            let n = whole_rate(bytes, span);
            &&& n * rate.den <= rate.num
            &&& n < usize::MAX ==> rate.num < (n + 1) * rate.den
        },
{
    lemma_seconds_bounds(span);
    if span.secs > 0 || span.nanos > 0 {
        law_rate_is_close(bytes, span);
        let rate = exact_rate(bytes, span);
        law_whole_parts(rate);
        let (f, n) = (floor(rate), whole_rate(bytes, span));
        assert(n * rate.den <= f * rate.den) by (nonlinear_arith)
            requires
                n <= f,
        ;
    }
}

} // verus!
