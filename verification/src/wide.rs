//! Exact unsigned arithmetic on 256-bit values held as two 128-bit halves,
//! used where a comparison of products must not lose precision.
use vstd::prelude::*;

verus! {

pub open spec fn half_base() -> int {
    0x1_0000_0000_0000_0000int
}

pub open spec fn base() -> int {
    0x1_0000_0000_0000_0000_0000_0000_0000_0000int
}

/// A 256-bit unsigned value `hi * 2^128 + lo`.
#[derive(Clone, Copy, Debug)]
pub struct Wide {
    pub hi: u128,
    pub lo: u128,
}

impl Wide {
    pub open spec fn value(self) -> int {
        self.hi * base() + self.lo
    }
}

proof fn lemma_split(p: int)
    requires
        0 <= p,
    ensures
        p == (p / half_base()) * half_base() + p % half_base(),
        0 <= p % half_base() < half_base(),
{
}

/// The exact product of two 128-bit values.
pub fn mul_wide(a: u128, b: u128) -> (r: Wide)
    ensures
        r.value() == a * b,
{
    let hb: u128 = 0x1_0000_0000_0000_0000;
    let a1 = a / hb;
    let a0 = a % hb;
    let b1 = b / hb;
    let b0 = b % hb;
    assert(a1 < hb && b1 < hb);
    assert(a0 * b0 < hb * hb) by (nonlinear_arith)
        requires
            a0 < hb,
            b0 < hb,
    ;
    assert(a0 * b1 < hb * hb) by (nonlinear_arith)
        requires
            a0 < hb,
            b1 < hb,
    ;
    assert(a1 * b0 < hb * hb) by (nonlinear_arith)
        requires
            a1 < hb,
            b0 < hb,
    ;
    assert(a1 * b1 <= (hb - 1) * (hb - 1)) by (nonlinear_arith)
        requires
            a1 < hb,
            b1 < hb,
    ;
    let p00 = a0 * b0;
    let p01 = a0 * b1;
    let p10 = a1 * b0;
    let p11 = a1 * b1;
    let h00 = p00 / hb;
    let l00 = p00 % hb;
    let h01 = p01 / hb;
    let l01 = p01 % hb;
    let h10 = p10 / hb;
    let l10 = p10 % hb;
    assert(h01 <= hb - 2 && h10 <= hb - 2) by (nonlinear_arith)
        requires
            p01 < hb * hb,
            p10 < hb * hb,
            h01 == p01 / hb,
            h10 == p10 / hb,
            a0 < hb,
            b1 < hb,
            a1 < hb,
            b0 < hb,
            p01 == a0 * b1,
            p10 == a1 * b0,
            hb == 0x1_0000_0000_0000_0000u128,
    ;
    let mid = h00 + l01 + l10;
    let lo = l00 + (mid % hb) * hb;
    let hi = p11 + h01 + h10 + mid / hb;
    proof {
        let bh = half_base();
        lemma_split(a as int);
        lemma_split(b as int);
        lemma_split(p00 as int);
        lemma_split(p01 as int);
        lemma_split(p10 as int);
        lemma_split(mid as int);
        assert(a * b == p11 * (bh * bh) + (p01 + p10) * bh + p00) by (nonlinear_arith)
            requires
                a == a1 * bh + a0,
                b == b1 * bh + b0,
                p00 == a0 * b0,
                p01 == a0 * b1,
                p10 == a1 * b0,
                p11 == a1 * b1,
        ;
        assert(a * b == (p11 + h01 + h10 + (mid as int) / bh) * (bh * bh) + ((mid as int) % bh) * bh + l00)
            by (nonlinear_arith)
            requires
                a * b == p11 * (bh * bh) + (p01 + p10) * bh + p00,
                p00 == h00 * bh + l00,
                p01 == h01 * bh + l01,
                p10 == h10 * bh + l10,
                mid == h00 + l01 + l10,
                mid == ((mid as int) / bh) * bh + (mid as int) % bh,
        ;
        assert(bh * bh == base());
    }
    Wide { hi, lo }
}

/// `a < b` on 256-bit values.
pub fn wide_lt(a: Wide, b: Wide) -> (r: bool)
    ensures
        r == (a.value() < b.value()),
{
    proof {
        assert(a.hi < b.hi ==> a.value() < b.value()) by (nonlinear_arith)
            requires
                a.lo < base(),
                b.lo >= 0,
                a.value() == a.hi * base() + a.lo,
                b.value() == b.hi * base() + b.lo,
        ;
        assert(a.hi > b.hi ==> a.value() > b.value()) by (nonlinear_arith)
            requires
                b.lo < base(),
                a.lo >= 0,
                a.value() == a.hi * base() + a.lo,
                b.value() == b.hi * base() + b.lo,
        ;
    }
    a.hi < b.hi || (a.hi == b.hi && a.lo < b.lo)
}

/// `a - b` on 256-bit values, for `a >= b`.
pub fn wide_sub(a: Wide, b: Wide) -> (r: Wide)
    requires
        a.value() >= b.value(),
    ensures
        r.value() == a.value() - b.value(),
{
    proof {
        assert(a.hi >= b.hi) by (nonlinear_arith)
            requires
                a.value() >= b.value(),
                a.lo < base(),
                b.lo >= 0,
                a.value() == a.hi * base() + a.lo,
                b.value() == b.hi * base() + b.lo,
        ;
    }
    if a.lo >= b.lo {
        Wide { hi: a.hi - b.hi, lo: a.lo - b.lo }
    } else {
        proof {
            assert(a.hi > b.hi) by (nonlinear_arith)
                requires
                    a.value() >= b.value(),
                    a.lo < b.lo,
                    a.hi >= b.hi,
                    a.value() == a.hi * base() + a.lo,
                    b.value() == b.hi * base() + b.lo,
            ;
        }
        let r = Wide { hi: a.hi - b.hi - 1, lo: (u128::MAX - b.lo) + a.lo + 1 };
        assert(r.value() == a.value() - b.value()) by (nonlinear_arith)
            requires
                r.hi == a.hi - b.hi - 1,
                r.lo == base() - b.lo + a.lo,
                a.value() == a.hi * base() + a.lo,
                b.value() == b.hi * base() + b.lo,
                r.value() == r.hi * base() + r.lo,
        ;
        r
    }
}

} // verus!
