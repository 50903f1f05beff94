use vstd::prelude::*;
use vstd::arithmetic::div_mod::lemma_fundamental_div_mod;
use vstd::arithmetic::div_mod::lemma_fundamental_div_mod_converse;

verus! {

/// The integer a pair of 128-bit limbs stands for: `hi * 2^128 + lo`.
///
/// Squared deviations of fixed-point values overflow a single machine
/// word, so the standard-deviation path carries them in two limbs.
pub open spec fn wide_val(hi: u128, lo: u128) -> int {
    hi * 0x100000000000000000000000000000000 + lo
}

/// Limb-wise comparison agrees with the value the limbs stand for.
pub proof fn lemma_wide_cmp(ah: u128, al: u128, bh: u128, bl: u128)
    ensures
        (wide_val(ah, al) <= wide_val(bh, bl)) <==> (ah < bh || (ah == bh && al <= bl)),
{
    if ah < bh {
        assert((ah as int + 1) * 0x100000000000000000000000000000000 <= (
        bh as int) * 0x100000000000000000000000000000000);
    }
    if bh < ah {
        assert((bh as int + 1) * 0x100000000000000000000000000000000 <= (
        ah as int) * 0x100000000000000000000000000000000);
    }
}

/// Squares a magnitude below `2^96` into two limbs.
pub fn square_wide(d: u128) -> (r: (u128, u128))
    requires
        (d as int) < 0x1000000000000000000000000,
    ensures
        wide_val(r.0, r.1) == (d as int) * (d as int),
{
    let a: u128 = d / 0x10000000000000000;
    let b: u128 = d % 0x10000000000000000;
    proof {
        lemma_fundamental_div_mod(d as int, 0x10000000000000000);
        assert((a as int) < 0x100000000) by (nonlinear_arith)
            requires
                (d as int) < 0x1000000000000000000000000,
                a == d / 0x10000000000000000,
        ;
        assert((2 * (a as int)) * (b as int) < 0x2000000000000000000000000)
            by (nonlinear_arith)
            requires
                (a as int) < 0x100000000,
                (b as int) < 0x10000000000000000,
        ;
        assert((b as int) * (b as int) < 0x100000000000000000000000000000000 - 1)
            by (nonlinear_arith)
            requires
                (b as int) < 0x10000000000000000,
        ;
        assert((a as int) * (a as int) < 0x10000000000000000) by (nonlinear_arith)
            requires
                (a as int) < 0x100000000,
        ;
    }
    let cross: u128 = 2 * a * b;
    let ch: u128 = cross / 0x10000000000000000;
    let cl: u128 = cross % 0x10000000000000000;
    let bsq: u128 = b * b;
    let asq: u128 = a * a;
    proof {
        assert((cl as int) * 0x10000000000000000 < 0x100000000000000000000000000000000)
            by (nonlinear_arith)
            requires
                (cl as int) < 0x10000000000000000,
        ;
    }
    let cl_shift: u128 = cl * 0x10000000000000000;
    let lo: u128;
    let carry: u128;
    if bsq <= u128::MAX - cl_shift {
        lo = bsq + cl_shift;
        carry = 0;
    } else {
        lo = bsq - (u128::MAX - cl_shift) - 1;
        carry = 1;
    }
    let hi: u128 = asq + ch + carry;
    proof {
        lemma_fundamental_div_mod(cross as int, 0x10000000000000000);
        assert((d as int) * (d as int) == (asq as int) * 0x100000000000000000000000000000000 + (
        cross as int) * 0x10000000000000000 + (bsq as int)) by (nonlinear_arith)
            requires
                (d as int) == (a as int) * 0x10000000000000000 + (b as int),
                (asq as int) == (a as int) * (a as int),
                (bsq as int) == (b as int) * (b as int),
                (cross as int) == 2 * (a as int) * (b as int),
        ;
        assert((cross as int) * 0x10000000000000000 == (ch as int)
            * 0x100000000000000000000000000000000 + (cl as int) * 0x10000000000000000)
            by (nonlinear_arith)
            requires
                (cross as int) == 0x10000000000000000 * (ch as int) + (cl as int),
        ;
        assert((lo as int) + (carry as int) * 0x100000000000000000000000000000000 == (bsq as int)
            + (cl_shift as int));
    }
    (hi, lo)
}

/// Adds two wide values; the caller keeps the sum under `2^255` by
/// bounding the high limbs.
pub fn add_wide(ah: u128, al: u128, bh: u128, bl: u128) -> (r: (u128, u128))
    requires
        (ah as int) + (bh as int) + 1 < 0x100000000000000000000000000000000,
    ensures
        wide_val(r.0, r.1) == wide_val(ah, al) + wide_val(bh, bl),
{
    let lo: u128;
    let c: u128;
    if al <= u128::MAX - bl {
        lo = al + bl;
        c = 0;
    } else {
        lo = al - (u128::MAX - bl) - 1;
        c = 1;
    }
    let hi: u128 = ah + bh + c;
    proof {
        assert((lo as int) + (c as int) * 0x100000000000000000000000000000000 == (al as int) + (
        bl as int));
    }
    (hi, lo)
}

/// Divides a wide value whose high limb fits 64 bits by a 64-bit
/// divisor, by schoolbook long division over 64-bit limbs.
pub fn div_wide(hi: u128, lo: u128, n: u128) -> (r: (u128, u128))
    requires
        1 <= n,
        (n as int) < 0x10000000000000000,
        (hi as int) < 0x10000000000000000,
    ensures
        wide_val(r.0, r.1) == wide_val(hi, lo) / (n as int),
{
    let x1: u128 = lo / 0x10000000000000000;
    let x0: u128 = lo % 0x10000000000000000;
    let q2: u128 = hi / n;
    let r2: u128 = hi % n;
    proof {
        lemma_fundamental_div_mod(lo as int, 0x10000000000000000);
        lemma_fundamental_div_mod(hi as int, n as int);
        assert((r2 as int) * 0x10000000000000000 < 0x100000000000000000000000000000000
            - 0x10000000000000000) by (nonlinear_arith)
            requires
                (r2 as int) < 0x10000000000000000 - 1,
        ;
        assert((x1 as int) < 0x10000000000000000) by (nonlinear_arith)
            requires
                (lo as int) < 0x100000000000000000000000000000000,
                x1 == lo / 0x10000000000000000,
        ;
    }
    let t1: u128 = r2 * 0x10000000000000000 + x1;
    let q1: u128 = t1 / n;
    let r1: u128 = t1 % n;
    proof {
        lemma_fundamental_div_mod(t1 as int, n as int);
        assert((r1 as int) * 0x10000000000000000 < 0x100000000000000000000000000000000
            - 0x10000000000000000) by (nonlinear_arith)
            requires
                (r1 as int) < 0x10000000000000000 - 1,
        ;
    }
    let t0: u128 = r1 * 0x10000000000000000 + x0;
    let q0: u128 = t0 / n;
    let r0: u128 = t0 % n;
    proof {
        lemma_fundamental_div_mod(t0 as int, n as int);
        assert((q1 as int) < 0x10000000000000000) by (nonlinear_arith)
            requires
                (t1 as int) < (n as int) * 0x10000000000000000,
                1 <= (n as int),
                q1 == (t1 as int) / (n as int),
        ;
        assert((t1 as int) < (n as int) * 0x10000000000000000) by (nonlinear_arith)
            requires
                (r2 as int) < (n as int),
                (x1 as int) < 0x10000000000000000,
                (t1 as int) == (r2 as int) * 0x10000000000000000 + (x1 as int),
                1 <= (n as int),
        ;
        assert((t0 as int) < (n as int) * 0x10000000000000000) by (nonlinear_arith)
            requires
                (r1 as int) < (n as int),
                (x0 as int) < 0x10000000000000000,
                (t0 as int) == (r1 as int) * 0x10000000000000000 + (x0 as int),
                1 <= (n as int),
        ;
        assert((q0 as int) < 0x10000000000000000) by (nonlinear_arith)
            requires
                (t0 as int) < (n as int) * 0x10000000000000000,
                1 <= (n as int),
                q0 == (t0 as int) / (n as int),
        ;
        assert((q1 as int) * 0x10000000000000000 + (q0 as int)
            < 0x100000000000000000000000000000000) by (nonlinear_arith)
            requires
                (q1 as int) < 0x10000000000000000,
                (q0 as int) < 0x10000000000000000,
        ;
    }
    let ql: u128 = q1 * 0x10000000000000000 + q0;
    let qh: u128 = q2;
    proof {
        let x = wide_val(hi, lo);
        let q = (qh as int) * 0x100000000000000000000000000000000 + (ql as int);
        assert(x == q * (n as int) + (r0 as int)) by (nonlinear_arith)
            requires
                x == (hi as int) * 0x100000000000000000000000000000000 + (lo as int),
                (lo as int) == 0x10000000000000000 * (x1 as int) + (x0 as int),
                (hi as int) == (n as int) * (q2 as int) + (r2 as int),
                (t1 as int) == (r2 as int) * 0x10000000000000000 + (x1 as int),
                (t1 as int) == (n as int) * (q1 as int) + (r1 as int),
                (t0 as int) == (r1 as int) * 0x10000000000000000 + (x0 as int),
                (t0 as int) == (n as int) * (q0 as int) + (r0 as int),
                q == (q2 as int) * 0x100000000000000000000000000000000 + (q1 as int)
                    * 0x10000000000000000 + (q0 as int),
                qh == q2,
                (ql as int) == (q1 as int) * 0x10000000000000000 + (q0 as int),
        ;
        lemma_fundamental_div_mod_converse(x, n as int, q, r0 as int);
    }
    (qh, ql)
}

/// Bracketing squares determine the integer square root uniquely, so a
/// contract stating them pins the result down.
pub proof fn lemma_isqrt_unique(v: int, a: int, b: int)
    requires
        0 <= a,
        0 <= b,
        a * a <= v,
        v < (a + 1) * (a + 1),
        b * b <= v,
        v < (b + 1) * (b + 1),
    ensures
        a == b,
{
    assert(a == b) by (nonlinear_arith)
        requires
            0 <= a,
            0 <= b,
            a * a <= v,
            v < (a + 1) * (a + 1),
            b * b <= v,
            v < (b + 1) * (b + 1),
    ;
}

/// Integer square root of a wide value below `2^170`: the greatest `r`
/// with `r * r <= v`.
pub fn isqrt_wide(hi: u128, lo: u128) -> (r: u128)
    requires
        (hi as int) < 0x40000000000,
    ensures
        (r as int) * (r as int) <= wide_val(hi, lo),
        wide_val(hi, lo) < ((r as int) + 1) * ((r as int) + 1),
        (r as int) < 0x2000000000000000000000,
{
    let ghost v = wide_val(hi, lo);
    let mut lo_b: u128 = 0;
    let mut hi_b: u128 = 0x2000000000000000000000;
    proof {
        assert(v < 0x40000000000 * 0x100000000000000000000000000000000);
        assert(0x2000000000000000000000 * 0x2000000000000000000000
            == 0x40000000000 * 0x100000000000000000000000000000000);
    }
    while hi_b - lo_b > 1
        invariant
            lo_b < hi_b,
            (hi_b as int) <= 0x2000000000000000000000,
            v == wide_val(hi, lo),
            (lo_b as int) * (lo_b as int) <= v,
            v < (hi_b as int) * (hi_b as int),
        decreases hi_b - lo_b,
    {
        let mid: u128 = lo_b + (hi_b - lo_b) / 2;
        let s = square_wide(mid);
        proof {
            lemma_wide_cmp(s.0, s.1, hi, lo);
        }
        if s.0 < hi || (s.0 == hi && s.1 <= lo) {
            lo_b = mid;
        } else {
            hi_b = mid;
        }
    }
    proof {
        assert((hi_b as int) == (lo_b as int) + 1);
    }
    lo_b
}

} // verus!
