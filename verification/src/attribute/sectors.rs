//! Fan sectors and integer square roots used by the attribute predictors.

use vstd::prelude::*;

verus! {

/// Whether `j` is the last seam of the fan at or after index 2.
pub open spec fn last_seam_from_2(seams: Seq<bool>, j: int) -> bool {
    2 <= j < seams.len() && seams[j] && forall|k: int| j < k < seams.len() ==> !seams[k]
}

/// The index, within a closed fan of `m` corners, of the corner its first
/// sector starts at: 0 for a one-corner fan or a seam at 0; otherwise the
/// last seam among indices `2..m`, or 1 when there is none.
pub fn sector_start(seams: &[bool], m: usize) -> (r: usize)
    requires
        m <= seams@.len(),
        m >= 1,
    ensures
        (m == 1 || seams@[0]) ==> r == 0,
        !(m == 1 || seams@[0]) ==> (r == 1 && forall|k: int| 2 <= k < m ==> !seams@[k]) || (2 <= r < m && seams@[r as int]
            && forall|k: int| r < k < m ==> !seams@[k]),
{
    if m == 1 || seams[0] {
        return 0;
    }
    let mut j = m - 1;
    while j > 1
        invariant
            1 <= j < m,
            m <= seams@.len(),
            !seams@[0],
            m > 1,
            forall|k: int| j < k < m ==> !seams@[k],
        decreases j,
    {
        if seams[j] {
            return j;
        }
        j -= 1;
    }
    1
}

/// Whether `r` is the integer square root of `v`.
pub open spec fn is_isqrt(v: int, r: int) -> bool {
    r >= 0 && r * r <= v < (r + 1) * (r + 1)
}

/// One Newton step from above never drops below the integer square root.
proof fn lemma_newton_floor(v: int, s: int, r: int)
    requires
        s >= 1,
        is_isqrt(v, r),
    ensures
        (s + v / s) / 2 >= r,
{
    let q = v / s;
    let m = (s + q) / 2;
    vstd::arithmetic::div_mod::lemma_fundamental_div_mod(v, s);
    assert(v < s * (q + 1)) by (nonlinear_arith)
        requires
            v == s * q + v % s,
            0 <= v % s < s,
    ;
    if m < r {
        assert(s + q + 1 <= 2 * r);
        assert(4 * s * (q + 1) <= (s + q + 1) * (s + q + 1)) by (nonlinear_arith);
        assert((s + q + 1) * (s + q + 1) <= (2 * r) * (2 * r)) by (nonlinear_arith)
            requires
                0 <= s + q + 1 <= 2 * r,
        ;
        assert(false) by (nonlinear_arith)
            requires
                v < s * (q + 1),
                4 * s * (q + 1) <= (s + q + 1) * (s + q + 1),
                (s + q + 1) * (s + q + 1) <= (2 * r) * (2 * r),
                r * r <= v,
        ;
    }
}

/// The integer square root exists below `2^32` for every `u64`.
proof fn lemma_isqrt_exists(v: int, lo: int, hi: int)
    requires
        0 <= lo < hi,
        lo * lo <= v,
        v < hi * hi,
    ensures
        exists|r: int| is_isqrt(v, r),
    decreases hi - lo,
{
    if hi == lo + 1 {
        assert(is_isqrt(v, lo));
    } else {
        let mid = lo + (hi - lo) / 2;
        if mid * mid <= v {
            lemma_isqrt_exists(v, mid, hi);
        } else {
            lemma_isqrt_exists(v, lo, mid);
        }
    }
}

/// The integer square root of `value` by Newton's method, started above the
/// root from the power of two whose square is nearest.
pub fn int_sqrt(value: u64) -> (r: u64)
    ensures
        is_isqrt(value as int, r as int),
{
    if value == 0 {
        return 0;
    }
    let mut act_number = value;
    let mut sqrt: u64 = 1;
    let ghost mut k: nat = 0;
    let ghost mut p4: int = 1;
    proof {
        vstd::arithmetic::power2::lemma2_to64();
        vstd::arithmetic::power2::lemma2_to64_rest();
    }
    while act_number >= 2
        invariant
            sqrt == vstd::arithmetic::power2::pow2(k),
            k <= 32,
            value >= 1,
            p4 == sqrt * sqrt,
            p4 >= 1,
            act_number as int == (value as int) / p4,
            vstd::arithmetic::power2::pow2(32) == 0x1_0000_0000,
        decreases act_number,
    {
        proof {
            vstd::arithmetic::div_mod::lemma_fundamental_div_mod(value as int, p4);
            assert(value >= 2 * p4) by (nonlinear_arith)
                requires
                    value as int == p4 * ((value as int) / p4) + (value as int) % p4,
                    (value as int) % p4 >= 0,
                    (value as int) / p4 >= 2,
                    p4 > 0,
            ;
            if k == 32 {
                assert(p4 == 0x1_0000_0000_0000_0000int) by (nonlinear_arith)
                    requires
                        sqrt == 0x1_0000_0000,
                        p4 == sqrt * sqrt,
                ;
                assert(false);
            }
            vstd::arithmetic::power2::lemma_pow2_unfold(k + 1);
            vstd::arithmetic::power2::lemma_pow2_strictly_increases(k, 32);
            vstd::arithmetic::div_mod::lemma_div_denominator(value as int, p4, 4);
        }
        sqrt = sqrt * 2;
        act_number = act_number / 4;
        proof {
            k = k + 1;
            let old_p4 = p4;
            p4 = 4 * p4;
            assert(p4 == sqrt * sqrt) by (nonlinear_arith)
                requires
                    p4 == 4 * old_p4,
                    old_p4 == (sqrt / 2) * (sqrt / 2),
                    sqrt % 2 == 0,
            ;
        }
    }
    let ghost p = p4;
    proof {
        vstd::arithmetic::div_mod::lemma_fundamental_div_mod(value as int, p);
        assert(value < 2 * p) by (nonlinear_arith)
            requires
                value as int == p * ((value as int) / p) + (value as int) % p,
                0 <= (value as int) % p < p,
                (value as int) / p < 2,
        ;
        lemma_isqrt_exists(value as int, 0, 0x1_0000_0000);
    }
    let ghost r = choose|r: int| is_isqrt(value as int, r);
    proof {
        assert(r >= 1) by (nonlinear_arith)
            requires
                is_isqrt(value as int, r),
                value >= 1,
        ;
        lemma_newton_floor(value as int, sqrt as int, r);
        vstd::arithmetic::div_mod::lemma_fundamental_div_mod(value as int, sqrt as int);
        vstd::arithmetic::power2::lemma2_to64_rest();
        if k < 32 {
            vstd::arithmetic::power2::lemma_pow2_strictly_increases(k, 32);
            if k < 31 {
                vstd::arithmetic::power2::lemma_pow2_strictly_increases(k, 31);
            }
            assert((value as int) / (sqrt as int) < 2 * sqrt) by (nonlinear_arith)
                requires
                    value < 2 * (sqrt * sqrt),
                    sqrt >= 1,
                    value as int == sqrt * ((value as int) / (sqrt as int)) + (value as int) % (sqrt as int),
                    0 <= (value as int) % (sqrt as int),
            ;
        } else {
            assert((value as int) / (sqrt as int) < sqrt) by (nonlinear_arith)
                requires
                    sqrt == 0x1_0000_0000,
                    value < 0x1_0000_0000_0000_0000,
                    value as int == sqrt * ((value as int) / (sqrt as int)) + (value as int) % (sqrt as int),
                    0 <= (value as int) % (sqrt as int),
            ;
        }
    }
    sqrt = (sqrt + value / sqrt) / 2;
    loop
        invariant
            sqrt >= r,
            r >= 1,
            sqrt < 0x1_0000_0000,
            is_isqrt(value as int, r),
        ensures
            sqrt >= r,
            sqrt * sqrt <= value,
        decreases sqrt,
    {
        proof {
            assert(sqrt * sqrt < 0x1_0000_0000_0000_0000) by (nonlinear_arith)
                requires
                    sqrt < 0x1_0000_0000,
            ;
        }
        if sqrt * sqrt <= value {
            break;
        }
        proof {
            lemma_newton_floor(value as int, sqrt as int, r);
            vstd::arithmetic::div_mod::lemma_fundamental_div_mod(value as int, sqrt as int);
            assert((value as int) / (sqrt as int) < sqrt) by (nonlinear_arith)
                requires
                    sqrt * sqrt > value,
                    sqrt >= 1,
                    value as int == sqrt * ((value as int) / (sqrt as int)) + (value as int) % (sqrt as int),
                    0 <= (value as int) % (sqrt as int) < sqrt,
            ;
        }
        sqrt = (sqrt + value / sqrt) / 2;
    }
    proof {
        assert(sqrt == r) by (nonlinear_arith)
            requires
                sqrt >= r,
                sqrt * sqrt <= value,
                value < (r + 1) * (r + 1),
                r >= 0,
        ;
    }
    sqrt
}

} // verus!
