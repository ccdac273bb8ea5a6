//! Texture-coordinate prediction from the positions of a face: the
//! current vertex is projected onto the edge between the next and previous
//! vertices, and the UV is placed on either side of that edge's UV image.

use vstd::prelude::*;
use crate::attribute::sectors::{int_sqrt, is_isqrt};
use crate::decode::attribute::iabs;

verus! {

/// Whether `x` fits an `i64`.
pub open spec fn in_i64(x: int) -> bool {
    i64::MIN <= x <= i64::MAX
}

/// Rust's division of `a` by a positive `b`, rounding toward zero.
pub open spec fn tdiv(a: int, b: int) -> int {
    if a >= 0 {
        a / b
    } else {
        -((-a) / b)
    }
}

/// The larger of two integers.
pub open spec fn imax(a: int, b: int) -> int {
    if a >= b {
        a
    } else {
        b
    }
}

/// The integer square root of `v`: the `r` with `r * r <= v < (r + 1)^2`.
pub open spec fn floor_sqrt(v: int) -> int {
    choose|r: int| is_isqrt(v, r)
}

proof fn lemma_isqrt_unique(v: int, r: int, s: int)
    requires
        is_isqrt(v, r),
        is_isqrt(v, s),
    ensures
        r == s,
{
    if r < s {
        assert((r + 1) * (r + 1) <= s * s) by (nonlinear_arith)
            requires
                0 <= r + 1 <= s,
        ;
    } else if s < r {
        assert((s + 1) * (s + 1) <= r * r) by (nonlinear_arith)
            requires
                0 <= s + 1 <= r,
        ;
    }
}

/// A point as three integers.
pub type P3 = (int, int, int);

/// `a - b`.
pub open spec fn sub3(a: P3, b: P3) -> P3 {
    (a.0 - b.0, a.1 - b.1, a.2 - b.2)
}

/// `a · b`.
pub open spec fn dot3(a: P3, b: P3) -> int {
    a.0 * b.0 + a.1 * b.1 + a.2 * b.2
}

/// The position at `i` as integers.
pub open spec fn pos_at(positions: Seq<[i32; 3]>, i: int) -> P3 {
    (positions[i][0] as int, positions[i][1] as int, positions[i][2] as int)
}

/// The two candidate UVs of the current vertex: with `pn = prev - next`,
/// `cn = curr - next`, the current position's projection onto the edge is
/// `x = next + pn (cn · pn) / |pn|^2`, the UV of that projection is
/// `next_uv + (prev_uv - next_uv)(cn · pn) / |pn|^2`, and the UV moves off
/// the edge by the perpendicular of `prev_uv - next_uv` scaled by
/// `|curr - x| / |pn|` (integer square root, Rust division). `None` where
/// `pn` is zero or where the encoder's overflow guards trip.
pub open spec fn uv_complex_spec(n: (int, int), q: (int, int), c: P3, nx: P3, p: P3) -> Option<
    (int, int, int, int),
> {
    let pn = sub3(p, nx);
    let pn2 = dot3(pn, pn);
    let cn = sub3(c, nx);
    let d = dot3(pn, cn);
    let uv0 = q.0 - n.0;
    let uv1 = q.1 - n.1;
    let n_max = imax(iabs(n.0), iabs(n.1));
    let uv_max = imax(iabs(uv0), iabs(uv1));
    let pn_max = imax(imax(iabs(pn.0), iabs(pn.1)), iabs(pn.2));
    let x0 = n.0 * pn2 + uv0 * d;
    let x1 = n.1 * pn2 + uv1 * d;
    let xp = (nx.0 + tdiv(pn.0 * d, pn2), nx.1 + tdiv(pn.1 * d, pn2), nx.2 + tdiv(pn.2 * d, pn2));
    let cx = sub3(c, xp);
    let prod = dot3(cx, cx) * pn2;
    let norm = floor_sqrt(prod);
    let c0 = uv1 * norm;
    let c1 = -uv0 * norm;
    if pn2 == 0 {
        None
    } else if n_max > (i64::MAX as int) / pn2 {
        None
    } else if uv_max != 0 && iabs(d) > (i64::MAX as int) / uv_max {
        None
    } else if pn_max != 0 && iabs(d) > (i64::MAX as int) / pn_max {
        None
    } else if prod > u64::MAX {
        None
    } else {
        Some(
            (
                tdiv(x0 + c0, pn2) as i32 as int,
                tdiv(x1 + c1, pn2) as i32 as int,
                tdiv(x0 - c0, pn2) as i32 as int,
                tdiv(x1 - c1, pn2) as i32 as int,
            ),
        )
    }
}

/// Whether every step of [`uv_complex_spec`] that the computation reaches
/// stays within `i64`.
pub open spec fn uv_complex_fits(n: (int, int), q: (int, int), c: P3, nx: P3, p: P3) -> bool {
    let pn = sub3(p, nx);
    let pn2 = dot3(pn, pn);
    let cn = sub3(c, nx);
    let d = dot3(pn, cn);
    let uv0 = q.0 - n.0;
    let uv1 = q.1 - n.1;
    let n_max = imax(iabs(n.0), iabs(n.1));
    let uv_max = imax(iabs(uv0), iabs(uv1));
    let pn_max = imax(imax(iabs(pn.0), iabs(pn.1)), iabs(pn.2));
    let x0 = n.0 * pn2 + uv0 * d;
    let x1 = n.1 * pn2 + uv1 * d;
    let xp = (nx.0 + tdiv(pn.0 * d, pn2), nx.1 + tdiv(pn.1 * d, pn2), nx.2 + tdiv(pn.2 * d, pn2));
    let cx = sub3(c, xp);
    let cx2 = dot3(cx, cx);
    let prod = cx2 * pn2;
    let norm = floor_sqrt(prod);
    let c0 = uv1 * norm;
    let c1 = -uv0 * norm;
    &&& in_i64(pn2)
    &&& pn2 != 0 ==> {
        &&& in_i64(pn.0 * cn.0)
        &&& in_i64(pn.1 * cn.1)
        &&& in_i64(pn.2 * cn.2)
        &&& in_i64(pn.0 * cn.0 + pn.1 * cn.1)
        &&& in_i64(d)
        &&& n_max <= (i64::MAX as int) / pn2 ==> {
            &&& d != i64::MIN
            &&& (uv_max == 0 || iabs(d) <= (i64::MAX as int) / uv_max) ==> {
                &&& in_i64(x0)
                &&& in_i64(x1)
                &&& iabs(d) <= (i64::MAX as int) / pn_max ==> {
                    &&& in_i64(xp.0)
                    &&& in_i64(xp.1)
                    &&& in_i64(xp.2)
                    &&& in_i64(cx.0)
                    &&& in_i64(cx.1)
                    &&& in_i64(cx.2)
                    &&& in_i64(cx.0 * cx.0 + cx.1 * cx.1)
                    &&& in_i64(cx2)
                    &&& prod <= u64::MAX ==> {
                        &&& in_i64(c0)
                        &&& in_i64(c1)
                        &&& in_i64(x0 + c0)
                        &&& in_i64(x1 + c1)
                        &&& in_i64(x0 - c0)
                        &&& in_i64(x1 - c1)
                    }
                }
            }
        }
    }
}

/// Rust's `i64` division by a positive divisor.
fn div_toward_zero(a: i64, b: i64) -> (r: i64)
    requires
        b > 0,
    ensures
        r == tdiv(a as int, b as int),
{
    a / b
}

/// `|x|` of an `i64` other than its minimum.
fn abs64(x: i64) -> (r: i64)
    requires
        x > i64::MIN,
    ensures
        r == iabs(x as int),
{
    if x < 0 {
        -x
    } else {
        x
    }
}

/// The two texture-coordinate predictions the encoder chose between for a
/// vertex, from the UVs of the next and previous vertices of its face and
/// the positions of the three vertices; `None` when a position is missing,
/// the edge is degenerate, or an overflow guard trips.
pub fn uv_predict_complex(
    _curr_uv_unused: [i32; 2],
    next_uv_i32: [i32; 2],
    prev_uv_i32: [i32; 2],
    positions_by_ct_vertex: Option<&[[i32; 3]]>,
    curr_vi: usize,
    next_vi: usize,
    prev_vi: usize,
) -> (r: Option<([i32; 2], [i32; 2])>)
    requires
        positions_by_ct_vertex matches Some(ps) ==> (curr_vi < ps@.len() && next_vi < ps@.len()
            && prev_vi < ps@.len() ==> uv_complex_fits(
            (next_uv_i32@[0] as int, next_uv_i32@[1] as int),
            (prev_uv_i32@[0] as int, prev_uv_i32@[1] as int),
            pos_at(ps@, curr_vi as int),
            pos_at(ps@, next_vi as int),
            pos_at(ps@, prev_vi as int),
        )),
    ensures
        match positions_by_ct_vertex {
            None => r is None,
            Some(ps) => if curr_vi < ps@.len() && next_vi < ps@.len() && prev_vi < ps@.len() {
                match uv_complex_spec(
                    (next_uv_i32@[0] as int, next_uv_i32@[1] as int),
                    (prev_uv_i32@[0] as int, prev_uv_i32@[1] as int),
                    pos_at(ps@, curr_vi as int),
                    pos_at(ps@, next_vi as int),
                    pos_at(ps@, prev_vi as int),
                ) {
                    None => r is None,
                    Some((a, b, c, d)) => r matches Some((p0, p1)) && p0@[0] == a && p0@[1] == b
                        && p1@[0] == c && p1@[1] == d,
                }
            } else {
                r is None
            },
        },
{
    let positions = match positions_by_ct_vertex {
        Some(ps) => ps,
        None => return None,
    };
    if curr_vi >= positions.len() || next_vi >= positions.len() || prev_vi >= positions.len() {
        return None;
    }
    let cp = positions[curr_vi];
    let np = positions[next_vi];
    let pp = positions[prev_vi];
    let c0 = cp[0] as i64;
    let c1 = cp[1] as i64;
    let c2 = cp[2] as i64;
    let n0 = np[0] as i64;
    let n1 = np[1] as i64;
    let n2 = np[2] as i64;
    let p0 = pp[0] as i64;
    let p1 = pp[1] as i64;
    let p2 = pp[2] as i64;
    let nu0 = next_uv_i32[0] as i64;
    let nu1 = next_uv_i32[1] as i64;
    let pu0 = prev_uv_i32[0] as i64;
    let pu1 = prev_uv_i32[1] as i64;
    let pn0 = p0 - n0;
    let pn1 = p1 - n1;
    let pn2c = p2 - n2;
    proof {
        assert(pn0 * pn0 >= 0 && pn1 * pn1 >= 0 && pn2c * pn2c >= 0) by (nonlinear_arith);
    }
    let pn_norm2 = pn0 * pn0 + pn1 * pn1 + pn2c * pn2c;
    if pn_norm2 == 0 {
        return None;
    }
    let cn0 = c0 - n0;
    let cn1 = c1 - n1;
    let cn2 = c2 - n2;
    let cn_dot_pn = pn0 * cn0 + pn1 * cn1 + pn2c * cn2;
    let uv0 = pu0 - nu0;
    let uv1 = pu1 - nu1;
    let n_uv_absmax = if abs64(nu0) >= abs64(nu1) {
        abs64(nu0)
    } else {
        abs64(nu1)
    };
    if n_uv_absmax > i64::MAX / pn_norm2 {
        return None;
    }
    let uv_absmax = if abs64(uv0) >= abs64(uv1) {
        abs64(uv0)
    } else {
        abs64(uv1)
    };
    if uv_absmax != 0 && abs64(cn_dot_pn) > i64::MAX / uv_absmax {
        return None;
    }
    proof {
        assert(iabs(nu0 as int) * pn_norm2 <= i64::MAX) by (nonlinear_arith)
            requires
                iabs(nu0 as int) <= (i64::MAX as int) / (pn_norm2 as int),
                pn_norm2 > 0,
        ;
        assert(iabs(nu1 as int) * pn_norm2 <= i64::MAX) by (nonlinear_arith)
            requires
                iabs(nu1 as int) <= (i64::MAX as int) / (pn_norm2 as int),
                pn_norm2 > 0,
        ;
        assert(in_i64(nu0 * pn_norm2) && in_i64(nu1 * pn_norm2)) by (nonlinear_arith)
            requires
                iabs(nu0 as int) * pn_norm2 <= i64::MAX,
                iabs(nu1 as int) * pn_norm2 <= i64::MAX,
                pn_norm2 > 0,
        ;
        if uv_absmax == 0 {
            assert(uv0 == 0 && uv1 == 0);
            assert(uv0 * cn_dot_pn == 0 && uv1 * cn_dot_pn == 0) by (nonlinear_arith)
                requires
                    uv0 == 0 && uv1 == 0,
            ;
        } else {
            assert(in_i64(uv0 * cn_dot_pn) && in_i64(uv1 * cn_dot_pn)) by (nonlinear_arith)
                requires
                    iabs(cn_dot_pn as int) <= (i64::MAX as int) / (uv_absmax as int),
                    uv_absmax > 0,
                    iabs(uv0 as int) <= uv_absmax,
                    iabs(uv1 as int) <= uv_absmax,
            ;
        }
    }
    let x_uv0 = nu0 * pn_norm2 + uv0 * cn_dot_pn;
    let x_uv1 = nu1 * pn_norm2 + uv1 * cn_dot_pn;
    let a0 = abs64(pn0);
    let a1 = abs64(pn1);
    let a2 = abs64(pn2c);
    let m01 = if a0 >= a1 {
        a0
    } else {
        a1
    };
    let pn_absmax = if m01 >= a2 {
        m01
    } else {
        a2
    };
    if pn_absmax != 0 && abs64(cn_dot_pn) > i64::MAX / pn_absmax {
        return None;
    }
    proof {
        if pn0 == 0 && pn1 == 0 && pn2c == 0 {
            assert(pn0 * pn0 + pn1 * pn1 + pn2c * pn2c == 0) by (nonlinear_arith)
                requires
                    pn0 == 0 && pn1 == 0 && pn2c == 0,
            ;
        }
        assert(pn_absmax > 0);
        assert(in_i64(pn0 * cn_dot_pn) && in_i64(pn1 * cn_dot_pn) && in_i64(pn2c * cn_dot_pn)) by (
        nonlinear_arith)
            requires
                iabs(cn_dot_pn as int) <= (i64::MAX as int) / (pn_absmax as int),
                pn_absmax > 0,
                iabs(pn0 as int) <= pn_absmax,
                iabs(pn1 as int) <= pn_absmax,
                iabs(pn2c as int) <= pn_absmax,
        ;
    }
    let xp0 = n0 + div_toward_zero(pn0 * cn_dot_pn, pn_norm2);
    let xp1 = n1 + div_toward_zero(pn1 * cn_dot_pn, pn_norm2);
    let xp2 = n2 + div_toward_zero(pn2c * cn_dot_pn, pn_norm2);
    let cx0 = c0 - xp0;
    let cx1 = c1 - xp1;
    let cx2 = c2 - xp2;
    proof {
        assert(cx0 * cx0 >= 0 && cx1 * cx1 >= 0 && cx2 * cx2 >= 0) by (nonlinear_arith);
    }
    let cx_norm2 = (cx0 * cx0 + cx1 * cx1 + cx2 * cx2) as u64;
    let prod = match cx_norm2.checked_mul(pn_norm2 as u64) {
        Some(v) => v,
        None => return None,
    };
    let root = int_sqrt(prod);
    proof {
        assert(root <= 0x1_0000_0000) by (nonlinear_arith)
            requires
                root * root <= prod,
                prod <= u64::MAX,
        ;
    }
    let norm = root as i64;
    proof {
        assert(norm as int == floor_sqrt(prod as int)) by {
            assert(is_isqrt(prod as int, norm as int));
            let s = choose|s: int| is_isqrt(prod as int, s);
            lemma_isqrt_unique(prod as int, norm as int, s);
        }
    }
    let cx_uv0 = uv1 * norm;
    let cx_uv1 = -uv0 * norm;
    let r0 = [
        #[verifier::truncate] (div_toward_zero(x_uv0 + cx_uv0, pn_norm2) as i32),
        #[verifier::truncate] (div_toward_zero(x_uv1 + cx_uv1, pn_norm2) as i32),
    ];
    let r1 = [
        #[verifier::truncate] (div_toward_zero(x_uv0 - cx_uv0, pn_norm2) as i32),
        #[verifier::truncate] (div_toward_zero(x_uv1 - cx_uv1, pn_norm2) as i32),
    ];
    Some((r0, r1))
}

} // verus!
