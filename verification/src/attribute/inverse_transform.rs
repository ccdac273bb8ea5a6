//! Inverse prediction transforms of the attribute decoder: difference, wrap
//! into `[min, max]`, and octahedral orthogonal.

use vstd::prelude::*;
use crate::decode::inverse_transform::{
    canon_spec, i32_of, in_grid, invert_diamond, invert_diamond_spec, mod_max_spec, oct_fits,
    oct_inverse_spec, read_i32, rotate_spec, rotation_count_spec, uncanon_spec, GRID_MAX,
};
use crate::decode::inverse_transform::{canonicalize, clamp_spec};
use crate::error::{DecodeError, ReaderErr};
use crate::reader::{le32, Reader};

verus! {

/// Wire id of "no transform".
pub const TRANSFORM_NONE: u8 = 0xFF;
/// Wire id of the plain difference.
pub const TRANSFORM_DIFFERENCE: u8 = 0;
/// Wire id of the wrapped difference.
pub const TRANSFORM_WRAPPED_DIFFERENCE: u8 = 1;
/// Wire id of the octahedral reflection transform (not supported).
pub const TRANSFORM_OCT_REFLECTION: u8 = 2;
/// Wire id of the octahedral orthogonal transform.
pub const TRANSFORM_OCT_ORTHOGONAL: u8 = 3;

/// A parsed prediction transform.
#[derive(Debug, Clone, Copy, PartialEq, Eq, Structural)]
pub enum InverseTransform {
    /// The stored value is the original value.
    NoTransform,
    /// Prediction plus correction; corrections are zigzagged.
    Difference,
    /// Difference wrapped into `[min, max]`; corrections are zigzagged.
    Wrapped { min: i32, max: i32 },
    /// Octahedral orthogonal transform; corrections are raw.
    OctahedralOrthogonal { center: i32, max_quantized: i32 },
}

/// The transform that `id` names, with its parameters read from the start
/// of `s`, and the bytes they span; the error otherwise.
pub open spec fn transform_parse(s: Seq<u8>, id: u8) -> Result<(InverseTransform, nat), DecodeError> {
    if id == TRANSFORM_NONE {
        Ok((InverseTransform::NoTransform, 0))
    } else if id == TRANSFORM_DIFFERENCE {
        Ok((InverseTransform::Difference, 0))
    } else if id == TRANSFORM_WRAPPED_DIFFERENCE || id == TRANSFORM_OCT_ORTHOGONAL {
        if s.len() < 8 {
            Err(DecodeError::Reader(ReaderErr::NotEnoughData))
        } else {
            let a = i32_of(le32(s[0], s[1], s[2], s[3])) as i32;
            let b = i32_of(le32(s[4], s[5], s[6], s[7])) as i32;
            if id == TRANSFORM_WRAPPED_DIFFERENCE {
                Ok((InverseTransform::Wrapped { min: a, max: b }, 8))
            } else {
                Ok((InverseTransform::OctahedralOrthogonal { center: b, max_quantized: a }, 8))
            }
        }
    } else if id == TRANSFORM_OCT_REFLECTION {
        Err(DecodeError::Unimplemented)
    } else {
        Err(DecodeError::MalformedAttribute("unknown prediction transform id"))
    }
}

/// The value a wrapped difference reconstructs from prediction `p` and
/// correction `c`: the clamped prediction plus the correction, wrapped
/// once by the range size.
pub open spec fn wrapped_value(min: int, max: int, p: int, c: int) -> int {
    let v = clamp_spec(p, min, max) + c;
    let max_diff = 1 + max - min;
    if v > max {
        v - max_diff
    } else if v < min {
        v + max_diff
    } else {
        v
    }
}

/// The component `t` reconstructs from prediction `p` and correction `c`
/// (for every transform but the octahedral one, which works on pairs).
pub open spec fn original_component(t: InverseTransform, p: int, c: int) -> int {
    match t {
        InverseTransform::NoTransform => c,
        InverseTransform::Difference => p + c,
        InverseTransform::Wrapped { min, max } => wrapped_value(min as int, max as int, p, c),
        InverseTransform::OctahedralOrthogonal { .. } => c,
    }
}

/// Whether reconstructing component `(p, c)` stays within `i32`, and the
/// clamp range of a wrapped difference is ordered.
pub open spec fn component_fits(t: InverseTransform, p: int, c: int) -> bool {
    match t {
        InverseTransform::NoTransform => true,
        InverseTransform::Difference => i32::MIN <= p + c <= i32::MAX,
        InverseTransform::Wrapped { min, max } => {
            &&& min <= max
            &&& 1 + max <= i32::MAX
            &&& i32::MIN <= 1 + max - min <= i32::MAX
            &&& i32::MIN <= clamp_spec(p, min as int, max as int) + c <= i32::MAX
            &&& i32::MIN <= wrapped_value(min as int, max as int, p, c) <= i32::MAX
        },
        InverseTransform::OctahedralOrthogonal { .. } => true,
    }
}

/// Whether `t` can reconstruct values from `pred` and `corr`: equal
/// lengths, pairs for the octahedral transform, and no overflow.
pub open spec fn original_fits(t: InverseTransform, pred: Seq<i32>, corr: Seq<i32>) -> bool {
    &&& pred.len() == corr.len()
    &&& match t {
        InverseTransform::OctahedralOrthogonal { center, max_quantized } => {
            &&& pred.len() == 2
            &&& oct_fits(
                center as int,
                max_quantized as int,
                corr[0] as int,
                corr[1] as int,
                pred[0] as int,
                pred[1] as int,
            )
        },
        _ => forall|i: int|
            0 <= i < pred.len() ==> #[trigger] component_fits(t, pred[i] as int, corr[i] as int),
    }
}

/// The values `t` reconstructs from `pred` and `corr`.
pub open spec fn original_values(t: InverseTransform, pred: Seq<i32>, corr: Seq<i32>) -> Seq<int> {
    match t {
        InverseTransform::OctahedralOrthogonal { center, max_quantized } => {
            let (a, b) = oct_inverse_spec(
                center as int,
                max_quantized as int,
                corr[0] as int,
                corr[1] as int,
                pred[0] as int,
                pred[1] as int,
            );
            seq![a, b]
        },
        _ => Seq::new(pred.len(), |i: int| original_component(t, pred[i] as int, corr[i] as int)),
    }
}

/// The wrapped difference reconstructs each value as the prediction,
/// clamped into `[min, max]`, plus the correction, taken modulo the range
/// size `max - min + 1`: where that sum already lies in `[min, max]` it is
/// the value unchanged, and where the correction is no larger than the range
/// the value always lies in `[min, max]`.
pub proof fn lemma_wrapped_difference_reconstructs(min: i32, max: i32, pred: Seq<i32>, corr: Seq<i32>, i: int)
    requires
        min <= max,
        pred.len() == corr.len(),
        0 <= i < pred.len(),
    ensures
        ({
            let p = pred[i] as int;
            let c = corr[i] as int;
            let q = if p < min { min as int } else if p > max { max as int } else { p };
            let v = original_values(InverseTransform::Wrapped { min, max }, pred, corr)[i];
            &&& (min <= q + c <= max ==> v == q + c)
            &&& (-(max - min) <= c <= max - min ==> min <= v <= max)
            &&& (v - (q + c)) % (max - min + 1) == 0
        }),
{
    let p = pred[i] as int;
    let c = corr[i] as int;
    let d = max - min + 1;
    let q = clamp_spec(p, min as int, max as int);
    let v = wrapped_value(min as int, max as int, p, c);
    assert(v == q + c || v == q + c - d || v == q + c + d);
    if v == q + c - d {
        assert(v - (q + c) == -d);
        assert((-d) % d == 0) by {
            vstd::arithmetic::div_mod::lemma_fundamental_div_mod_converse(-d, d, -1, 0);
        }
    } else if v == q + c + d {
        vstd::arithmetic::div_mod::lemma_mod_self_0(d);
    } else {
        vstd::arithmetic::div_mod::lemma_small_mod(0, d as nat);
    }
}

/// The difference transform undoes the encoder's subtraction: with each
/// correction the original value minus its prediction, the reconstructed
/// values are the originals.
pub proof fn lemma_difference_reconstructs(pred: Seq<i32>, orig: Seq<i32>, corr: Seq<i32>)
    requires
        pred.len() == orig.len(),
        corr.len() == orig.len(),
        forall|i: int| 0 <= i < orig.len() ==> #[trigger] corr[i] == orig[i] - pred[i],
    ensures
        original_values(InverseTransform::Difference, pred, corr) == Seq::new(orig.len(), |i: int| orig[i] as int),
{
    assert(original_values(InverseTransform::Difference, pred, corr) =~= Seq::new(orig.len(), |i: int| orig[i] as int));
}

impl InverseTransform {
    /// Parses the parameters of transform `transform_id` from `reader`: the
    /// wrapped difference stores `min` then `max`, the octahedral orthogonal
    /// transform the grid period then its center, each four bytes.
    pub fn read_from(reader: &mut Reader<'_>, transform_id: u8) -> (r: Result<Self, DecodeError>)
        ensures
            match transform_parse(old(reader).rest(), transform_id) {
                Ok((t, k)) => r == Ok::<Self, DecodeError>(t) && final(reader).rest() == old(
                    reader,
                ).rest().skip(k as int),
                Err(e) => r == Err::<Self, DecodeError>(e),
            },
    {
        if transform_id == TRANSFORM_NONE {
            return Ok(InverseTransform::NoTransform);
        }
        if transform_id == TRANSFORM_DIFFERENCE {
            return Ok(InverseTransform::Difference);
        }
        if transform_id == TRANSFORM_WRAPPED_DIFFERENCE || transform_id == TRANSFORM_OCT_ORTHOGONAL {
            let ghost s = reader.rest();
            if reader.remaining() < 8 {
                return Err(DecodeError::Reader(ReaderErr::NotEnoughData));
            }
            let a = match read_i32(reader) {
                Ok(v) => v,
                Err(e) => return Err(DecodeError::Reader(e)),
            };
            let ghost s1 = reader.rest();
            let b = match read_i32(reader) {
                Ok(v) => v,
                Err(e) => return Err(DecodeError::Reader(e)),
            };
            proof {
                assert(s1 == s.skip(4));
                assert(s1[0] == s[4] && s1[1] == s[5] && s1[2] == s[6] && s1[3] == s[7]);
                assert(s1.skip(4) =~= s.skip(8));
            }
            if transform_id == TRANSFORM_WRAPPED_DIFFERENCE {
                return Ok(InverseTransform::Wrapped { min: a, max: b });
            }
            return Ok(InverseTransform::OctahedralOrthogonal { center: b, max_quantized: a });
        }
        if transform_id == TRANSFORM_OCT_REFLECTION {
            return Err(DecodeError::Unimplemented);
        }
        Err(DecodeError::MalformedAttribute("unknown prediction transform id"))
    }

    /// Whether [`InverseTransform::compute_original`] can reconstruct from
    /// `pred` and `corr`: the lengths agree and nothing overflows.
    pub fn original_fits_check(&self, pred: &[i32], corr: &[i32]) -> (b: bool)
        ensures
            b == original_fits(*self, pred@, corr@),
    {
        if pred.len() != corr.len() {
            return false;
        }
        match *self {
            InverseTransform::OctahedralOrthogonal { center, max_quantized } => {
                if pred.len() != 2 {
                    return false;
                }
                oct_fits_check(center, max_quantized, corr[0], corr[1], pred[0], pred[1])
            },
            _ => {
                let n = pred.len();
                let mut i: usize = 0;
                while i < n
                    invariant
                        n == pred@.len(),
                        n == corr@.len(),
                        i <= n,
                        !(*self is OctahedralOrthogonal),
                        forall|j: int|
                            0 <= j < i ==> #[trigger] component_fits(
                                *self,
                                pred@[j] as int,
                                corr@[j] as int,
                            ),
                    decreases n - i,
                {
                    if !component_fits_check(*self, pred[i], corr[i]) {
                        return false;
                    }
                    i = i + 1;
                }
                true
            },
        }
    }

    /// Whether the encoded corrections are zigzag-mapped.
    pub fn corrections_are_zigzagged(&self) -> (b: bool)
        ensures
            b <==> (*self is Difference || *self is Wrapped),
    {
        match self {
            InverseTransform::Difference => true,
            InverseTransform::Wrapped { .. } => true,
            _ => false,
        }
    }

    /// Reconstructs the original value from the prediction and the
    /// correction (already unzigzagged where the transform zigzags).
    pub fn compute_original(&self, pred: &[i32], corr: &[i32]) -> (out: Vec<i32>)
        requires
            original_fits(*self, pred@, corr@),
        ensures
            out@.len() == pred@.len(),
            forall|i: int|
                0 <= i < pred@.len() ==> #[trigger] out@[i] as int == original_values(
                    *self,
                    pred@,
                    corr@,
                )[i],
    {
        match *self {
            InverseTransform::OctahedralOrthogonal { center, max_quantized } => {
                let r = oct_orthogonal_original([pred[0], pred[1]], [corr[0], corr[1]], center, max_quantized);
                let mut out: Vec<i32> = Vec::new();
                out.push(r[0]);
                out.push(r[1]);
                out
            },
            _ => {
                let n = pred.len();
                let mut out: Vec<i32> = Vec::new();
                let mut i: usize = 0;
                while i < n
                    invariant
                        n == pred@.len(),
                        n == corr@.len(),
                        i <= n,
                        out@.len() == i,
                        !(*self is OctahedralOrthogonal),
                        forall|j: int|
                            0 <= j < n ==> #[trigger] component_fits(
                                *self,
                                pred@[j] as int,
                                corr@[j] as int,
                            ),
                        forall|j: int|
                            0 <= j < i ==> #[trigger] out@[j] as int == original_component(
                                *self,
                                pred@[j] as int,
                                corr@[j] as int,
                            ),
                    decreases n - i,
                {
                    let p = pred[i];
                    let c = corr[i];
                    proof {
                        assert(component_fits(*self, pred@[i as int] as int, corr@[i as int] as int));
                    }
                    let v = match *self {
                        InverseTransform::Difference => p + c,
                        InverseTransform::Wrapped { min, max } => {
                            let max_diff = 1 + max - min;
                            let clamped = if p < min {
                                min
                            } else if p > max {
                                max
                            } else {
                                p
                            };
                            let val = clamped + c;
                            if val > max {
                                val - max_diff
                            } else if val < min {
                                val + max_diff
                            } else {
                                val
                            }
                        },
                        _ => c,
                    };
                    out.push(v);
                    i = i + 1;
                }
                out
            },
        }
    }
}

/// Whether `(x, y)` lies in the bottom-left quadrant (negative `x`,
/// non-positive `y`).
pub open spec fn bottom_left(x: int, y: int) -> bool {
    x < 0 && y <= 0
}

/// The number of counter-clockwise quarter turns that bring a non-zero
/// point into the bottom-left quadrant.
pub open spec fn ccw_turns(x: int, y: int) -> int {
    (4 - rotation_count_spec(x, y)) % 4
}

proof fn lemma_ccw_turns_unique(x: int, y: int, k: int)
    requires
        !(x == 0 && y == 0),
        0 <= k < 4,
    ensures
        0 <= ccw_turns(x, y) < 4,
        ({
            let (a, b) = rotate_spec(x, y, ((4 - k) % 4) as u32);
            bottom_left(a, b)
        }) <==> k == ccw_turns(x, y),
{
}

/// Replays the encoder's canonicalization of the prediction (diamond
/// inversion, then counter-clockwise quarter turns into the bottom-left
/// quadrant), adds the correction modulo the grid period, and undoes the
/// canonicalization.
fn oct_orthogonal_original(pred_in: [i32; 2], corr: [i32; 2], center: i32, max_quantized: i32) -> (r: [
    i32;
    2
])
    requires
        oct_fits(
            center as int,
            max_quantized as int,
            corr@[0] as int,
            corr@[1] as int,
            pred_in@[0] as int,
            pred_in@[1] as int,
        ),
    ensures
        (r@[0] as int, r@[1] as int) == oct_inverse_spec(
            center as int,
            max_quantized as int,
            corr@[0] as int,
            corr@[1] as int,
            pred_in@[0] as int,
            pred_in@[1] as int,
        ),
{
    let ghost canon = canon_spec(
        pred_in@[0] - center,
        pred_in@[1] - center,
        center as int,
    );
    let one = center;
    let mut p0 = pred_in[0] - one;
    let mut p1 = pred_in[1] - one;
    let a0 = if p0 < 0 {
        -p0
    } else {
        p0
    };
    let a1 = if p1 < 0 {
        -p1
    } else {
        p1
    };
    let inverted = a0 + a1 > one;
    if inverted {
        let (x, y) = invert_diamond(p0, p1, one);
        p0 = x;
        p1 = y;
    }
    let ghost s1 = p0 as int;
    let ghost t1 = p1 as int;
    let mut rotations: u32 = 0;
    if !(p0 == 0 && p1 == 0) {
        proof {
            lemma_ccw_turns_unique(s1, t1, 0);
        }
        while p0 >= 0 || p1 > 0
            invariant
                !(s1 == 0 && t1 == 0),
                in_grid(s1),
                in_grid(t1),
                0 <= rotations <= ccw_turns(s1, t1) < 4,
                (p0 as int, p1 as int) == rotate_spec(s1, t1, ((4 - rotations) % 4) as u32),
            decreases 3 - rotations,
        {
            proof {
                lemma_ccw_turns_unique(s1, t1, rotations as int);
            }
            let tmp = p0;
            p0 = -p1;
            p1 = tmp;
            rotations = rotations + 1;
        }
        proof {
            lemma_ccw_turns_unique(s1, t1, rotations as int);
        }
    }
    assert(rotations as int == (if canon.1 { 0 } else { (4 - canon.2) % 4 }));
    assert(p0 as int == canon.3 && p1 as int == canon.4);
    let mut o0 = p0 + corr[0];
    if o0 > one {
        o0 = o0 - max_quantized;
    } else if o0 < -one {
        o0 = o0 + max_quantized;
    }
    let mut o1 = p1 + corr[1];
    if o1 > one {
        o1 = o1 - max_quantized;
    } else if o1 < -one {
        o1 = o1 + max_quantized;
    }
    let ghost u0 = o0 as int;
    let ghost u1 = o1 as int;
    let mut k: u32 = 0;
    while k < rotations
        invariant
            k <= rotations < 4,
            in_grid(u0),
            in_grid(u1),
            (o0 as int, o1 as int) == rotate_spec(u0, u1, k),
        decreases rotations - k,
    {
        let tmp = o0;
        o0 = o1;
        o1 = -tmp;
        k = k + 1;
    }
    assert((o0 as int, o1 as int) == uncanon_spec(u0, u1, center as int, true, canon.1, canon.2));
    if inverted {
        let (x, y) = invert_diamond(o0, o1, one);
        o0 = x;
        o1 = y;
    }
    [o0 + one, o1 + one]
}

/// Whether reconstructing one component `(p, c)` under `t` stays within
/// `i32`.
fn component_fits_check(t: InverseTransform, p: i32, c: i32) -> (b: bool)
    ensures
        b == component_fits(t, p as int, c as int),
{
    match t {
        InverseTransform::Difference => {
            let v = p as i64 + c as i64;
            i32::MIN as i64 <= v && v <= i32::MAX as i64
        },
        InverseTransform::Wrapped { min, max } => {
            if min > max || max == i32::MAX {
                return false;
            }
            let max_diff = 1 + max as i64 - min as i64;
            if max_diff > i32::MAX as i64 {
                return false;
            }
            let clamped: i64 = if p < min {
                min as i64
            } else if p > max {
                max as i64
            } else {
                p as i64
            };
            let v = clamped + c as i64;
            if v < i32::MIN as i64 || v > i32::MAX as i64 {
                return false;
            }
            let w = if v > max as i64 {
                v - max_diff
            } else if v < min as i64 {
                v + max_diff
            } else {
                v
            };
            i32::MIN as i64 <= w && w <= i32::MAX as i64
        },
        _ => true,
    }
}

/// `x` folded back into `[-center, center]` by one period `max`, in i64.
fn mod_max_wide(x: i64, center: i32, max: i32) -> (r: i64)
    requires
        -0x1_0000_0000 <= x <= 0x1_0000_0000,
    ensures
        r == mod_max_spec(x as int, center as int, max as int),
{
    if x > center as i64 {
        x - max as i64
    } else if x < -(center as i64) {
        x + max as i64
    } else {
        x
    }
}

/// Whether the octahedral orthogonal transform can reconstruct from
/// prediction `(p0, p1)` and correction `(c0, c1)`.
fn oct_fits_check(center: i32, max: i32, c0: i32, c1: i32, p0: i32, p1: i32) -> (b: bool)
    ensures
        b == oct_fits(center as int, max as int, c0 as int, c1 as int, p0 as int, p1 as int),
{
    if center < 0 || center > GRID_MAX || max < 0 || max > GRID_MAX {
        return false;
    }
    let s = p0 as i64 - center as i64;
    let t = p1 as i64 - center as i64;
    if s < -(GRID_MAX as i64) || s > GRID_MAX as i64 || t < -(GRID_MAX as i64) || t > GRID_MAX as i64 {
        return false;
    }
    let (_, _, _, s2, t2) = canonicalize(s as i32, t as i32, center);
    let x = s2 as i64 + c0 as i64;
    let y = t2 as i64 + c1 as i64;
    if x < i32::MIN as i64 || x > i32::MAX as i64 || y < i32::MIN as i64 || y > i32::MAX as i64 {
        return false;
    }
    let mx = mod_max_wide(x, center, max);
    let my = mod_max_wide(y, center, max);
    -(GRID_MAX as i64) <= mx && mx <= GRID_MAX as i64 && -(GRID_MAX as i64) <= my && my <= GRID_MAX as i64
}

} // verus!
