//! Inverse prediction transforms: from a decoded correction symbol and a
//! prediction back to the quantized value. Corrections travel zigzagged
//! (`0, -1, 1, -2, 2, …` as `0, 1, 2, 3, 4, …`); the wrapped difference
//! folds results back into `[min, max]`; the octahedral transform works in
//! the canonical bottom-left octant of the octahedral square.

use vstd::prelude::*;
use crate::error::ReaderErr;
use crate::reader::{le32, Reader};

verus! {

/// Failure while reading a prediction transform.
#[derive(Debug, Clone, Copy, PartialEq, Eq)]
pub enum TransformErr {
    /// The stream ended.
    Reader(ReaderErr),
    /// The transform id is not known.
    InvalidId(u8),
    /// The octahedral and orthogonal inverses are not available here.
    OctahedralTodo,
    /// The wrapped-difference range size does not fit an `i32`.
    BoundsOverflow,
}

/// The prediction transform named by a wire id.
#[derive(Debug, Clone, Copy, PartialEq, Eq, Structural)]
pub enum InverseTransformKind {
    /// Id `0xFF`.
    NoTransform,
    /// Id 0.
    Difference,
    /// Id 1.
    WrappedDifference,
    /// Id 2.
    OctahedralReflection,
    /// Id 3.
    OctahedralOrthogonal,
    /// Id 4.
    Orthogonal,
}

impl InverseTransformKind {
    /// The transform for a wire id.
    pub fn from_id(id: u8) -> (r: Result<Self, TransformErr>)
        ensures
            id == 0xFF ==> r == Ok::<Self, TransformErr>(InverseTransformKind::NoTransform),
            id == 0 ==> r == Ok::<Self, TransformErr>(InverseTransformKind::Difference),
            id == 1 ==> r == Ok::<Self, TransformErr>(InverseTransformKind::WrappedDifference),
            id == 2 ==> r == Ok::<Self, TransformErr>(InverseTransformKind::OctahedralReflection),
            id == 3 ==> r == Ok::<Self, TransformErr>(InverseTransformKind::OctahedralOrthogonal),
            id == 4 ==> r == Ok::<Self, TransformErr>(InverseTransformKind::Orthogonal),
            (5 <= id < 0xFF) ==> r == Err::<Self, TransformErr>(TransformErr::InvalidId(id)),
    {
        match id {
            0xFF => Ok(Self::NoTransform),
            0 => Ok(Self::Difference),
            1 => Ok(Self::WrappedDifference),
            2 => Ok(Self::OctahedralReflection),
            3 => Ok(Self::OctahedralOrthogonal),
            4 => Ok(Self::Orthogonal),
            _ => Err(TransformErr::InvalidId(id)),
        }
    }
}

/// The value a zigzagged correction `p` stands for.
pub open spec fn from_positive_spec(p: int) -> int {
    if p % 2 == 0 {
        p / 2
    } else {
        -(p / 2) - 1
    }
}

/// The zigzag code of `v`.
pub open spec fn to_positive_spec(v: int) -> int {
    if v >= 0 {
        2 * v
    } else {
        2 * (-(v + 1)) + 1
    }
}

/// The value a zigzagged correction stands for:
/// `0 → 0, 1 → -1, 2 → 1, 3 → -2, 4 → 2, …`.
pub fn from_positive_i32(p: i32) -> (r: i32)
    ensures
        r == from_positive_spec(p as int),
{
    let h = p >> 1;
    proof {
        assert(h == (p as int) / 2) by (bit_vector)
            requires
                h == p >> 1,
        ;
        assert((p & 1 == 0) == ((p as int) % 2 == 0)) by (bit_vector);
    }
    if p & 1 == 0 {
        h
    } else {
        -(h + 1)
    }
}

/// Zigzag decoding undoes zigzag encoding on every value whose code fits in
/// an `i32`.
pub proof fn lemma_from_positive_inverts(v: int)
    requires
        i32::MIN <= to_positive_spec(v) <= i32::MAX,
    ensures
        from_positive_spec(to_positive_spec(v)) == v,
{
}

/// Reads a little-endian i32.
pub fn read_i32(reader: &mut Reader<'_>) -> (r: Result<i32, ReaderErr>)
    ensures
        old(reader).rest().len() >= 4 ==> (r matches Ok(v) && v as int == i32_of(le32(
            old(reader).rest()[0],
            old(reader).rest()[1],
            old(reader).rest()[2],
            old(reader).rest()[3],
        )) && final(reader).rest() == old(reader).rest().skip(4)),
        old(reader).rest().len() < 4 ==> r == Err::<i32, ReaderErr>(ReaderErr::NotEnoughData),
{
    let u = reader.read_u32()?;
    let v = u as i32;
    proof {
        assert(u < 0x8000_0000 ==> v == u) by (bit_vector)
            requires
                v == u as i32,
        ;
        assert(u >= 0x8000_0000 ==> v == u - 0x1_0000_0000) by (bit_vector)
            requires
                v == u as i32,
        ;
    }
    Ok(v)
}

/// Reads a little-endian u32.
pub fn read_u32(reader: &mut Reader<'_>) -> (r: Result<u32, ReaderErr>)
    ensures
        old(reader).rest().len() >= 4 ==> (r matches Ok(v) && v == le32(
            old(reader).rest()[0],
            old(reader).rest()[1],
            old(reader).rest()[2],
            old(reader).rest()[3],
        ) && final(reader).rest() == old(reader).rest().skip(4)),
        old(reader).rest().len() < 4 ==> r == Err::<u32, ReaderErr>(ReaderErr::NotEnoughData),
{
    reader.read_u32()
}

/// The two's-complement `i32` reading of a 32-bit pattern.
pub open spec fn i32_of(u: int) -> int {
    if u < 0x8000_0000 {
        u
    } else {
        u - 0x1_0000_0000
    }
}

/// An inverse prediction transform for N-component values.
#[derive(Debug, Clone, Copy, PartialEq, Eq, Structural)]
pub enum InverseTransform {
    /// The correction is the value.
    NoTransform,
    /// The value is prediction plus correction.
    Difference,
    /// Prediction (clamped into `[min, max]`) plus correction, wrapped back
    /// into `[min, max]` by `max_diff = max - min + 1`.
    WrappedDifference { min: i32, max: i32, max_diff: i32 },
}

/// Whether the bounds of a wrapped difference at the start of `s` give a
/// range size that fits an `i32`.
pub open spec fn wrap_bounds_fit(s: Seq<u8>) -> bool {
    s.len() >= 8 ==> {
        let lo = i32_of(le32(s[0], s[1], s[2], s[3]));
        let hi = i32_of(le32(s[4], s[5], s[6], s[7]));
        i32::MIN <= hi - lo && hi - lo + 1 <= i32::MAX
    }
}

/// `p` clamped into `[lo, hi]`.
pub open spec fn clamp_spec(p: int, lo: int, hi: int) -> int {
    if p < lo {
        lo
    } else if p > hi {
        hi
    } else {
        p
    }
}

/// The value `transform` reconstructs from correction code `c` and
/// prediction `p`.
pub open spec fn inverse_value(transform: InverseTransform, c: i32, p: i32) -> int {
    match transform {
        InverseTransform::NoTransform => from_positive_spec(c as int),
        InverseTransform::Difference => from_positive_spec(c as int) + p,
        InverseTransform::WrappedDifference { min, max, max_diff } => {
            let v = clamp_spec(p as int, min as int, max as int) + from_positive_spec(c as int);
            if v > max {
                v - max_diff
            } else if v < min {
                v + max_diff
            } else {
                v
            }
        },
    }
}

/// Whether reconstructing from `c` and `p` stays within `i32` at every step
/// (and, when wrapping, the bounds are ordered).
pub open spec fn inverse_fits(transform: InverseTransform, c: i32, p: i32) -> bool {
    match transform {
        InverseTransform::NoTransform => true,
        InverseTransform::Difference => i32::MIN <= from_positive_spec(c as int) + p <= i32::MAX,
        InverseTransform::WrappedDifference { min, max, max_diff } => {
            let v = clamp_spec(p as int, min as int, max as int) + from_positive_spec(c as int);
            &&& min <= max
            &&& i32::MIN <= v <= i32::MAX
            &&& i32::MIN <= inverse_value(transform, c, p) <= i32::MAX
        },
    }
}

impl InverseTransform {
    /// Reads the parameters of `kind`: the wrapped difference stores its
    /// `min` and `max` as little-endian i32s; the octahedral and orthogonal
    /// kinds are not handled here.
    pub fn read(reader: &mut Reader<'_>, kind: InverseTransformKind) -> (r: Result<Self, TransformErr>)
        ensures
            kind == InverseTransformKind::NoTransform ==> r == Ok::<Self, TransformErr>(InverseTransform::NoTransform),
            kind == InverseTransformKind::Difference ==> r == Ok::<Self, TransformErr>(InverseTransform::Difference),
            kind == InverseTransformKind::WrappedDifference ==> ({
                let s = old(reader).rest();
                if s.len() >= 8 {
                    let lo = i32_of(le32(s[0], s[1], s[2], s[3]));
                    let hi = i32_of(le32(s[4], s[5], s[6], s[7]));
                    if wrap_bounds_fit(s) {
                        r matches Ok(InverseTransform::WrappedDifference { min, max, max_diff }) && min == lo
                            && max == hi && max_diff == hi - lo + 1 && final(reader).rest() == s.skip(8)
                    } else {
                        r == Err::<Self, TransformErr>(TransformErr::BoundsOverflow)
                    }
                } else {
                    r == Err::<Self, TransformErr>(TransformErr::Reader(ReaderErr::NotEnoughData))
                }
            }),
            (kind == InverseTransformKind::OctahedralOrthogonal || kind == InverseTransformKind::OctahedralReflection
                || kind == InverseTransformKind::Orthogonal) ==> r == Err::<Self, TransformErr>(TransformErr::OctahedralTodo),
    {
        match kind {
            InverseTransformKind::NoTransform => Ok(Self::NoTransform),
            InverseTransformKind::Difference => Ok(Self::Difference),
            InverseTransformKind::WrappedDifference => {
                let ghost s = reader.rest();
                let min = match read_i32(reader) {
                    Ok(v) => v,
                    Err(e) => return Err(TransformErr::Reader(e)),
                };
                let ghost s1 = reader.rest();
                let max = match read_i32(reader) {
                    Ok(v) => v,
                    Err(e) => return Err(TransformErr::Reader(e)),
                };
                proof {
                    assert(s1 == s.skip(4));
                    assert(s1[0] == s[4] && s1[1] == s[5] && s1[2] == s[6] && s1[3] == s[7]);
                    assert(s1.skip(4) =~= s.skip(8));
                }
                let d = max as i64 - min as i64;
                if d < i32::MIN as i64 || d + 1 > i32::MAX as i64 {
                    return Err(TransformErr::BoundsOverflow);
                }
                let max_diff = 1 + (max - min);
                Ok(Self::WrappedDifference { min, max, max_diff })
            },
            _ => Err(TransformErr::OctahedralTodo),
        }
    }

    /// Reconstructs each component from its correction code and prediction.
    pub fn inverse_n(&self, corr_positive: &[i32], pred: &[i32], out: &mut Vec<i32>)
        requires
            corr_positive@.len() == pred@.len(),
            corr_positive@.len() == old(out)@.len(),
            forall|i: int| 0 <= i < pred@.len() ==> #[trigger] inverse_fits(*self, corr_positive@[i], pred@[i]),
        ensures
            final(out)@.len() == old(out)@.len(),
            forall|i: int| 0 <= i < pred@.len() ==> #[trigger] final(out)@[i] == inverse_value(*self, corr_positive@[i], pred@[i]),
    {
        let n = corr_positive.len();
        let mut i: usize = 0;
        while i < n
            invariant
                n == corr_positive@.len(),
                n == pred@.len(),
                out@.len() == n,
                i <= n,
                forall|j: int| 0 <= j < n ==> #[trigger] inverse_fits(*self, corr_positive@[j], pred@[j]),
                forall|j: int| 0 <= j < i ==> #[trigger] out@[j] == inverse_value(*self, corr_positive@[j], pred@[j]),
            decreases n - i,
        {
            let c = corr_positive[i];
            let p = pred[i];
            proof {
                assert(inverse_fits(*self, corr_positive@[i as int], pred@[i as int]));
            }
            let corr = from_positive_i32(c);
            let v = match *self {
                InverseTransform::NoTransform => corr,
                InverseTransform::Difference => corr + p,
                InverseTransform::WrappedDifference { min, max, max_diff } => {
                    let pred_clamped = if p < min {
                        min
                    } else if p > max {
                        max
                    } else {
                        p
                    };
                    let val = pred_clamped + corr;
                    if val > max {
                        val - max_diff
                    } else if val < min {
                        val + max_diff
                    } else {
                        val
                    }
                },
            };
            out.set(i, v);
            i += 1;
        }
    }
}

/// `x` folded back by `max` when it leaves `[-center, center]`.
pub open spec fn mod_max_spec(x: int, center: int, max: int) -> int {
    if x > center {
        x - max
    } else if x < -center {
        x + max
    } else {
        x
    }
}

/// Folds `x` back into `[-center, center]` by one period `max`.
pub fn mod_max(x: i32, center: i32, max: i32) -> (r: i32)
    requires
        i32::MIN <= mod_max_spec(x as int, center as int, max as int) <= i32::MAX,
        center >= 0,
    ensures
        r == mod_max_spec(x as int, center as int, max as int),
{
    if x > center {
        x - max
    } else if x < -center {
        x + max
    } else {
        x
    }
}

/// The number of quarter turns that brings `(s, t)` into the bottom-left
/// quadrant.
pub open spec fn rotation_count_spec(s: int, t: int) -> u32 {
    if s == 0 {
        if t > 0 {
            3
        } else if t < 0 {
            1
        } else {
            0
        }
    } else if s > 0 {
        if t >= 0 {
            2
        } else {
            1
        }
    } else if t > 0 {
        3
    } else {
        0
    }
}

/// The number of quarter turns that brings `(s, t)` into the bottom-left
/// quadrant.
pub fn rotation_count(s: i32, t: i32) -> (r: u32)
    ensures
        r == rotation_count_spec(s as int, t as int),
{
    if s == 0 {
        if t > 0 {
            3
        } else if t < 0 {
            1
        } else {
            0
        }
    } else if s > 0 {
        if t >= 0 {
            2
        } else {
            1
        }
    } else if t > 0 {
        3
    } else {
        0
    }
}

/// `(s, t)` turned by `count` quarter turns.
pub open spec fn rotate_spec(s: int, t: int, count: u32) -> (int, int) {
    if count == 1 {
        (t, -s)
    } else if count == 2 {
        (-s, -t)
    } else if count == 3 {
        (-t, s)
    } else {
        (s, t)
    }
}

/// Turns `(s, t)` by `count` quarter turns.
pub fn rotate_point(s: i32, t: i32, count: u32) -> (r: (i32, i32))
    requires
        s > i32::MIN,
        t > i32::MIN,
    ensures
        (r.0 as int, r.1 as int) == rotate_spec(s as int, t as int, count),
{
    match count {
        1 => (t, -s),
        2 => (-s, -t),
        3 => (-t, s),
        _ => (s, t),
    }
}

/// Turning back by the complementary count undoes a rotation.
pub proof fn lemma_rotate_back(s: int, t: int, count: u32)
    requires
        count < 4,
    ensures
        ({
            let (a, b) = rotate_spec(s, t, count);
            rotate_spec(a, b, ((4 - count) % 4) as u32)
        }) == (s, t),
{
}

/// The diamond inversion of `(s, t)` with half-size `center`: the point is
/// reflected across the diamond edge of its quadrant (both signs tie to the
/// quadrant where they agree).
pub open spec fn invert_diamond_spec(s: int, t: int, center: int) -> (int, int) {
    if s >= 0 && t >= 0 {
        (center - t, center - s)
    } else if s <= 0 && t <= 0 {
        (-center - t, -center - s)
    } else if s > 0 {
        (t + center, s - center)
    } else {
        (t - center, s + center)
    }
}

/// Folds a point outside the octahedral diamond inside, and back.
pub fn invert_diamond(s: i32, t: i32, center: i32) -> (r: (i32, i32))
    requires
        in_grid(s as int),
        in_grid(t as int),
        0 <= center <= GRID_MAX,
    ensures
        (r.0 as int, r.1 as int) == invert_diamond_spec(s as int, t as int, center as int),
        in_grid(r.0 as int),
        in_grid(r.1 as int),
{
    let (sign_s, sign_t): (i32, i32) = if s >= 0 && t >= 0 {
        (1, 1)
    } else if s <= 0 && t <= 0 {
        (-1, -1)
    } else {
        (if s > 0 { 1 } else { -1 }, if t > 0 { 1 } else { -1 })
    };
    let corner_s = if sign_s > 0 { center } else { -center };
    let corner_t = if sign_t > 0 { center } else { -center };
    let mut us = s * 2 - corner_s;
    let mut ut = t * 2 - corner_t;
    if (sign_s > 0) == (sign_t > 0) {
        let tmp = us;
        us = -ut;
        ut = -tmp;
    } else {
        let tmp = us;
        us = ut;
        ut = tmp;
    }
    let a = us + corner_s;
    let b = ut + corner_t;
    proof {
        assert(a % 2 == 0 && b % 2 == 0);
    }
    (a / 2, b / 2)
}

/// Whether the diamond inversion undoes itself at `(s, t)`: inside the
/// octahedral square of half-size `center`, except on the edges where the
/// folded point changes quadrant.
pub open spec fn diamond_involutive_at(s: int, t: int, center: int) -> bool {
    &&& center >= 1
    &&& -center <= s <= center
    &&& -center <= t <= center
    &&& !(s == -center && (t == -center || t >= 1))
    &&& !(t == center && s <= -1)
    &&& !(t == -center && s >= 1)
    &&& !(s == center && t <= -1)
}

/// The diamond inversion is its own inverse inside the octahedral square,
/// away from the edges named in [`diamond_involutive_at`].
pub proof fn lemma_invert_diamond_involutive(s: int, t: int, center: int)
    requires
        diamond_involutive_at(s, t, center),
    ensures
        ({
            let (a, b) = invert_diamond_spec(s, t, center);
            invert_diamond_spec(a, b, center)
        }) == (s, t),
{

}

/// The largest value of a 30-bit octahedral grid.
pub const GRID_MAX: i32 = 0x3FFF_FFFF;

/// Whether `x` lies within `±GRID_MAX`, where every intermediate of the
/// octahedral transforms stays for grids of up to 30 bits.
pub open spec fn in_grid(x: int) -> bool {
    -GRID_MAX <= x <= GRID_MAX
}

/// `|x|`.
pub open spec fn abs_spec(x: int) -> int {
    if x < 0 {
        -x
    } else {
        x
    }
}

/// The canonical form of a prediction `(s, t)` relative to the grid center:
/// whether it was inside the diamond, whether it was in the bottom-left
/// quadrant, the turn count, and the folded and turned point.
pub open spec fn canon_spec(s: int, t: int, center: int) -> (bool, bool, u32, int, int) {
    let in_diamond = abs_spec(s) + abs_spec(t) <= center;
    let (s1, t1) = if in_diamond {
        (s, t)
    } else {
        invert_diamond_spec(s, t, center)
    };
    let bottom_left = (s1 == 0 && t1 == 0) || (s1 < 0 && t1 <= 0);
    let rot = rotation_count_spec(s1, t1);
    let (s2, t2) = if bottom_left {
        (s1, t1)
    } else {
        rotate_spec(s1, t1, rot)
    };
    (in_diamond, bottom_left, rot, s2, t2)
}

/// Undoes the turning and folding of [`canon_spec`] on `(o0, o1)`.
pub open spec fn uncanon_spec(o0: int, o1: int, center: int, in_diamond: bool, bottom_left: bool, rot: u32) -> (int, int) {
    let (o2, o3) = if bottom_left {
        (o0, o1)
    } else {
        rotate_spec(o0, o1, ((4 - rot) % 4) as u32)
    };
    if in_diamond {
        (o2, o3)
    } else {
        invert_diamond_spec(o2, o3, center)
    }
}

/// The octahedral orthogonal inverse of correction `(c0, c1)` against
/// prediction `(p0, p1)`: the prediction is moved relative to `center`,
/// folded into the diamond and turned into the bottom-left quadrant; the
/// correction is added modulo `max`; the folding and turning are undone.
pub open spec fn oct_inverse_spec(center: int, max: int, c0: int, c1: int, p0: int, p1: int) -> (int, int) {
    let (in_diamond, bottom_left, rot, s2, t2) = canon_spec(p0 - center, p1 - center, center);
    let o0 = mod_max_spec(s2 + c0, center, max);
    let o1 = mod_max_spec(t2 + c1, center, max);
    let (o4, o5) = uncanon_spec(o0, o1, center, in_diamond, bottom_left, rot);
    (o4 + center, o5 + center)
}

/// Whether the octahedral orthogonal inverse of correction `(c0, c1)`
/// against prediction `(p0, p1)` stays within `i32` throughout: the grid
/// and the prediction lie within a 30-bit grid around `center`, and each
/// corrected component, before and after folding by `max`, does too.
pub open spec fn oct_fits(center: int, max: int, c0: int, c1: int, p0: int, p1: int) -> bool {
    let (in_diamond, bottom_left, rot, s2, t2) = canon_spec(p0 - center, p1 - center, center);
    &&& 0 <= center <= GRID_MAX
    &&& 0 <= max <= GRID_MAX
    &&& in_grid(p0 - center)
    &&& in_grid(p1 - center)
    &&& i32::MIN <= s2 + c0 <= i32::MAX
    &&& i32::MIN <= t2 + c1 <= i32::MAX
    &&& in_grid(mod_max_spec(s2 + c0, center, max))
    &&& in_grid(mod_max_spec(t2 + c1, center, max))
}

/// Folds and turns a prediction into the canonical bottom-left quadrant.
pub(crate) fn canonicalize(s: i32, t: i32, center: i32) -> (r: (bool, bool, u32, i32, i32))
    requires
        in_grid(s as int),
        in_grid(t as int),
        0 <= center <= GRID_MAX,
    ensures
        (r.0, r.1, r.2, r.3 as int, r.4 as int) == canon_spec(s as int, t as int, center as int),
        in_grid(r.3 as int),
        in_grid(r.4 as int),
        r.2 < 4,
{
    let abs_s = if s < 0 { -s } else { s };
    let abs_t = if t < 0 { -t } else { t };
    let in_diamond = abs_s + abs_t <= center;
    let (s1, t1) = if in_diamond {
        (s, t)
    } else {
        invert_diamond(s, t, center)
    };
    let bottom_left = (s1 == 0 && t1 == 0) || (s1 < 0 && t1 <= 0);
    let rot = rotation_count(s1, t1);
    let (s2, t2) = if bottom_left {
        (s1, t1)
    } else {
        rotate_point(s1, t1, rot)
    };
    (in_diamond, bottom_left, rot, s2, t2)
}

/// Undoes [`canonicalize`] on a reconstructed point.
pub(crate) fn uncanonicalize(o0: i32, o1: i32, center: i32, in_diamond: bool, bottom_left: bool, rot: u32) -> (r: (i32, i32))
    requires
        in_grid(o0 as int),
        in_grid(o1 as int),
        0 <= center <= GRID_MAX,
        rot < 4,
    ensures
        (r.0 as int, r.1 as int) == uncanon_spec(o0 as int, o1 as int, center as int, in_diamond, bottom_left, rot),
        in_grid(r.0 as int),
        in_grid(r.1 as int),
{
    let k: u32 = 4 - rot;
    let back: u32 = k & 3;
    proof {
        assert(k & 3 == k % 4) by (bit_vector);
    }
    let (o2, o3) = if bottom_left {
        (o0, o1)
    } else {
        rotate_point(o0, o1, back)
    };
    if in_diamond {
        (o2, o3)
    } else {
        invert_diamond(o2, o3, center)
    }
}

/// The octahedral orthogonal inverse transform for 2-component normals.
#[derive(Debug, Clone, Copy)]
pub struct OctahedralOrthogonalInverseTransform {
    /// The period of the octahedral grid.
    pub max_quantized_value: i32,
    /// The grid center.
    pub center_value: i32,
}


impl OctahedralOrthogonalInverseTransform {
    /// Reads the grid period and center, each a little-endian u32 taken as
    /// an i32.
    pub fn read(reader: &mut Reader<'_>) -> (r: Result<Self, TransformErr>)
        ensures
            ({
                let s = old(reader).rest();
                if s.len() >= 8 {
                    r matches Ok(t) && t.max_quantized_value == i32_of(le32(s[0], s[1], s[2], s[3]))
                        && t.center_value == i32_of(le32(s[4], s[5], s[6], s[7])) && final(reader).rest() == s.skip(8)
                } else {
                    r == Err::<Self, TransformErr>(TransformErr::Reader(ReaderErr::NotEnoughData))
                }
            }),
    {
        let ghost s = reader.rest();
        let max_quantized_value = match read_i32(reader) {
            Ok(v) => v,
            Err(e) => return Err(TransformErr::Reader(e)),
        };
        let ghost s1 = reader.rest();
        let center_value = match read_i32(reader) {
            Ok(v) => v,
            Err(e) => return Err(TransformErr::Reader(e)),
        };
        proof {
            assert(s1 == s.skip(4));
            assert(s1[0] == s[4] && s1[1] == s[5] && s1[2] == s[6] && s1[3] == s[7]);
            assert(s1.skip(4) =~= s.skip(8));
        }
        Ok(Self { max_quantized_value, center_value })
    }

    /// Reconstructs a normal from its raw correction and its prediction.
    pub fn inverse(&self, corr: &[i32; 2], pred: &[i32; 2]) -> (r: [i32; 2])
        requires
            oct_fits(
                self.center_value as int,
                self.max_quantized_value as int,
                corr@[0] as int,
                corr@[1] as int,
                pred@[0] as int,
                pred@[1] as int,
            ),
        ensures
            (r@[0] as int, r@[1] as int) == oct_inverse_spec(
                self.center_value as int,
                self.max_quantized_value as int,
                corr@[0] as int,
                corr@[1] as int,
                pred@[0] as int,
                pred@[1] as int,
            ),
    {
        let center = self.center_value;
        let max = self.max_quantized_value;
        let (in_diamond, bottom_left, rot, s2, t2) = canonicalize(pred[0] - center, pred[1] - center, center);
        let o0 = mod_max(s2 + corr[0], center, max);
        let o1 = mod_max(t2 + corr[1], center, max);
        let (orig_s, orig_t) = uncanonicalize(o0, o1, center, in_diamond, bottom_left, rot);
        [orig_s + center, orig_t + center]
    }
}

} // verus!
