//! Attribute-section ids and integer helpers: traversal, portabilization and
//! prediction-scheme ids, correction streams, and octahedral coordinate
//! canonicalization.

use vstd::prelude::*;
use crate::entropy::{decode_symbol_values, symbols_parse};
use crate::error::{DecodeError, ReaderErr};
use crate::reader::{le_value, Reader};
use crate::decode::inverse_transform::{in_grid, GRID_MAX};

verus! {

/// Attribute decoding options. The attribute decoder has no runtime
/// configuration; the type exists so that callers can pass one.
#[derive(Debug, Clone, Copy, Default)]
pub struct Config {}

/// The id of delta prediction.
pub const DELTA_PREDICTION_ID: u8 = 0;

/// The id of parallelogram prediction.
pub const MESH_PARALLELOGRAM_PREDICTION_ID: u8 = 1;

/// The id of multi-parallelogram prediction.
pub const MESH_MULTI_PARALLELOGRAM_PREDICTION_ID: u8 = 2;

/// The id of constrained multi-parallelogram prediction.
pub const MESH_CONSTRAINED_MULTI_PARALLELOGRAM_PREDICTION_ID: u8 = 4;

/// The id of "no prediction".
pub const NO_PREDICTION_ID: u8 = 0xFE;

/// Failure on an attribute id.
#[derive(Debug, Clone, Copy, PartialEq, Eq)]
pub enum AttributeIdErr {
    /// The traversal id is not known.
    InvalidTraversalType(u8),
    /// The portabilization id is not known.
    InvalidPortabilizationType(u8),
    /// The prediction scheme is not handled.
    PredictionSchemeTodo(u8),
    /// The deportabilization id is not known.
    InvalidId(u8),
}

/// The order attribute values are visited in.
#[derive(Debug, Clone, Copy, PartialEq, Eq, Structural)]
pub enum TraversalType {
    /// Id 0.
    DepthFirst,
    /// Id 1.
    PredictionDegree,
}

impl TraversalType {
    /// The traversal for a wire id.
    pub fn from_id(id: u8) -> (r: Result<Self, AttributeIdErr>)
        ensures
            id == 0 ==> r == Ok::<Self, AttributeIdErr>(TraversalType::DepthFirst),
            id == 1 ==> r == Ok::<Self, AttributeIdErr>(TraversalType::PredictionDegree),
            id > 1 ==> r == Err::<Self, AttributeIdErr>(AttributeIdErr::InvalidTraversalType(id)),
    {
        match id {
            0 => Ok(Self::DepthFirst),
            1 => Ok(Self::PredictionDegree),
            _ => Err(AttributeIdErr::InvalidTraversalType(id)),
        }
    }
}

/// How an attribute's values were made portable.
#[derive(Debug, Clone, Copy, PartialEq, Eq, Structural)]
pub enum PortabilizationType {
    /// Id 0: values stored verbatim.
    Generic,
    /// Id 1: integer values.
    ToBits,
    /// Id 2: coordinate-wise quantization.
    QuantizationCoordinateWise,
    /// Id 3: octahedral quantization.
    OctahedralQuantization,
}

impl PortabilizationType {
    /// The portabilization for a wire id.
    pub fn from_id(id: u8) -> (r: Result<Self, AttributeIdErr>)
        ensures
            id == 0 ==> r == Ok::<Self, AttributeIdErr>(PortabilizationType::Generic),
            id == 1 ==> r == Ok::<Self, AttributeIdErr>(PortabilizationType::ToBits),
            id == 2 ==> r == Ok::<Self, AttributeIdErr>(PortabilizationType::QuantizationCoordinateWise),
            id == 3 ==> r == Ok::<Self, AttributeIdErr>(PortabilizationType::OctahedralQuantization),
            id > 3 ==> r == Err::<Self, AttributeIdErr>(AttributeIdErr::InvalidPortabilizationType(id)),
    {
        match id {
            0 => Ok(Self::Generic),
            1 => Ok(Self::ToBits),
            2 => Ok(Self::QuantizationCoordinateWise),
            3 => Ok(Self::OctahedralQuantization),
            _ => Err(AttributeIdErr::InvalidPortabilizationType(id)),
        }
    }
}

/// The position prediction schemes the integer path handles.
#[derive(Debug, Clone, Copy, PartialEq, Eq, Structural)]
pub enum PositionPredictionScheme {
    /// Delta from the previous value (also for "no prediction").
    Delta,
    /// Parallelogram prediction.
    Parallelogram,
    /// Multi-parallelogram prediction.
    MultiParallelogram,
    /// Constrained multi-parallelogram prediction.
    ConstrainedMultiParallelogram,
}

impl PositionPredictionScheme {
    /// The scheme for a wire id.
    pub fn from_id(id: u8) -> (r: Result<Self, AttributeIdErr>)
        ensures
            (id == DELTA_PREDICTION_ID || id == NO_PREDICTION_ID) ==> r == Ok::<Self, AttributeIdErr>(PositionPredictionScheme::Delta),
            id == MESH_PARALLELOGRAM_PREDICTION_ID ==> r == Ok::<Self, AttributeIdErr>(PositionPredictionScheme::Parallelogram),
            id == MESH_MULTI_PARALLELOGRAM_PREDICTION_ID ==> r == Ok::<Self, AttributeIdErr>(PositionPredictionScheme::MultiParallelogram),
            id == MESH_CONSTRAINED_MULTI_PARALLELOGRAM_PREDICTION_ID ==> r == Ok::<Self, AttributeIdErr>(PositionPredictionScheme::ConstrainedMultiParallelogram),
            !(id == 0 || id == 1 || id == 2 || id == 4 || id == 0xFE) ==> r == Err::<Self, AttributeIdErr>(AttributeIdErr::PredictionSchemeTodo(id)),
    {
        if id == DELTA_PREDICTION_ID || id == NO_PREDICTION_ID {
            Ok(Self::Delta)
        } else if id == MESH_PARALLELOGRAM_PREDICTION_ID {
            Ok(Self::Parallelogram)
        } else if id == MESH_MULTI_PARALLELOGRAM_PREDICTION_ID {
            Ok(Self::MultiParallelogram)
        } else if id == MESH_CONSTRAINED_MULTI_PARALLELOGRAM_PREDICTION_ID {
            Ok(Self::ConstrainedMultiParallelogram)
        } else {
            Err(AttributeIdErr::PredictionSchemeTodo(id))
        }
    }
}

/// How portable values are turned back into attribute values.
#[derive(Debug, Clone, Copy, PartialEq, Eq, Structural)]
pub enum DeportabilizationKind {
    /// Id 1.
    ToBits,
    /// Id 2.
    QuantizationCoordinateWise,
    /// Id 3.
    OctahedralQuantization,
}

impl DeportabilizationKind {
    /// The deportabilization for a wire id.
    pub fn from_id(id: u8) -> (r: Result<Self, AttributeIdErr>)
        ensures
            id == 1 ==> r == Ok::<Self, AttributeIdErr>(DeportabilizationKind::ToBits),
            id == 2 ==> r == Ok::<Self, AttributeIdErr>(DeportabilizationKind::QuantizationCoordinateWise),
            id == 3 ==> r == Ok::<Self, AttributeIdErr>(DeportabilizationKind::OctahedralQuantization),
            (id == 0 || id > 3) ==> r == Err::<Self, AttributeIdErr>(AttributeIdErr::InvalidId(id)),
    {
        match id {
            1 => Ok(Self::ToBits),
            2 => Ok(Self::QuantizationCoordinateWise),
            3 => Ok(Self::OctahedralQuantization),
            _ => Err(AttributeIdErr::InvalidId(id)),
        }
    }
}

/// `n` raw little-endian values of `w` bytes each at the start of `s`.
pub open spec fn raw_values(s: Seq<u8>, n: nat, w: nat) -> Seq<u64> {
    Seq::new(n, |i: int| le_value(s.skip(i * w), w) as u64)
}

/// How a correction stream at the start of `s` decodes: a flag byte; when
/// set, an entropy-coded symbol stream; otherwise a byte width `w` and
/// `num_symbols` raw values of `w` bytes.
pub open spec fn corrections_parse(s: Seq<u8>, num_symbols: nat, num_components: nat) -> Option<(Seq<u64>, nat)> {
    if s.len() < 1 {
        None
    } else if s[0] != 0 {
        match symbols_parse(s.skip(1), num_symbols, num_components) {
            Some((v, k)) => Some((v, k + 1)),
            None => None,
        }
    } else if s.len() < 2 || s.len() < 2 + num_symbols * s[1] {
        None
    } else {
        Some((raw_values(s.skip(2), num_symbols, s[1] as nat), (2 + num_symbols * s[1]) as nat))
    }
}

/// Whether raw corrections at the start of `s` use at most four bytes each
/// (wider values overflow their 32-bit accumulator).
pub open spec fn corrections_width_fits(s: Seq<u8>, num_symbols: nat) -> bool {
    s.len() >= 2 && s[0] == 0 && num_symbols > 0 ==> s[1] <= 4
}

/// Reads one raw value of `w` bytes, little-endian.
fn read_raw_value(reader: &mut Reader<'_>, w: u8) -> (r: Result<u64, DecodeError>)
    requires
        w <= 4,
    ensures
        old(reader).rest().len() >= w ==> (r matches Ok(v) && v == le_value(old(reader).rest(), w as nat)
            && final(reader).rest() == old(reader).rest().skip(w as int)),
        old(reader).rest().len() < w ==> r is Err,
{
    let ghost s0 = reader.rest();
    let bytes = match reader.read_bytes(w as usize) {
        Ok(b) => b,
        Err(e) => return Err(DecodeError::Reader(e)),
    };
    let mut v: u64 = 0;
    let mut i: usize = w as usize;
    proof {
        vstd::arithmetic::power2::lemma2_to64();
    }
    while i > 0
        invariant
            i <= w <= 4,
            bytes@.len() == w,
            v == le_value(bytes@.skip(i as int), (w - i) as nat),
            v < vstd::arithmetic::power2::pow2(8 * (w - i) as nat),
        decreases i,
    {
        proof {
            vstd::arithmetic::power2::lemma2_to64();
            assert(bytes@.skip(i - 1).drop_first() =~= bytes@.skip(i as int));
            vstd::arithmetic::power2::lemma_pow2_adds(8, 8 * (w - i) as nat);
        }
        v = bytes[i - 1] as u64 + 256 * v;
        i -= 1;
    }
    proof {
        assert(bytes@.skip(0) =~= bytes@);
        lemma_le_value_take(s0, w as nat);
    }
    Ok(v)
}

/// The value of the first `n` bytes does not depend on what follows.
proof fn lemma_le_value_take(s: Seq<u8>, n: nat)
    requires
        n <= s.len(),
    ensures
        le_value(s.take(n as int), n) == le_value(s, n),
    decreases n,
{
    if n > 0 {
        assert(s.take(n as int).drop_first() =~= s.drop_first().take(n - 1));
        lemma_le_value_take(s.drop_first(), (n - 1) as nat);
    }
}

/// Reads a correction stream of `num_symbols` values.
pub fn read_corrections(num_symbols: usize, num_components: usize, reader: &mut Reader<'_>) -> (r: Result<Vec<u64>, DecodeError>)
    ensures
        !corrections_width_fits(old(reader).rest(), num_symbols as nat) ==> r == Err::<Vec<u64>, DecodeError>(
            DecodeError::MalformedAttribute("correction values wider than four bytes"),
        ),
        corrections_width_fits(old(reader).rest(), num_symbols as nat) ==> match corrections_parse(old(reader).rest(), num_symbols as nat, num_components as nat) {
            Some((v, k)) => r matches Ok(out) && out@ == v && final(reader).rest() == old(reader).rest().skip(k as int),
            None => r is Err,
        },
{
    let ghost s0 = reader.rest();
    let compressed = match reader.read_u8() {
        Ok(b) => b,
        Err(e) => return Err(DecodeError::Reader(e)),
    };
    if compressed != 0 {
        let out = decode_symbol_values(reader, num_symbols, num_components)?;
        proof {
            if let Some((v, k)) = symbols_parse(s0.skip(1), num_symbols as nat, num_components as nat) {
                assert(s0.skip(1).skip(k as int) =~= s0.skip((k + 1) as int));
            }
        }
        return Ok(out);
    }
    let num_bytes = match reader.read_u8() {
        Ok(b) => b,
        Err(e) => return Err(DecodeError::Reader(e)),
    };
    let ghost s2 = reader.rest();
    proof {
        assert(s2 =~= s0.skip(2));
    }
    if num_symbols > 0 && num_bytes > 4 {
        return Err(DecodeError::MalformedAttribute("correction values wider than four bytes"));
    }
    let mut out: Vec<u64> = Vec::new();
    let mut i: usize = 0;
    while i < num_symbols
        invariant
            i <= num_symbols,
            num_symbols > 0 ==> num_bytes <= 4,
            s2 == s0.skip(2),
            s0.len() >= 2,
            s0 == old(reader).rest(),
            s0[0] == 0,
            s0[1] == num_bytes,
            reader.rest() == s2.skip(i * num_bytes),
            i * num_bytes <= s2.len(),
            out@ == raw_values(s2, num_symbols as nat, num_bytes as nat).take(i as int),
        decreases num_symbols - i,
    {
        let ghost cur = reader.rest();
        if reader.remaining() < num_bytes as usize {
            proof {
                assert(s2.len() < (i + 1) * num_bytes) by (nonlinear_arith)
                    requires
                        cur.len() < num_bytes,
                        cur.len() == s2.len() - i * num_bytes,
                ;
                assert(num_symbols * num_bytes >= (i + 1) * num_bytes) by (nonlinear_arith)
                    requires
                        i + 1 <= num_symbols,
                ;
            }
            return Err(DecodeError::Reader(ReaderErr::NotEnoughData));
        }
        let v = read_raw_value(reader, num_bytes)?;
        proof {
            assert(cur == s2.skip(i * num_bytes));
            assert(s2.skip(i * num_bytes).skip(num_bytes as int) =~= s2.skip((i + 1) * num_bytes)) by {
                assert((i + 1) * num_bytes == i * num_bytes + num_bytes) by (nonlinear_arith);
            }
            assert((i + 1) * num_bytes == i * num_bytes + num_bytes) by (nonlinear_arith);
        }
        out.push(v);
        proof {
            assert(out@ =~= raw_values(s2, num_symbols as nat, num_bytes as nat).take(i + 1));
        }
        i += 1;
    }
    proof {
        assert(out@ =~= raw_values(s2, num_symbols as nat, num_bytes as nat));
        assert(i * num_bytes == num_symbols * num_bytes);
        assert(s2.skip(i * num_bytes) =~= s0.skip(2 + num_symbols * num_bytes));
    }
    Ok(out)
}

/// `|x|`.
pub open spec fn iabs(x: int) -> int {
    if x < 0 {
        -x
    } else {
        x
    }
}

/// Snaps octahedral coordinates on the square's edges to their canonical
/// twins: the four corners to `(max, max)`, and each edge's half beyond the
/// center mirrored onto the other half.
pub open spec fn canonical_oct(s: int, t: int, center: int, max: int) -> (int, int) {
    if (s == 0 && (t == 0 || t == max)) || (s == max && t == 0) {
        (max, max)
    } else if s == 0 && t > center {
        (s, center - (t - center))
    } else if s == max && t < center {
        (s, center + (center - t))
    } else if t == max && s < center {
        (center + (center - s), t)
    } else if t == 0 && s > center {
        (center - (s - center), t)
    } else {
        (s, t)
    }
}

/// The octahedral coordinates of an integer vector whose components sum in
/// magnitude to `center`, before canonicalization.
pub open spec fn oct_coords(x: int, y: int, z: int, center: int, max: int) -> (int, int) {
    if x >= 0 {
        (y + center, z + center)
    } else {
        (
            if y < 0 { iabs(z) } else { max - iabs(z) },
            if z < 0 { iabs(y) } else { max - iabs(y) },
        )
    }
}

/// The largest center of a 30-bit octahedral grid.
pub const HALF_GRID_MAX: i32 = 0x1FFF_FFFF;

/// Whether `x` lies within `±HALF_GRID_MAX`, as the components of an
/// integer vector on a 30-bit octahedral grid do.
pub open spec fn in_half_grid(x: int) -> bool {
    -HALF_GRID_MAX <= x <= HALF_GRID_MAX
}

/// Maps an integer vector to canonical quantized octahedral coordinates.
pub fn integer_vector_to_quantized_oct(int_vec: [i32; 3], center_value: i32, max_value: i32) -> (r: [i32; 2])
    requires
        in_half_grid(int_vec@[0] as int),
        in_half_grid(int_vec@[1] as int),
        in_half_grid(int_vec@[2] as int),
        0 <= center_value <= HALF_GRID_MAX,
        0 <= max_value <= GRID_MAX,
    ensures
        ({
            let (s, t) = oct_coords(int_vec@[0] as int, int_vec@[1] as int, int_vec@[2] as int, center_value as int, max_value as int);
            (r@[0] as int, r@[1] as int) == canonical_oct(s, t, center_value as int, max_value as int)
        }),
{
    let x = int_vec[0];
    let y = int_vec[1];
    let z = int_vec[2];
    let ay = if y < 0 { -y } else { y };
    let az = if z < 0 { -z } else { z };
    let (s, t) = if x >= 0 {
        (y + center_value, z + center_value)
    } else {
        (if y < 0 { az } else { max_value - az }, if z < 0 { ay } else { max_value - ay })
    };
    let (s2, t2) = canonicalize_oct(s, t, center_value, max_value);
    [s2, t2]
}

/// Snaps coordinates on the octahedral square's edges to their canonical
/// twins.
fn canonicalize_oct(s: i32, t: i32, center: i32, max: i32) -> (r: (i32, i32))
    requires
        in_grid(s as int),
        in_grid(t as int),
        0 <= center <= HALF_GRID_MAX,
        0 <= max <= GRID_MAX,
    ensures
        (r.0 as int, r.1 as int) == canonical_oct(s as int, t as int, center as int, max as int),
{
    if (s == 0 && (t == 0 || t == max)) || (s == max && t == 0) {
        (max, max)
    } else if s == 0 && t > center {
        (s, center - (t - center))
    } else if s == max && t < center {
        (s, center + (center - t))
    } else if t == max && s < center {
        (center + (center - s), t)
    } else if t == 0 && s > center {
        (center - (s - center), t)
    } else {
        (s, t)
    }
}

/// Snaps quantized octahedral coordinates `vec` on a grid of period `max`
/// to their canonical twins, with `max / 2` as the center.
pub fn into_faithful_oct_quantization(vec: [i32; 2], max: i32) -> (r: [i32; 2])
    requires
        in_grid(vec@[0] as int),
        in_grid(vec@[1] as int),
        0 <= max <= GRID_MAX,
    ensures
        (r@[0] as int, r@[1] as int) == canonical_oct(vec@[0] as int, vec@[1] as int, (max / 2) as int, max as int),
{
    let half = max / 2;
    let (x, y) = canonicalize_oct(vec[0], vec[1], half, max);
    [x, y]
}

} // verus!
