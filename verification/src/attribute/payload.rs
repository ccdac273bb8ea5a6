//! Attribute payload framing: the values of generic attributes, the
//! prediction scheme, transform and correction stream of predicted ones,
//! and the portabilization parameters that follow.

use vstd::prelude::*;
use crate::attribute::inverse_transform::{transform_parse, InverseTransform};
use crate::attribute::prediction::{
    crease_parse, decode_crease_metadata, decode_flip_metadata, decode_orientation_metadata,
    orientations, rabs_record, read_scheme_id, scheme_of, PredictionSchemeType, MAX_PARALLELOGRAMS,
};
use crate::decode::inverse_transform::{i32_of, read_i32};
use crate::decode::seams::rabs_bits;
use crate::entropy::{decode_symbol_values, lemma_symbols_parse_len, symbols_parse, unzigzag, unzigzag_spec};
use crate::error::{DecodeError, ReaderErr};
use crate::point_cloud::{component_supported, AttributeTransform, ComponentType};
use crate::reader::{le16, le32, Reader};

verus! {

/// Wire id of generic portabilization: values stored verbatim.
pub const PORT_GENERIC: u8 = 0;
/// Wire id of the integer codec.
pub const PORT_TO_BITS: u8 = 1;
/// Wire id of coordinate-wise quantization.
pub const PORT_QUANTIZATION_COORDINATE_WISE: u8 = 2;
/// Wire id of octahedral quantization.
pub const PORT_OCTAHEDRAL: u8 = 3;

/// The bytes one generic value of type `t` takes.
pub open spec fn raw_width(t: ComponentType) -> int {
    match t {
        ComponentType::I8 | ComponentType::U8 => 1,
        ComponentType::I16 | ComponentType::U16 => 2,
        _ => 4,
    }
}

/// Generic value `i` of type `t` at the start of `s`, widened into an i32.
pub open spec fn raw_value(t: ComponentType, s: Seq<u8>, i: int) -> int {
    let w = raw_width(t);
    let b = s.skip(i * w);
    match t {
        ComponentType::I8 => if b[0] < 128 {
            b[0] as int
        } else {
            b[0] - 256
        },
        ComponentType::U8 => b[0] as int,
        ComponentType::I16 => {
            let v = le16(b[0], b[1]);
            if v < 32768 {
                v
            } else {
                v - 65536
            }
        },
        ComponentType::U16 => le16(b[0], b[1]),
        _ => i32_of(le32(b[0], b[1], b[2], b[3])),
    }
}

/// Reads `num_values * n` generic values of `component_type`, widened into
/// i32s; the 64-bit types are refused.
pub fn read_raw_values(
    reader: &mut Reader<'_>,
    num_values: usize,
    n: usize,
    component_type: ComponentType,
) -> (r: Result<Vec<i32>, DecodeError>)
    requires
        num_values * n <= usize::MAX,
    ensures
        !component_supported(component_type) ==> r == Err::<Vec<i32>, DecodeError>(
            DecodeError::Unimplemented,
        ),
        component_supported(component_type) ==> ({
            let s = old(reader).rest();
            let count = num_values * n;
            let w = raw_width(component_type);
            if s.len() < count * w {
                r == Err::<Vec<i32>, DecodeError>(DecodeError::Reader(ReaderErr::NotEnoughData))
            } else {
                (r matches Ok(v) && v@.len() == count && (forall|i: int|
                    0 <= i < count ==> #[trigger] v@[i] as int == raw_value(component_type, s, i))
                    && final(reader).rest() == s.skip(count * w))
            }
        }),
{
    if !(match component_type {
        ComponentType::I64 | ComponentType::U64 | ComponentType::F64 => false,
        _ => true,
    }) {
        return Err(DecodeError::Unimplemented);
    }
    let ghost s = reader.rest();
    let ghost w = raw_width(component_type);
    let count = num_values * n;
    let mut out: Vec<i32> = Vec::new();
    let mut i: usize = 0;
    while i < count
        invariant
            component_supported(component_type),
            w == raw_width(component_type),
            s == old(reader).rest(),
            i <= count,
            count == num_values * n,
            out@.len() == i,
            s.len() >= i * w ==> reader.rest() == s.skip(i * w),
            s.len() >= i * w,
            forall|j: int| 0 <= j < i ==> #[trigger] out@[j] as int == raw_value(component_type, s, j),
        decreases count - i,
    {
        let ghost cur = reader.rest();
        proof {
            assert(s.skip(i * w) =~= cur);
        }
        let v: i32 = match component_type {
            ComponentType::I8 => {
                let b = match reader.read_u8() {
                    Ok(b) => b,
                    Err(e) => {
                        proof {
                            assert(s.len() < count * w) by (nonlinear_arith)
                                requires
                                    s.len() < i * w + w,
                                    i < count,
                                    w > 0,
                            ;
                        }
                        return Err(DecodeError::Reader(e));
                    },
                };
                if b < 128 {
                    b as i32
                } else {
                    b as i32 - 256
                }
            },
            ComponentType::U8 => {
                let b = match reader.read_u8() {
                    Ok(b) => b,
                    Err(e) => {
                        proof {
                            assert(s.len() < count * w) by (nonlinear_arith)
                                requires
                                    s.len() < i * w + w,
                                    i < count,
                                    w > 0,
                            ;
                        }
                        return Err(DecodeError::Reader(e));
                    },
                };
                b as i32
            },
            ComponentType::I16 => {
                let b = match reader.read_u16() {
                    Ok(b) => b,
                    Err(e) => {
                        proof {
                            assert(s.len() < count * w) by (nonlinear_arith)
                                requires
                                    s.len() < i * w + w,
                                    i < count,
                                    w > 0,
                            ;
                        }
                        return Err(DecodeError::Reader(e));
                    },
                };
                if b < 32768 {
                    b as i32
                } else {
                    b as i32 - 65536
                }
            },
            ComponentType::U16 => {
                let b = match reader.read_u16() {
                    Ok(b) => b,
                    Err(e) => {
                        proof {
                            assert(s.len() < count * w) by (nonlinear_arith)
                                requires
                                    s.len() < i * w + w,
                                    i < count,
                                    w > 0,
                            ;
                        }
                        return Err(DecodeError::Reader(e));
                    },
                };
                b as i32
            },
            _ => {
                let b = match read_i32(reader) {
                    Ok(b) => b,
                    Err(e) => {
                        proof {
                            assert(s.len() < count * w) by (nonlinear_arith)
                                requires
                                    s.len() < i * w + w,
                                    i < count,
                                    w > 0,
                            ;
                        }
                        return Err(DecodeError::Reader(e));
                    },
                };
                b
            },
        };
        proof {
            assert(cur.skip(w) =~= s.skip((i + 1) * w)) by {
                assert((i + 1) * w == i * w + w) by (nonlinear_arith);
            }
            assert((i + 1) * w == i * w + w) by (nonlinear_arith);
        }
        out.push(v);
        i = i + 1;
    }
    Ok(out)
}

/// The corrections a predicted payload carries, `count` of them at the
/// start of `s`: symbol-coded when `rans_flag` is set (each symbol taken
/// modulo `2^32` as an i32), else little-endian i32s; with the bytes they
/// span. `None` for a symbol stream that does not parse.
pub open spec fn corrections_parse(s: Seq<u8>, count: nat, nc: nat, rans_flag: u8) -> Option<
    (Seq<int>, nat),
> {
    if rans_flag != 0 {
        match symbols_parse(s, count, nc) {
            Some((v, k)) => Some((Seq::new(count, |i: int| i32_of(v[i] as int % 0x1_0000_0000)), k)),
            None => None,
        }
    } else if s.len() < 4 * count {
        None
    } else {
        Some((Seq::new(count, |i: int| raw_value(ComponentType::I32, s, i)), 4 * count))
    }
}

/// Reads `count` corrections in groups of `nc`.
fn read_correction_values(reader: &mut Reader<'_>, count: usize, nc: usize, rans_flag: u8) -> (r:
    Result<Vec<i32>, DecodeError>)
    requires
        count <= usize::MAX / 4,
    ensures
        match corrections_parse(old(reader).rest(), count as nat, nc as nat, rans_flag) {
            Some((v, k)) => (r matches Ok(out) && out@.len() == count && (forall|i: int|
                0 <= i < count ==> #[trigger] out@[i] as int == v[i]) && k <= old(reader).rest().len() && final(reader).rest() == old(reader).rest().skip(k as int)),
            None => r is Err,
        },
{
    if rans_flag != 0 {
        proof {
            lemma_symbols_parse_len(old(reader).rest(), count as nat, nc as nat);
        }
        let symbols = decode_symbol_values(reader, count, nc)?;
        let mut out: Vec<i32> = Vec::new();
        let mut i: usize = 0;
        while i < count
            invariant
                i <= count,
                symbols@.len() == count,
                out@.len() == i,
                forall|j: int|
                    0 <= j < i ==> #[trigger] out@[j] as int == i32_of(
                        symbols@[j] as int % 0x1_0000_0000,
                    ),
            decreases count - i,
        {
            let x = symbols[i];
            let u = #[verifier::truncate] (x as u32);
            let v = #[verifier::truncate] (u as i32);
            proof {
                assert(u == x % 0x1_0000_0000) by (bit_vector)
                    requires
                        u == x as u32,
                ;
                assert(u < 0x8000_0000 ==> v == u) by (bit_vector)
                    requires
                        v == u as i32,
                ;
                assert(u >= 0x8000_0000 ==> v == u - 0x1_0000_0000) by (bit_vector)
                    requires
                        v == u as i32,
                ;
            }
            out.push(v);
            i = i + 1;
        }
        Ok(out)
    } else {
        match read_raw_values(reader, count, 1, ComponentType::I32) {
            Ok(v) => Ok(v),
            Err(e) => Err(e),
        }
    }
}

/// `x` read as the 32-bit pattern of a zigzag code and unzigzagged.
pub open spec fn unzigzag_i32(x: int) -> int {
    unzigzag_spec(if x >= 0 {
        x
    } else {
        x + 0x1_0000_0000
    })
}

/// Undoes the zigzag mapping the encoder applies to unpredicted values.
fn unzigzag_all(vals: &mut Vec<i32>)
    ensures
        final(vals)@.len() == old(vals)@.len(),
        forall|i: int|
            0 <= i < old(vals)@.len() ==> #[trigger] final(vals)@[i] as int == unzigzag_i32(
                old(vals)@[i] as int,
            ),
{
    let ghost v0 = vals@;
    let mut i: usize = 0;
    while i < vals.len()
        invariant
            i <= vals@.len(),
            vals@.len() == v0.len(),
            forall|j: int| i <= j < v0.len() ==> #[trigger] vals@[j] == v0[j],
            forall|j: int| 0 <= j < i ==> #[trigger] vals@[j] as int == unzigzag_i32(v0[j] as int),
        decreases vals@.len() - i,
    {
        let x = vals[i];
        let u = #[verifier::truncate] (x as u32);
        proof {
            assert(x >= 0 ==> u == x) by (bit_vector)
                requires
                    u == x as u32,
            ;
            assert(x < 0 ==> u == x + 0x1_0000_0000) by (bit_vector)
                requires
                    u == x as u32,
            ;
        }
        vals.set(i, unzigzag(u));
        i = i + 1;
    }
}

/// One attribute's parsed payload.
pub struct Payload {
    pub scheme: PredictionSchemeType,
    pub corrections: Vec<i32>,
    pub flips: Vec<bool>,
    pub orientations: Vec<bool>,
    pub creases: Vec<Vec<bool>>,
    pub transform: InverseTransform,
}

/// The metadata a scheme reads after its corrections, at the start of `s`,
/// and its transform: normal flips after the transform, orientations or
/// creases before it; with the bytes they span.
pub open spec fn scheme_tail_parse(
    s: Seq<u8>,
    scheme: PredictionSchemeType,
    id: u8,
    num_values: nat,
) -> Result<(Seq<bool>, Seq<bool>, Seq<Seq<bool>>, InverseTransform, nat), DecodeError> {
    match scheme {
        PredictionSchemeType::NoPrediction => Ok(
            (Seq::empty(), Seq::empty(), Seq::empty(), InverseTransform::NoTransform, 0),
        ),
        PredictionSchemeType::MeshNormalPrediction => match transform_parse(s, id) {
            Err(e) => Err(e),
            Ok((t, k)) => match rabs_record(s.skip(k as int)) {
                Err(e) => Err(e),
                Ok((st, rest, p0, k2)) => Ok(
                    (rabs_bits(st, rest, p0, num_values), Seq::empty(), Seq::empty(), t, k + k2),
                ),
            },
        },
        PredictionSchemeType::MeshPredictionForTextureCoordinates => if s.len() < 4 {
            Err(DecodeError::Reader(ReaderErr::NotEnoughData))
        } else {
            let count = le32(s[0], s[1], s[2], s[3]);
            match rabs_record(s.skip(4)) {
                Err(e) => Err(e),
                Ok((st, rest, p0, k1)) => match transform_parse(s.skip((4 + k1) as int), id) {
                    Err(e) => Err(e),
                    Ok((t, k2)) => Ok(
                        (
                            Seq::empty(),
                            orientations(rabs_bits(st, rest, p0, count as nat)),
                            Seq::empty(),
                            t,
                            4 + k1 + k2,
                        ),
                    ),
                },
            }
        },
        PredictionSchemeType::MeshConstrainedMultiParallelogramPrediction => match crease_parse(
            s,
            num_values,
            0,
        ) {
            Err(e) => Err(e),
            Ok((ctx, k1)) => match transform_parse(s.skip(k1 as int), id) {
                Err(e) => Err(e),
                Ok((t, k2)) => Ok((Seq::empty(), Seq::empty(), ctx, t, k1 + k2)),
            },
        },
        _ => match transform_parse(s, id) {
            Err(e) => Err(e),
            Ok((t, k)) => Ok((Seq::empty(), Seq::empty(), Seq::empty(), t, k)),
        },
    }
}

/// Reads the metadata and transform of `scheme`.
#[verifier::spinoff_prover]
#[verifier::rlimit(50)]
fn read_scheme_tail(
    reader: &mut Reader<'_>,
    scheme: PredictionSchemeType,
    id: u8,
    num_values: usize,
) -> (r: Result<(Vec<bool>, Vec<bool>, Vec<Vec<bool>>, InverseTransform), DecodeError>)
    requires
        num_values * MAX_PARALLELOGRAMS <= usize::MAX,
    ensures
        match scheme_tail_parse(old(reader).rest(), scheme, id, num_values as nat) {
            Err(e) => r == Err::<(Vec<bool>, Vec<bool>, Vec<Vec<bool>>, InverseTransform), DecodeError>(e),
            Ok((f, o, c, t, k)) => (r matches Ok((rf, ro, rc, rt)) && rf@ == f && ro@ == o && rc@.len()
                == c.len() && (forall|i: int| 0 <= i < c.len() ==> (#[trigger] rc@[i])@ == c[i]) && rt == t
                && k <= old(reader).rest().len() && final(reader).rest() == old(reader).rest().skip(
                k as int,
            )),
        },
{
    let ghost s = reader.rest();
    match scheme {
        PredictionSchemeType::NoPrediction => {
            proof {
                assert(s.skip(0) =~= s);
            }
            Ok((Vec::new(), Vec::new(), Vec::new(), InverseTransform::NoTransform))
        },
        PredictionSchemeType::MeshNormalPrediction => {
            let t = InverseTransform::read_from(reader, id)?;
            let ghost s1 = reader.rest();
            proof {
                lemma_transform_parse_len(s, id);
            }
            let flips = decode_flip_metadata(reader, num_values)?;
            proof {
                let (tt, k) = transform_parse(s, id)->Ok_0;
                let (st, rest, p0, k2) = rabs_record(s1)->Ok_0;
                assert(s.skip(k as int).skip(k2 as int) =~= s.skip((k + k2) as int));
            }
            Ok((flips, Vec::new(), Vec::new(), t))
        },
        PredictionSchemeType::MeshPredictionForTextureCoordinates => {
            let o = decode_orientation_metadata(reader)?;
            let ghost s1 = reader.rest();
            let t = InverseTransform::read_from(reader, id)?;
            proof {
                lemma_transform_parse_len(s1, id);
                let (st, rest, p0, k1) = rabs_record(s.skip(4))->Ok_0;
                let (tt, k2) = transform_parse(s1, id)->Ok_0;
                assert(s1 == s.skip((4 + k1) as int));
                assert(s.skip((4 + k1) as int).skip(k2 as int) =~= s.skip((4 + k1 + k2) as int));
            }
            Ok((Vec::new(), o, Vec::new(), t))
        },
        PredictionSchemeType::MeshConstrainedMultiParallelogramPrediction => {
            let c = decode_crease_metadata(reader, num_values)?;
            let ghost s1 = reader.rest();
            let t = InverseTransform::read_from(reader, id)?;
            proof {
                lemma_transform_parse_len(s1, id);
                let (ctx, k1) = crease_parse(s, num_values as nat, 0)->Ok_0;
                let (tt, k2) = transform_parse(s1, id)->Ok_0;
                assert(s1 == s.skip(k1 as int));
                assert(s.skip(k1 as int).skip(k2 as int) =~= s.skip((k1 + k2) as int));
            }
            Ok((Vec::new(), Vec::new(), c, t))
        },
        _ => {
            proof {
                lemma_transform_parse_len(s, id);
            }
            let t = InverseTransform::read_from(reader, id)?;
            Ok((Vec::new(), Vec::new(), Vec::new(), t))
        },
    }
}

proof fn lemma_transform_parse_len(s: Seq<u8>, id: u8)
    ensures
        transform_parse(s, id) matches Ok((t, k)) ==> k <= s.len(),
{
}

/// `v` widened into integers.
pub open spec fn ints_of(v: Seq<i32>) -> Seq<int> {
    Seq::new(v.len(), |i: int| v[i] as int)
}

/// What a payload holds: the scheme, the corrections (one per portable
/// component of each value), the normal flips, the texture-coordinate
/// orientations, the crease contexts and the transform.
pub open spec fn payload_view(p: Payload) -> (
    PredictionSchemeType,
    Seq<int>,
    Seq<bool>,
    Seq<bool>,
    Seq<Seq<bool>>,
    InverseTransform,
) {
    (
        p.scheme,
        ints_of(p.corrections@),
        p.flips@,
        p.orientations@,
        p.creases@.map_values(|c: Vec<bool>| c@),
        p.transform,
    )
}

/// The payload of an attribute with `num_values` values of `n` portable
/// components and portabilization `port_type` at the start of `s`, with the
/// bytes it spans. Generic attributes store their values verbatim; the
/// others carry a scheme id, a transform id (absent without prediction), a
/// symbol-coding flag, the corrections (unzigzagged without prediction) and
/// the scheme's metadata and transform. `None` where the correction stream
/// does not parse.
pub open spec fn payload_parse(
    s: Seq<u8>,
    num_values: nat,
    n: nat,
    port_type: u8,
    ct: ComponentType,
) -> Option<
    Result<
        (PredictionSchemeType, Seq<int>, Seq<bool>, Seq<bool>, Seq<Seq<bool>>, InverseTransform, nat),
        DecodeError,
    >,
> {
    if port_type == PORT_GENERIC {
        Some(generic_payload_parse(s, num_values * n, ct))
    } else {
        predicted_payload_parse(s, num_values, n)
    }
}

/// The payload of a generic attribute: `count` values stored verbatim.
pub open spec fn generic_payload_parse(s: Seq<u8>, count: nat, ct: ComponentType) -> Result<
    (PredictionSchemeType, Seq<int>, Seq<bool>, Seq<bool>, Seq<Seq<bool>>, InverseTransform, nat),
    DecodeError,
> {
    if !component_supported(ct) {
        Err(DecodeError::Unimplemented)
    } else if s.len() < count * raw_width(ct) {
        Err(DecodeError::Reader(ReaderErr::NotEnoughData))
    } else {
        Ok(
            (
                PredictionSchemeType::NoPrediction,
                Seq::new(count, |i: int| raw_value(ct, s, i)),
                Seq::empty(),
                Seq::empty(),
                Seq::empty(),
                InverseTransform::NoTransform,
                (count * raw_width(ct)) as nat,
            ),
        )
    }
}

/// The header of a predicted payload at the start of `s`: the scheme, the
/// transform id (absent, read as zero, without prediction), the
/// symbol-coding flag, and the bytes they span.
pub open spec fn payload_header_parse(s: Seq<u8>) -> Result<(PredictionSchemeType, u8, u8, nat), DecodeError> {
    if s.len() == 0 {
        Err(DecodeError::Reader(ReaderErr::NotEnoughData))
    } else {
        match scheme_of(s[0]) {
            None => Err(DecodeError::MalformedAttribute("unknown prediction scheme id")),
            Some(scheme) => if scheme == PredictionSchemeType::NoPrediction {
                if s.len() < 2 {
                    Err(DecodeError::Reader(ReaderErr::NotEnoughData))
                } else {
                    Ok((scheme, 0, s[1], 2))
                }
            } else {
                if s.len() < 3 {
                    Err(DecodeError::Reader(ReaderErr::NotEnoughData))
                } else {
                    Ok((scheme, s[1], s[2], 3))
                }
            },
        }
    }
}

/// The values a payload of `scheme` carries from corrections `c`: without
/// prediction the encoder zigzagged them.
pub open spec fn scheme_values(scheme: PredictionSchemeType, c: Seq<int>) -> Seq<int> {
    if scheme == PredictionSchemeType::NoPrediction {
        Seq::new(c.len(), |i: int| unzigzag_i32(c[i]))
    } else {
        c
    }
}

/// The payload of a predicted attribute.
pub open spec fn predicted_payload_parse(s: Seq<u8>, num_values: nat, n: nat) -> Option<
    Result<
        (PredictionSchemeType, Seq<int>, Seq<bool>, Seq<bool>, Seq<Seq<bool>>, InverseTransform, nat),
        DecodeError,
    >,
> {
    match payload_header_parse(s) {
        Err(e) => Some(Err(e)),
        Ok((scheme, id, flag, h)) => match corrections_parse(s.skip(h as int), num_values * n, n, flag) {
            None => None,
            Some((c, k1)) => match scheme_tail_parse(s.skip((h + k1) as int), scheme, id, num_values) {
                Err(e) => Some(Err(e)),
                Ok((f, o, cr, t, k2)) => Some(Ok((scheme, scheme_values(scheme, c), f, o, cr, t, h + k1 + k2))),
            },
        },
    }
}

/// Parses one attribute's payload block: `num_values` values of `n`
/// portable components.
pub fn parse_payload(
    reader: &mut Reader<'_>,
    num_values: usize,
    n: usize,
    port_type: u8,
    component_type: ComponentType,
) -> (r: Result<Payload, DecodeError>)
    requires
        1 <= n <= 4,
        num_values * n <= usize::MAX / 4,
    ensures
        match payload_parse(old(reader).rest(), num_values as nat, n as nat, port_type, component_type) {
            Some(Ok((sc, c, f, o, cr, t, k))) => (r matches Ok(p) && payload_view(p) == (sc, c, f, o, cr, t)
                && k <= old(reader).rest().len() && final(reader).rest() == old(reader).rest().skip(k as int)),
            Some(Err(e)) => r == Err::<Payload, DecodeError>(e),
            None => r is Err,
        },
{
    if port_type == PORT_GENERIC {
        parse_generic_payload(reader, num_values, n, component_type)
    } else {
        parse_predicted_payload(reader, num_values, n)
    }
}

/// Reads the values of a generic attribute.
fn parse_generic_payload(reader: &mut Reader<'_>, num_values: usize, n: usize, component_type: ComponentType) -> (r:
    Result<Payload, DecodeError>)
    requires
        num_values * n <= usize::MAX / 4,
    ensures
        match generic_payload_parse(old(reader).rest(), (num_values * n) as nat, component_type) {
            Ok((sc, c, f, o, cr, t, k)) => (r matches Ok(p) && payload_view(p) == (sc, c, f, o, cr, t)
                && k <= old(reader).rest().len() && final(reader).rest() == old(reader).rest().skip(k as int)),
            Err(e) => r == Err::<Payload, DecodeError>(e),
        },
{
    let ghost s = reader.rest();
    let count = num_values * n;
    let values = read_raw_values(reader, num_values, n, component_type)?;
    let p = Payload {
        scheme: PredictionSchemeType::NoPrediction,
        corrections: values,
        flips: Vec::new(),
        orientations: Vec::new(),
        creases: Vec::new(),
        transform: InverseTransform::NoTransform,
    };
    proof {
        let w = raw_width(component_type);
        assert(count * w <= s.len());
        assert(payload_view(p).1 =~= Seq::new(count as nat, |i: int| raw_value(component_type, s, i)));
        assert(payload_view(p).2 =~= Seq::<bool>::empty());
        assert(payload_view(p).3 =~= Seq::<bool>::empty());
        assert(payload_view(p).4 =~= Seq::<Seq<bool>>::empty());
    }
    Ok(p)
}

/// Reads the header of a predicted payload.
fn read_payload_header(reader: &mut Reader<'_>) -> (r: Result<(PredictionSchemeType, u8, u8), DecodeError>)
    ensures
        match payload_header_parse(old(reader).rest()) {
            Ok((sc, id, flag, h)) => r == Ok::<(PredictionSchemeType, u8, u8), DecodeError>((sc, id, flag))
                && h <= old(reader).rest().len() && final(reader).rest() == old(reader).rest().skip(h as int),
            Err(e) => r == Err::<(PredictionSchemeType, u8, u8), DecodeError>(e),
        },
{
    let ghost s = reader.rest();
    let scheme = read_scheme_id(reader)?;
    let transform_id: u8 = if scheme == PredictionSchemeType::NoPrediction {
        0
    } else {
        match reader.read_u8() {
            Ok(b) => b,
            Err(e) => return Err(DecodeError::Reader(e)),
        }
    };
    let rans_flag = match reader.read_u8() {
        Ok(b) => b,
        Err(e) => return Err(DecodeError::Reader(e)),
    };
    proof {
        if scheme == PredictionSchemeType::NoPrediction {
            assert(reader.rest() =~= s.skip(2));
        } else {
            assert(reader.rest() =~= s.skip(3));
        }
    }
    Ok((scheme, transform_id, rans_flag))
}

/// Reads the corrections of a predicted payload, unzigzagged without
/// prediction.
fn read_payload_corrections(
    reader: &mut Reader<'_>,
    count: usize,
    n: usize,
    rans_flag: u8,
    scheme: PredictionSchemeType,
) -> (r: Result<Vec<i32>, DecodeError>)
    requires
        count <= usize::MAX / 4,
    ensures
        match corrections_parse(old(reader).rest(), count as nat, n as nat, rans_flag) {
            Some((c, k)) => (r matches Ok(v) && ints_of(v@) == scheme_values(scheme, c) && k <= old(reader).rest().len()
                && final(reader).rest() == old(reader).rest().skip(k as int)),
            None => r is Err,
        },
{
    let ghost s = reader.rest();
    let mut corrections = read_correction_values(reader, count, n, rans_flag)?;
    let ghost (c, k) = corrections_parse(s, count as nat, n as nat, rans_flag)->0;
    let ghost before = corrections@;
    if scheme == PredictionSchemeType::NoPrediction {
        unzigzag_all(&mut corrections);
    }
    proof {
        assert(c.len() == count);
        assert(ints_of(corrections@) =~= scheme_values(scheme, c));
    }
    Ok(corrections)
}

/// Reads the payload of a predicted attribute.
#[verifier::rlimit(100)]
#[verifier::spinoff_prover]
fn parse_predicted_payload(reader: &mut Reader<'_>, num_values: usize, n: usize) -> (r: Result<Payload, DecodeError>)
    requires
        1 <= n <= 4,
        num_values * n <= usize::MAX / 4,
    ensures
        match predicted_payload_parse(old(reader).rest(), num_values as nat, n as nat) {
            Some(Ok((sc, c, f, o, cr, t, k))) => (r matches Ok(p) && payload_view(p) == (sc, c, f, o, cr, t)
                && k <= old(reader).rest().len() && final(reader).rest() == old(reader).rest().skip(k as int)),
            Some(Err(e)) => r == Err::<Payload, DecodeError>(e),
            None => r is Err,
        },
{
    let ghost s = reader.rest();
    let count = num_values * n;
    proof {
        assert(num_values * MAX_PARALLELOGRAMS <= usize::MAX) by (nonlinear_arith)
            requires
                num_values * n <= usize::MAX / 4,
                n >= 1,
        ;
    }
    let (scheme, transform_id, rans_flag) = read_payload_header(reader)?;
    let ghost (sc0, id0, flag0, h) = payload_header_parse(s)->Ok_0;
    let ghost s1 = reader.rest();
    let corrections = read_payload_corrections(reader, count, n, rans_flag, scheme)?;
    let ghost (c1, k1) = corrections_parse(s1, count as nat, n as nat, rans_flag)->0;
    let ghost after = reader.rest();
    proof {
        assert(after =~= s.skip((h + k1) as int));
    }
    let (flips, orientations, creases, transform) = read_scheme_tail(reader, scheme, transform_id, num_values)?;
    let p = Payload { scheme, corrections, flips, orientations, creases, transform };
    proof {
        match scheme_tail_parse(after, scheme, transform_id, num_values as nat) {
            Ok((f, o, cr, t, k2)) => {
                assert(payload_view(p).4 =~= cr);
                assert(after.skip(k2 as int) =~= s.skip((h + k1 + k2) as int));
            },
            Err(e) => {},
        }
    }
    Ok(p)
}

/// The four little-endian bytes at `i` in `s`.
pub open spec fn le32_at(s: Seq<u8>, i: int) -> int {
    le32(s[i], s[i + 1], s[i + 2], s[i + 3])
}

/// Reads `n` little-endian u32s.
fn read_u32s(reader: &mut Reader<'_>, n: usize) -> (r: Result<Vec<u32>, DecodeError>)
    ensures
        old(reader).rest().len() < 4 * n ==> r == Err::<Vec<u32>, DecodeError>(
            DecodeError::Reader(ReaderErr::NotEnoughData),
        ),
        old(reader).rest().len() >= 4 * n ==> (r matches Ok(v) && v@.len() == n && (forall|i: int|
            0 <= i < n ==> #[trigger] v@[i] as int == le32_at(old(reader).rest(), 4 * i))
            && final(reader).rest() == old(reader).rest().skip(4 * n)),
{
    let ghost s = reader.rest();
    let mut out: Vec<u32> = Vec::new();
    let mut i: usize = 0;
    while i < n
        invariant
            s == old(reader).rest(),
            i <= n,
            out@.len() == i,
            s.len() >= 4 * i,
            reader.rest() == s.skip(4 * i),
            forall|j: int| 0 <= j < i ==> #[trigger] out@[j] as int == le32_at(s, 4 * j),
        decreases n - i,
    {
        let ghost cur = reader.rest();
        let v = match reader.read_u32() {
            Ok(v) => v,
            Err(e) => return Err(DecodeError::Reader(e)),
        };
        proof {
            assert(cur[0] == s[4 * i] && cur[1] == s[4 * i + 1] && cur[2] == s[4 * i + 2] && cur[3] == s[4 * i + 3]);
            assert(cur.skip(4) =~= s.skip(4 * (i + 1)));
        }
        out.push(v);
        i = i + 1;
    }
    Ok(out)
}

/// The bytes the portabilization block of `port_type` spans for
/// `nc` components.
pub open spec fn port_len(port_type: u8, nc: nat) -> nat {
    if port_type == PORT_QUANTIZATION_COORDINATE_WISE {
        4 * nc + 5
    } else if port_type == PORT_OCTAHEDRAL {
        1
    } else {
        0
    }
}

/// The error reading the portabilization block of `port_type` for `nc`
/// components at the start of `s` ends in, if any.
pub open spec fn port_error(s: Seq<u8>, port_type: u8, nc: nat) -> Option<DecodeError> {
    if port_type == PORT_GENERIC || port_type == PORT_TO_BITS {
        None
    } else if port_type == PORT_QUANTIZATION_COORDINATE_WISE || port_type == PORT_OCTAHEDRAL {
        if s.len() < port_len(port_type, nc) {
            Some(DecodeError::Reader(ReaderErr::NotEnoughData))
        } else {
            None
        }
    } else {
        Some(DecodeError::MalformedAttribute("unknown portabilization type"))
    }
}

/// Whether `t` is what the portabilization block of `port_type` at the
/// start of `s` describes for an attribute of `nc` components of type `ct`:
/// the quantization box (minimum per component and largest extent, as
/// IEEE-754 bits) and bit count, the octahedral bit count, or just the
/// type for generic and integer attributes.
#[verifier::opaque]
pub open spec fn port_matches(s: Seq<u8>, port_type: u8, ct: ComponentType, nc: nat, t: AttributeTransform) -> bool {
    if port_type == PORT_GENERIC {
        t == AttributeTransform::Raw { component_type: ct }
    } else if port_type == PORT_TO_BITS {
        t == AttributeTransform::Integer { component_type: ct }
    } else if port_type == PORT_QUANTIZATION_COORDINATE_WISE {
        t matches AttributeTransform::Quantized { min_bits, delta_max_bits, bits } && min_bits@.len() == nc
            && (forall|i: int| 0 <= i < nc ==> #[trigger] min_bits@[i] as int == le32_at(s, 4 * i))
            && delta_max_bits as int == le32_at(s, (4 * nc) as int) && bits == s[(4 * nc + 4) as int]
    } else {
        t matches AttributeTransform::Octahedral { bits } && bits == s[0]
    }
}

/// Reads the portabilization block of an attribute with `num_components`
/// components: the quantization box (minimum per component and largest
/// extent, as IEEE-754 bits) and bit count, or the octahedral bit count;
/// generic and integer attributes carry nothing.
pub fn read_portabilization(
    reader: &mut Reader<'_>,
    port_type: u8,
    component_type: ComponentType,
    num_components: usize,
) -> (r: Result<AttributeTransform, DecodeError>)
    ensures
        match port_error(old(reader).rest(), port_type, num_components as nat) {
            Some(e) => r == Err::<AttributeTransform, DecodeError>(e),
            None => (r matches Ok(t) && port_matches(old(reader).rest(), port_type, component_type, num_components as nat, t)
                && port_len(port_type, num_components as nat) <= old(reader).rest().len()
                && final(reader).rest() == old(reader).rest().skip(port_len(port_type, num_components as nat) as int)),
        },
{
    reveal(port_matches);
    let ghost s = reader.rest();
    if port_type == PORT_GENERIC {
        Ok(AttributeTransform::Raw { component_type })
    } else if port_type == PORT_TO_BITS {
        Ok(AttributeTransform::Integer { component_type })
    } else if port_type == PORT_QUANTIZATION_COORDINATE_WISE {
        if reader.remaining() / 4 < num_components || reader.remaining() - 4 * num_components < 5 {
            return Err(DecodeError::Reader(ReaderErr::NotEnoughData));
        }
        let min_bits = read_u32s(reader, num_components)?;
        let ghost s1 = reader.rest();
        let delta_max_bits = match reader.read_u32() {
            Ok(v) => v,
            Err(e) => return Err(DecodeError::Reader(e)),
        };
        let bits = match reader.read_u8() {
            Ok(v) => v,
            Err(e) => return Err(DecodeError::Reader(e)),
        };
        proof {
            let n = num_components as int;
            assert(s1[0] == s[4 * n] && s1[1] == s[4 * n + 1] && s1[2] == s[4 * n + 2] && s1[3] == s[4 * n + 3]);
            assert(s1.skip(4)[0] == s[4 * n + 4]);
            assert(s1.skip(4).skip(1) =~= s.skip(4 * n + 5));
        }
        Ok(AttributeTransform::Quantized { min_bits, delta_max_bits, bits })
    } else if port_type == PORT_OCTAHEDRAL {
        let bits = match reader.read_u8() {
            Ok(v) => v,
            Err(e) => return Err(DecodeError::Reader(e)),
        };
        Ok(AttributeTransform::Octahedral { bits })
    } else {
        Err(DecodeError::MalformedAttribute("unknown portabilization type"))
    }
}

} // verus!
