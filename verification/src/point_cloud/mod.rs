//! Point-cloud stream decoding (bitstream 2.3, kd-tree method).

pub mod bit_decoder;
pub mod kd_tree;

use vstd::prelude::*;
use crate::attribute::{leb_value, read_leb};
use crate::entropy::{unzigzag, unzigzag_spec};
use crate::error::{DecodeError, ReaderErr};
use crate::metadata::{decode_metadata, section_len};
use crate::point_cloud::kd_tree::decode_points;
use crate::header::has_magic;
use crate::point_cloud::kd_tree::{kd_outcome, kd_points_decode};
use crate::reader::{le16, le32, leb128_read, Reader};

verus! {

/// The flag bit announcing a metadata section.
pub const METADATA_FLAG_MASK: u16 = 0x8000;
/// Wire id of the sequential point-cloud method.
pub const METHOD_SEQUENTIAL: u8 = 0;
/// Wire id of the kd-tree point-cloud method.
pub const METHOD_KD_TREE: u8 = 1;

/// What an attribute describes.
#[derive(Debug, Clone, Copy, PartialEq, Eq, Structural)]
pub enum AttributeKind {
    Position,
    Normal,
    Color,
    TextureCoordinate,
    Generic,
}

/// The component type of an attribute.
#[derive(Debug, Clone, Copy, PartialEq, Eq, Structural)]
pub enum ComponentType {
    I8,
    U8,
    I16,
    U16,
    I32,
    U32,
    I64,
    U64,
    F32,
    F64,
}

/// The attribute kind that wire id `id` names.
pub open spec fn kind_of(id: u8) -> Option<AttributeKind> {
    if id == 0 {
        Some(AttributeKind::Position)
    } else if id == 1 {
        Some(AttributeKind::Normal)
    } else if id == 2 {
        Some(AttributeKind::Color)
    } else if id == 3 {
        Some(AttributeKind::TextureCoordinate)
    } else if id == 4 {
        Some(AttributeKind::Generic)
    } else {
        None
    }
}

/// The component type that wire id `id` names.
pub open spec fn component_of(id: u8) -> Option<ComponentType> {
    if id == 1 {
        Some(ComponentType::I8)
    } else if id == 2 {
        Some(ComponentType::U8)
    } else if id == 3 {
        Some(ComponentType::I16)
    } else if id == 4 {
        Some(ComponentType::U16)
    } else if id == 5 {
        Some(ComponentType::I32)
    } else if id == 6 {
        Some(ComponentType::U32)
    } else if id == 7 {
        Some(ComponentType::I64)
    } else if id == 8 {
        Some(ComponentType::U64)
    } else if id == 9 {
        Some(ComponentType::F32)
    } else if id == 10 {
        Some(ComponentType::F64)
    } else {
        None
    }
}

impl AttributeKind {
    /// The attribute kind that wire id `id` names.
    pub fn from_id(id: u8) -> (r: Option<Self>)
        ensures
            r == kind_of(id),
    {
        match id {
            0 => Some(AttributeKind::Position),
            1 => Some(AttributeKind::Normal),
            2 => Some(AttributeKind::Color),
            3 => Some(AttributeKind::TextureCoordinate),
            4 => Some(AttributeKind::Generic),
            _ => None,
        }
    }
}

impl ComponentType {
    /// The component type that wire id `id` names.
    pub fn from_id(id: u8) -> (r: Option<Self>)
        ensures
            r == component_of(id),
    {
        match id {
            1 => Some(ComponentType::I8),
            2 => Some(ComponentType::U8),
            3 => Some(ComponentType::I16),
            4 => Some(ComponentType::U16),
            5 => Some(ComponentType::I32),
            6 => Some(ComponentType::U32),
            7 => Some(ComponentType::I64),
            8 => Some(ComponentType::U64),
            9 => Some(ComponentType::F32),
            10 => Some(ComponentType::F64),
            _ => None,
        }
    }
}

/// Whether the decoder can carry components of type `t`: the 64-bit types
/// have no compressed representation.
pub open spec fn component_supported(t: ComponentType) -> bool {
    !(t is I64 || t is U64 || t is F64)
}

/// Rejects the component types no decoder path implements: the 64-bit
/// ones.
pub fn check_component_type(t: ComponentType) -> (r: Result<(), DecodeError>)
    ensures
        component_supported(t) ==> r is Ok,
        !component_supported(t) ==> r == Err::<(), DecodeError>(DecodeError::Unimplemented),
{
    match t {
        ComponentType::I64 | ComponentType::U64 | ComponentType::F64 => Err(
            DecodeError::Unimplemented,
        ),
        _ => Ok(()),
    }
}

/// The inclusive range of a signed component type, or `None` for a type
/// the kd-tree does not shift.
pub open spec fn signed_range(t: ComponentType) -> Option<(int, int)> {
    match t {
        ComponentType::I8 => Some((-128, 127)),
        ComponentType::I16 => Some((-32768, 32767)),
        ComponentType::I32 => Some((-0x8000_0000, 0x7FFF_FFFF)),
        _ => None,
    }
}

/// The inclusive range of a signed component type, or `None` for a type
/// the kd-tree does not shift.
pub fn signed_bounds(t: ComponentType) -> (r: Option<(i64, i64)>)
    ensures
        match signed_range(t) {
            Some((lo, hi)) => r == Some((lo as i64, hi as i64)),
            None => r is None,
        },
{
    match t {
        ComponentType::I8 => Some((-128, 127)),
        ComponentType::I16 => Some((-32768, 32767)),
        ComponentType::I32 => Some((-0x8000_0000, 0x7FFF_FFFF)),
        _ => None,
    }
}

/// One attribute's wire descriptor.
#[derive(Debug, Clone, Copy)]
pub struct Descriptor {
    pub att_type: AttributeKind,
    pub component_type: ComponentType,
    pub num_components: usize,
}

/// One decoded attribute in portable form: `num_components` i32 values per
/// point, point after point.
#[derive(Debug, Clone)]
pub struct PortableAttribute {
    pub index: usize,
    pub att_type: AttributeKind,
    pub component_type: ComponentType,
    pub num_components: usize,
    pub values: Vec<i32>,
}

/// The decoded point cloud: the point count and its attributes.
#[derive(Debug, Clone)]
pub struct PointCloud {
    pub num_points: usize,
    pub attributes: Vec<PortableAttribute>,
}

/// Per-attribute parameters for reconstructing original-format values from
/// the portable integers. Float parameters are kept as their IEEE-754 bit
/// patterns.
#[derive(Debug, Clone)]
pub enum AttributeTransform {
    /// Uniform quantization over an axis-aligned box.
    Quantized { min_bits: Vec<u32>, delta_max_bits: u32, bits: u8 },
    /// Octahedral encoding of unit vectors.
    Octahedral { bits: u8 },
    /// Values stored verbatim, widened into i32.
    Raw { component_type: ComponentType },
    /// Values carried by the integer codec, widened into i32.
    Integer { component_type: ComponentType },
}

/// The portable value of a kd-tree coordinate `raw` whose attribute was
/// shifted by `shift`: for signed types the sum, else the bit pattern read
/// as an i32.
pub open spec fn portable_value(t: ComponentType, raw: u32, shift: i32) -> int {
    match signed_range(t) {
        Some(_) => raw + shift,
        None => if raw < 0x8000_0000 {
            raw as int
        } else {
            raw - 0x1_0000_0000
        },
    }
}

/// Whether coordinate `raw` with `shift` stays within its type's range.
pub open spec fn value_in_range(t: ComponentType, raw: u32, shift: i32) -> bool {
    match signed_range(t) {
        Some((lo, hi)) => lo <= raw + shift <= hi,
        None => true,
    }
}

/// The kd-tree coordinate of component `c` of point `p`.
pub open spec fn coordinate(flat: Seq<u32>, dimension: int, offset: int, p: int, c: int) -> u32 {
    flat[p * dimension + offset + c]
}

proof fn lemma_row_index(q: int, d: int, p: int, nc: int)
    requires
        0 <= q < p,
        0 <= d < nc,
    ensures
        0 <= q * nc + d < p * nc,
{
    assert(q * nc + nc <= p * nc) by (nonlinear_arith)
        requires
            q + 1 <= p,
            0 <= nc,
    ;
    assert(q * nc >= 0) by (nonlinear_arith)
        requires
            q >= 0,
            nc >= 0,
    ;
}

proof fn lemma_coordinate_index(dimension: int, offset: int, p: int, c: int, num_points: int, nc: int)
    requires
        0 <= p < num_points,
        0 <= c < nc,
        0 <= offset,
        offset + nc <= dimension,
    ensures
        0 <= p * dimension + offset + c < num_points * dimension,
{
    assert(p * dimension + dimension <= num_points * dimension) by (nonlinear_arith)
        requires
            p + 1 <= num_points,
            0 <= dimension,
    ;
    assert(p * dimension >= 0) by (nonlinear_arith)
        requires
            p >= 0,
            dimension >= 0,
    ;
}

/// Extracts one attribute's columns from the kd-tree coordinates as
/// portable i32 values, checking shifted signed values against their type.
pub fn build_attribute(
    index: usize,
    desc: &Descriptor,
    shift: &[i32],
    flat: &[u32],
    dimension: usize,
    offset: usize,
    num_points: usize,
) -> (r: Result<PortableAttribute, DecodeError>)
    requires
        offset + desc.num_components <= dimension,
        num_points * dimension <= flat@.len(),
        signed_range(desc.component_type) is Some ==> desc.num_components <= shift@.len(),
    ensures
        !(1 <= desc.num_components <= 4) ==> r == Err::<PortableAttribute, DecodeError>(
            DecodeError::MalformedAttribute("unsupported number of components"),
        ),
        1 <= desc.num_components <= 4 ==> {
            let nc = desc.num_components as int;
            let bad = exists|p: int, c: int|
                0 <= p < num_points && 0 <= c < nc && !value_in_range(
                    desc.component_type,
                    #[trigger] coordinate(flat@, dimension as int, offset as int, p, c),
                    shift@[c],
                );
            &&& bad ==> r == Err::<PortableAttribute, DecodeError>(
                DecodeError::MalformedAttribute(
                    "signed attribute value out of range for its component type",
                ),
            )
            &&& !bad ==> (r matches Ok(att) && att.index == index && att.att_type == desc.att_type
                && att.component_type == desc.component_type && att.num_components
                == desc.num_components && att.values@.len() == num_points * nc && forall|
                p: int,
                c: int,
            |
                0 <= p < num_points && 0 <= c < nc ==> #[trigger] att.values@[p * nc + c]
                    == portable_value(
                    desc.component_type,
                    coordinate(flat@, dimension as int, offset as int, p, c),
                    shift@[c],
                ))
        },
{
    let nc = desc.num_components;
    if !(1 <= nc && nc <= 4) {
        return Err(DecodeError::MalformedAttribute("unsupported number of components"));
    }
    let bounds = signed_bounds(desc.component_type);
    let flen = flat.len();
    let mut values: Vec<i32> = Vec::new();
    let mut p: usize = 0;
    while p < num_points
        invariant
            flen == flat@.len(),
            1 <= nc <= 4,
            nc == desc.num_components,
            offset + nc <= dimension,
            num_points * dimension <= flat@.len(),
            signed_range(desc.component_type) is Some ==> nc <= shift@.len(),
            bounds == (match signed_range(desc.component_type) {
                Some((lo, hi)) => Some((lo as i64, hi as i64)),
                None => None::<(i64, i64)>,
            }),
            p <= num_points,
            values@.len() == p * nc,
            forall|q: int, c: int|
                0 <= q < p && 0 <= c < nc ==> value_in_range(
                    desc.component_type,
                    #[trigger] coordinate(flat@, dimension as int, offset as int, q, c),
                    shift@[c],
                ),
            forall|q: int, c: int|
                0 <= q < p && 0 <= c < nc ==> #[trigger] values@[q * nc + c] == portable_value(
                    desc.component_type,
                    coordinate(flat@, dimension as int, offset as int, q, c),
                    shift@[c],
                ),
        decreases num_points - p,
    {
        let mut c: usize = 0;
        while c < nc
            invariant
                flen == flat@.len(),
                1 <= nc <= 4,
                nc == desc.num_components,
                offset + nc <= dimension,
                num_points * dimension <= flat@.len(),
                signed_range(desc.component_type) is Some ==> nc <= shift@.len(),
                bounds == (match signed_range(desc.component_type) {
                    Some((lo, hi)) => Some((lo as i64, hi as i64)),
                    None => None::<(i64, i64)>,
                }),
                p < num_points,
                c <= nc,
                values@.len() == p * nc + c,
                forall|q: int, d: int|
                    0 <= q < p && 0 <= d < nc ==> value_in_range(
                        desc.component_type,
                        #[trigger] coordinate(flat@, dimension as int, offset as int, q, d),
                        shift@[d],
                    ),
                forall|d: int|
                    0 <= d < c ==> value_in_range(
                        desc.component_type,
                        #[trigger] coordinate(flat@, dimension as int, offset as int, p as int, d),
                        shift@[d],
                    ),
                forall|q: int, d: int|
                    0 <= q < p && 0 <= d < nc ==> #[trigger] values@[q * nc + d] == portable_value(
                        desc.component_type,
                        coordinate(flat@, dimension as int, offset as int, q, d),
                        shift@[d],
                    ),
                forall|d: int|
                    0 <= d < c ==> #[trigger] values@[p * nc + d] == portable_value(
                        desc.component_type,
                        coordinate(flat@, dimension as int, offset as int, p as int, d),
                        shift@[d],
                    ),
            decreases nc - c,
        {
            proof {
                lemma_coordinate_index(
                    dimension as int,
                    offset as int,
                    p as int,
                    c as int,
                    num_points as int,
                    nc as int,
                );
            }
            let raw = flat[p * dimension + offset + c];
            let v: i32 = match bounds {
                Some((lo, hi)) => {
                    let value = raw as i64 + shift[c] as i64;
                    if value < lo || value > hi {
                        proof {
                            assert(!value_in_range(
                                desc.component_type,
                                coordinate(flat@, dimension as int, offset as int, p as int, c as int),
                                shift@[c as int],
                            ));
                        }
                        return Err(
                            DecodeError::MalformedAttribute(
                                "signed attribute value out of range for its component type",
                            ),
                        );
                    }
                    value as i32
                },
                None => {
                    let v = #[verifier::truncate] (raw as i32);
                    proof {
                        assert(raw < 0x8000_0000 ==> v == raw) by (bit_vector)
                            requires
                                v == raw as i32,
                        ;
                        assert(raw >= 0x8000_0000 ==> v == raw - 0x1_0000_0000) by (bit_vector)
                            requires
                                v == raw as i32,
                        ;
                    }
                    v
                },
            };
            let ghost before = values@;
            values.push(v);
            proof {
                assert forall|q: int, d: int|
                    0 <= q < p && 0 <= d < nc implies #[trigger] values@[q * nc + d] == portable_value(
                    desc.component_type,
                    coordinate(flat@, dimension as int, offset as int, q, d),
                    shift@[d],
                ) by {
                    lemma_row_index(q, d, p as int, nc as int);
                    assert(values@[q * nc + d] == before[q * nc + d]);
                }
                assert forall|d: int|
                    0 <= d < c + 1 implies #[trigger] values@[p * nc + d] == portable_value(
                    desc.component_type,
                    coordinate(flat@, dimension as int, offset as int, p as int, d),
                    shift@[d],
                ) by {
                    if d < c {
                        assert(values@[p * nc + d] == before[p * nc + d]);
                    }
                }
            }
            c = c + 1;
        }
        proof {
            assert((p + 1) * nc == p * nc + nc) by (nonlinear_arith);
        }
        p = p + 1;
    }
    Ok(
        PortableAttribute {
            index,
            att_type: desc.att_type,
            component_type: desc.component_type,
            num_components: nc,
            values,
        },
    )
}

/// How the first eleven bytes of a point-cloud stream parse: whether the
/// metadata flag is set, or the error the decoder reports, in stream order.
pub open spec fn pc_header_parse(s: Seq<u8>) -> Result<bool, DecodeError> {
    if s.len() < 5 {
        Err(DecodeError::Reader(ReaderErr::NotEnoughData))
    } else if !has_magic(s) {
        Err(DecodeError::InvalidHeader("missing DRACO magic"))
    } else if s.len() < 8 {
        Err(DecodeError::Reader(ReaderErr::NotEnoughData))
    } else if s[7] != 0 {
        Err(DecodeError::InvalidHeader("not a point-cloud stream"))
    } else if !(s[5] == 2 && s[6] == 3) {
        Err(DecodeError::UnsupportedVersion(s[5], s[6]))
    } else if s.len() < 9 {
        Err(DecodeError::Reader(ReaderErr::NotEnoughData))
    } else if s[8] == METHOD_SEQUENTIAL {
        Err(DecodeError::Unimplemented)
    } else if s[8] != METHOD_KD_TREE {
        Err(DecodeError::InvalidHeader("unknown encoder method"))
    } else if s.len() < 11 {
        Err(DecodeError::Reader(ReaderErr::NotEnoughData))
    } else {
        Ok(le16(s[9], s[10]) >= 0x8000)
    }
}

/// Whether `t` is the reconstruction an attribute of component type `ct`
/// with `nc` components gets: quantization for floats, the integer codec
/// otherwise.
pub open spec fn transform_matches(t: AttributeTransform, ct: ComponentType, nc: int) -> bool {
    if ct is F32 {
        t matches AttributeTransform::Quantized { min_bits, delta_max_bits, bits } && min_bits@.len()
            == nc && 1 <= bits <= 31
    } else {
        t == AttributeTransform::Integer { component_type: ct }
    }
}

/// The components of the first `k` descriptors.
pub open spec fn components_before(ds: Seq<Descriptor>, k: int) -> int
    decreases k,
{
    if k <= 0 {
        0
    } else {
        components_before(ds, k - 1) + ds[k - 1].num_components
    }
}

/// Whether a decoded point cloud and its transforms have the shape the
/// stream promised: one transform per attribute, at least one attribute,
/// consecutive indices, one to four supported components each, one value
/// per point and component, and the reconstruction the component type
/// calls for.
pub open spec fn point_cloud_shaped(pc: PointCloud, transforms: Seq<AttributeTransform>) -> bool {
    &&& pc.attributes@.len() == transforms.len()
    &&& pc.attributes@.len() >= 1
    &&& pc.num_points <= i32::MAX
    &&& forall|i: int|
        0 <= i < pc.attributes@.len() ==> {
            let att = #[trigger] pc.attributes@[i];
            &&& att.index == i
            &&& 1 <= att.num_components <= 4
            &&& component_supported(att.component_type)
            &&& att.values@.len() == pc.num_points * att.num_components
            &&& transform_matches(transforms[i], att.component_type, att.num_components as int)
        }
}

/// The parse of one attribute descriptor at the start of `s`: kind byte,
/// component type byte (a supported type), component count byte (one to
/// four), normalized byte and LEB128 unique id; with the bytes it spans.
pub open spec fn pc_descriptor_parse(s: Seq<u8>) -> Result<(Descriptor, nat), DecodeError> {
    if s.len() < 1 || kind_of(s[0]) is None {
        Err(DecodeError::MalformedAttribute("unknown attribute type"))
    } else if s.len() < 2 || component_of(s[1]) is None {
        Err(DecodeError::MalformedAttribute("unknown component type"))
    } else {
        let kind = kind_of(s[0])->Some_0;
        let ct = component_of(s[1])->Some_0;
        if !component_supported(ct) {
            Err(DecodeError::Unimplemented)
        } else if s.len() < 3 {
            Err(DecodeError::Reader(ReaderErr::NotEnoughData))
        } else if !(1 <= s[2] <= 4) {
            Err(DecodeError::MalformedAttribute("unsupported number of components"))
        } else if s.len() < 4 {
            Err(DecodeError::Reader(ReaderErr::NotEnoughData))
        } else {
            match leb_value(s.skip(4)) {
                Ok((_, n)) => Ok(
                    (Descriptor { att_type: kind, component_type: ct, num_components: s[2] as usize }, 4 + n),
                ),
                Err(e) => Err(DecodeError::Reader(e)),
            }
        }
    }
}

/// The parse of `k` descriptors one after another at the start of `s`,
/// with the bytes they span, or the first error.
pub open spec fn pc_descriptors_parse(s: Seq<u8>, k: nat) -> Result<(Seq<Descriptor>, nat), DecodeError>
    decreases k,
{
    if k == 0 {
        Ok((Seq::empty(), 0))
    } else {
        match pc_descriptors_parse(s, (k - 1) as nat) {
            Ok((ds, p)) => match pc_descriptor_parse(s.skip(p as int)) {
                Ok((d, n)) => Ok((ds.push(d), p + n)),
                Err(e) => Err(e),
            },
            Err(e) => Err(e),
        }
    }
}

proof fn lemma_pc_descriptors_err(s: Seq<u8>, i: nat, k: nat)
    requires
        i <= k,
        pc_descriptors_parse(s, i) is Err,
    ensures
        pc_descriptors_parse(s, k) == pc_descriptors_parse(s, i),
    decreases k - i,
{
    if i < k {
        lemma_pc_descriptors_err(s, i, (k - 1) as nat);
    }
}

/// Reads one attribute descriptor, as [`pc_descriptor_parse`] describes.
fn read_descriptor(reader: &mut Reader<'_>) -> (r: Result<Descriptor, DecodeError>)
    ensures
        match pc_descriptor_parse(old(reader).rest()) {
            Ok((d, n)) => r == Ok::<Descriptor, DecodeError>(d) && n <= old(reader).rest().len()
                && final(reader).rest() == old(reader).rest().skip(n as int),
            Err(e) => r == Err::<Descriptor, DecodeError>(e),
        },
{
    let ghost s = reader.rest();
    let att_type = match reader.read_u8() {
        Ok(id) => match AttributeKind::from_id(id) {
            Some(k) => k,
            None => return Err(DecodeError::MalformedAttribute("unknown attribute type")),
        },
        Err(_) => return Err(DecodeError::MalformedAttribute("unknown attribute type")),
    };
    let component_type = match reader.read_u8() {
        Ok(id) => match ComponentType::from_id(id) {
            Some(t) => t,
            None => return Err(DecodeError::MalformedAttribute("unknown component type")),
        },
        Err(_) => return Err(DecodeError::MalformedAttribute("unknown component type")),
    };
    proof {
        assert(s.skip(1).skip(1) =~= s.skip(2));
    }
    check_component_type(component_type)?;
    let num_components = match reader.read_u8() {
        Ok(b) => b as usize,
        Err(e) => return Err(DecodeError::Reader(e)),
    };
    proof {
        assert(s.skip(2).skip(1) =~= s.skip(3));
    }
    if !(1 <= num_components && num_components <= 4) {
        return Err(DecodeError::MalformedAttribute("unsupported number of components"));
    }
    let _normalized = match reader.read_u8() {
        Ok(b) => b,
        Err(e) => return Err(DecodeError::Reader(e)),
    };
    proof {
        assert(s.skip(3).skip(1) =~= s.skip(4));
        crate::reader::lemma_leb128_len(s.skip(4));
    }
    let _unique_id = read_leb(reader)?;
    proof {
        let n = leb_value(s.skip(4))->Ok_0.1;
        assert(s.skip(4).skip(n as int) =~= s.skip((4 + n) as int));
    }
    Ok(Descriptor { att_type, component_type, num_components })
}

/// Reads the attribute descriptors: kind, component type, component count
/// (one to four), the normalized flag and the unique id.
fn read_descriptors(reader: &mut Reader<'_>, num_attributes: usize) -> (r: Result<
    (Vec<Descriptor>, usize),
    DecodeError,
>)
    requires
        num_attributes * 5 <= old(reader).rest().len(),
    ensures
        match pc_descriptors_parse(old(reader).rest(), num_attributes as nat) {
            Ok((ds, n)) => (r matches Ok((v, dimension)) && v@ == ds && dimension == components_before(
                ds,
                num_attributes as int,
            ) && n <= old(reader).rest().len() && final(reader).rest() == old(reader).rest().skip(n as int)),
            Err(e) => r == Err::<(Vec<Descriptor>, usize), DecodeError>(e),
        },
        r matches Ok((ds, dimension)) ==> {
            &&& ds@.len() == num_attributes
            &&& dimension == components_before(ds@, num_attributes as int)
            &&& forall|i: int|
                0 <= i < num_attributes ==> 1 <= (#[trigger] ds@[i]).num_components <= 4
                    && component_supported(ds@[i].component_type)
        },
{
    let mut descriptors: Vec<Descriptor> = Vec::new();
    let mut dimension: usize = 0;
    let mut i: usize = 0;
    let ghost s0 = reader.rest();
    let ghost mut pos: nat = 0;
    let rem = reader.remaining();
    proof {
        assert(s0.skip(0) =~= s0);
    }
    while i < num_attributes
        invariant
            s0 == old(reader).rest(),
            rem == s0.len(),
            num_attributes * 5 <= s0.len(),
            i <= num_attributes,
            descriptors@.len() == i,
            pc_descriptors_parse(s0, i as nat) == Ok::<(Seq<Descriptor>, nat), DecodeError>((descriptors@, pos)),
            pos <= s0.len(),
            reader.rest() == s0.skip(pos as int),
            dimension == components_before(descriptors@, i as int),
            dimension <= 4 * i,
            forall|j: int|
                0 <= j < i ==> 1 <= (#[trigger] descriptors@[j]).num_components <= 4
                    && component_supported(descriptors@[j].component_type),
        decreases num_attributes - i,
    {
        let d = match read_descriptor(reader) {
            Ok(d) => d,
            Err(e) => {
                proof {
                    assert(pc_descriptors_parse(s0, (i + 1) as nat) == Err::<(Seq<Descriptor>, nat), DecodeError>(e));
                    lemma_pc_descriptors_err(s0, (i + 1) as nat, num_attributes as nat);
                }
                return Err(e);
            },
        };
        let num_components = d.num_components;
        proof {
            let t = s0.skip(pos as int);
            assert(pc_descriptor_parse(t) is Ok);
            assert(1 <= d.num_components <= 4 && component_supported(d.component_type));
            assert(4 * i + 4 <= num_attributes * 5) by (nonlinear_arith)
                requires
                    i < num_attributes,
            ;
            let n = pc_descriptor_parse(s0.skip(pos as int))->Ok_0.1;
            assert(s0.skip(pos as int).skip(n as int) =~= s0.skip((pos + n) as int));
            pos = pos + n;
        }
        let ghost before = descriptors@;
        descriptors.push(d);
        proof {
            assert(descriptors@.len() == i + 1);
            assert forall|k: int| 0 <= k < i implies (#[trigger] descriptors@[k]) == before[k] by {}
            lemma_components_before_prefix(before, descriptors@, i as int);
        }
        dimension = dimension + num_components;
        i = i + 1;
    }
    Ok((descriptors, dimension))
}

proof fn lemma_components_before_prefix(a: Seq<Descriptor>, b: Seq<Descriptor>, k: int)
    requires
        0 <= k <= a.len(),
        k <= b.len(),
        forall|j: int| 0 <= j < k ==> #[trigger] b[j] == a[j],
    ensures
        components_before(b, k) == components_before(a, k),
    decreases k,
{
    if k > 0 {
        lemma_components_before_prefix(a, b, k - 1);
    }
}

proof fn lemma_components_before_mono(ds: Seq<Descriptor>, i: int, k: int)
    requires
        0 <= i <= k <= ds.len(),
    ensures
        components_before(ds, i) <= components_before(ds, k),
    decreases k - i,
{
    if i < k {
        lemma_components_before_mono(ds, i, k - 1);
    }
}

/// The bytes the reconstruction parameters of an attribute with descriptor
/// `d` span at the start of `s`: for floats one little-endian word per
/// component, one for the largest extent and a bits byte (one to 31);
/// integer types none; or the error reading them gives.
pub open spec fn transform_parse(s: Seq<u8>, d: Descriptor) -> Result<nat, DecodeError> {
    let nc = d.num_components as int;
    match d.component_type {
        ComponentType::F32 => if s.len() < 4 * nc + 5 {
            Err(DecodeError::Reader(ReaderErr::NotEnoughData))
        } else if !(1 <= s[4 * nc + 4] <= 31) {
            Err(DecodeError::MalformedAttribute("quantization bits out of range"))
        } else {
            Ok((4 * nc + 5) as nat)
        },
        ComponentType::U8 | ComponentType::U16 | ComponentType::U32 | ComponentType::I8
        | ComponentType::I16 | ComponentType::I32 => Ok(0),
        _ => Err(DecodeError::MalformedAttribute("unsupported component type in a kd-tree stream")),
    }
}

/// Whether `t` holds the reconstruction parameters of an attribute with
/// descriptor `d` as they stand at the start of `s`.
pub open spec fn transform_read(s: Seq<u8>, d: Descriptor, t: AttributeTransform) -> bool {
    let nc = d.num_components as int;
    if d.component_type is F32 {
        t matches AttributeTransform::Quantized { min_bits, delta_max_bits, bits } && min_bits@.len()
            == nc && (forall|c: int|
            0 <= c < nc ==> #[trigger] min_bits@[c] == le32(s[4 * c], s[4 * c + 1], s[4 * c + 2], s[4 * c + 3]))
            && delta_max_bits == le32(s[4 * nc], s[4 * nc + 1], s[4 * nc + 2], s[4 * nc + 3]) && bits == s[4
            * nc + 4]
    } else {
        t == AttributeTransform::Integer { component_type: d.component_type }
    }
}

/// The bytes the reconstruction parameters of the first `k` descriptors of
/// `ds` span at the start of `s`, read one after another, or the first
/// error.
pub open spec fn transforms_parse(s: Seq<u8>, ds: Seq<Descriptor>, k: nat) -> Result<nat, DecodeError>
    decreases k,
{
    if k == 0 {
        Ok(0)
    } else {
        match transforms_parse(s, ds, (k - 1) as nat) {
            Ok(p) => match transform_parse(s.skip(p as int), ds[k - 1]) {
                Ok(n) => Ok(p + n),
                Err(e) => Err(e),
            },
            Err(e) => Err(e),
        }
    }
}

/// Whether `t` is the reconstruction of the `j`-th of the descriptors `ds`
/// read one after another from the start of `s`.
pub open spec fn transform_at(s: Seq<u8>, ds: Seq<Descriptor>, j: nat, t: AttributeTransform) -> bool {
    transforms_parse(s, ds, j) matches Ok(p) && transform_read(s.skip(p as int), ds[j as int], t)
}

proof fn lemma_transforms_err(s: Seq<u8>, ds: Seq<Descriptor>, i: nat, k: nat)
    requires
        i <= k,
        transforms_parse(s, ds, i) is Err,
    ensures
        transforms_parse(s, ds, k) == transforms_parse(s, ds, i),
    decreases k - i,
{
    if i < k {
        lemma_transforms_err(s, ds, i, (k - 1) as nat);
    }
}

/// Reads the reconstruction parameters of one attribute, as
/// [`transform_parse`] and [`transform_read`] describe.
fn read_transform(reader: &mut Reader<'_>, desc: Descriptor) -> (r: Result<AttributeTransform, DecodeError>)
    ensures
        match transform_parse(old(reader).rest(), desc) {
            Ok(n) => (r matches Ok(t) && transform_read(old(reader).rest(), desc, t) && transform_matches(
                t,
                desc.component_type,
                desc.num_components as int,
            ) && n <= old(reader).rest().len() && final(reader).rest() == old(reader).rest().skip(
                n as int,
            )),
            Err(e) => r == Err::<AttributeTransform, DecodeError>(e),
        },
{
    let ghost s = reader.rest();
    match desc.component_type {
        ComponentType::F32 => {
            let mut min_bits: Vec<u32> = Vec::new();
            let mut c: usize = 0;
            proof {
                assert(s.skip(0) =~= s);
            }
            while c < desc.num_components
                invariant
                    s == old(reader).rest(),
                    desc.component_type == ComponentType::F32,
                    c <= desc.num_components,
                    min_bits@.len() == c,
                    4 * c <= s.len(),
                    reader.rest() == s.skip(4 * c),
                    forall|q: int|
                        0 <= q < c ==> #[trigger] min_bits@[q] == le32(s[4 * q], s[4 * q + 1], s[4 * q + 2], s[4 * q + 3]),
                decreases desc.num_components - c,
            {
                let v = match reader.read_u32() {
                    Ok(v) => v,
                    Err(e) => return Err(DecodeError::Reader(e)),
                };
                proof {
                    assert(s.skip(4 * c).skip(4) =~= s.skip(4 * c + 4));
                }
                min_bits.push(v);
                c = c + 1;
            }
            let delta_max_bits = match reader.read_u32() {
                Ok(v) => v,
                Err(e) => return Err(DecodeError::Reader(e)),
            };
            proof {
                assert(s.skip(4 * c).skip(4) =~= s.skip(4 * c + 4));
            }
            let bits = match reader.read_u8() {
                Ok(v) => v,
                Err(e) => return Err(DecodeError::Reader(e)),
            };
            proof {
                assert(s.skip(4 * c + 4).skip(1) =~= s.skip(4 * c + 5));
            }
            if !(1 <= bits && bits <= 31) {
                return Err(DecodeError::MalformedAttribute("quantization bits out of range"));
            }
            Ok(AttributeTransform::Quantized { min_bits, delta_max_bits, bits })
        },
        ComponentType::U8 | ComponentType::U16 | ComponentType::U32 | ComponentType::I8
        | ComponentType::I16 | ComponentType::I32 => {
            proof {
                assert(s.skip(0) =~= s);
            }
            Ok(AttributeTransform::Integer { component_type: desc.component_type })
        },
        _ => Err(DecodeError::MalformedAttribute("unsupported component type in a kd-tree stream")),
    }
}

/// Reads the reconstruction parameters of each attribute: for floats the
/// per-component minimum, the largest extent (as IEEE-754 bits) and the
/// quantization bits (one to 31); integer types need none.
fn read_transforms(reader: &mut Reader<'_>, descriptors: &Vec<Descriptor>) -> (r: Result<
    Vec<AttributeTransform>,
    DecodeError,
>)
    ensures
        match transforms_parse(old(reader).rest(), descriptors@, descriptors@.len()) {
            Ok(n) => (r matches Ok(ts) && ts@.len() == descriptors@.len() && (forall|i: int|
                0 <= i < descriptors@.len() ==> transform_at(old(reader).rest(), descriptors@, i as nat, #[trigger] ts@[i]))
                && final(reader).rest() == old(reader).rest().skip(n as int)),
            Err(e) => r == Err::<Vec<AttributeTransform>, DecodeError>(e),
        },
        r matches Ok(ts) ==> ts@.len() == descriptors@.len() && forall|i: int|
            0 <= i < ts@.len() ==> transform_matches(
                #[trigger] ts@[i],
                descriptors@[i].component_type,
                descriptors@[i].num_components as int,
            ),
{
    let ghost s0 = reader.rest();
    let ghost mut pos: nat = 0;
    let mut transforms: Vec<AttributeTransform> = Vec::new();
    let mut i: usize = 0;
    proof {
        assert(s0.skip(0) =~= s0);
    }
    while i < descriptors.len()
        invariant
            s0 == old(reader).rest(),
            i <= descriptors@.len(),
            transforms@.len() == i,
            transforms_parse(s0, descriptors@, i as nat) == Ok::<nat, DecodeError>(pos),
            pos <= s0.len(),
            reader.rest() == s0.skip(pos as int),
            forall|j: int| 0 <= j < i ==> transform_at(s0, descriptors@, j as nat, #[trigger] transforms@[j]),
            forall|j: int|
                0 <= j < i ==> transform_matches(
                    #[trigger] transforms@[j],
                    descriptors@[j].component_type,
                    descriptors@[j].num_components as int,
                ),
        decreases descriptors@.len() - i,
    {
        let desc = descriptors[i];
        let t = match read_transform(reader, desc) {
            Ok(t) => t,
            Err(e) => {
                proof {
                    assert(transforms_parse(s0, descriptors@, (i + 1) as nat) == Err::<nat, DecodeError>(e));
                    lemma_transforms_err(s0, descriptors@, (i + 1) as nat, descriptors@.len());
                }
                return Err(e);
            },
        };
        let ghost at = pos;
        proof {
            let n = transform_parse(s0.skip(pos as int), desc)->Ok_0;
            assert(transforms_parse(s0, descriptors@, (i + 1) as nat) == Ok::<nat, DecodeError>(pos + n));
            assert(s0.skip(pos as int).skip(n as int) =~= s0.skip((pos + n) as int));
            pos = pos + n;
        }
        let ghost before = transforms@;
        transforms.push(t);
        proof {
            assert forall|j: int| 0 <= j < i implies (#[trigger] transforms@[j]) == before[j] by {}
            assert(transform_at(s0, descriptors@, i as nat, transforms@[i as int]));
        }
        i = i + 1;
    }
    Ok(transforms)
}

/// The shifts of `k` components read one after another at the start of
/// `s`: each a LEB128 zigzag code taken modulo `2^32`; with the bytes they
/// span, or the first error.
pub open spec fn shift_codes(s: Seq<u8>, k: nat) -> Result<(Seq<i32>, nat), DecodeError>
    decreases k,
{
    if k == 0 {
        Ok((Seq::empty(), 0))
    } else {
        match shift_codes(s, (k - 1) as nat) {
            Ok((vs, p)) => match leb_value(s.skip(p as int)) {
                Ok((v, n)) => Ok((vs.push(unzigzag_spec(((v as u64) as u32) as int) as i32), p + n)),
                Err(e) => Err(DecodeError::Reader(e)),
            },
            Err(e) => Err(e),
        }
    }
}

/// The shift of an attribute with descriptor `d` at the start of `s`: one
/// per component for a signed type, none otherwise.
pub open spec fn shift_parse(s: Seq<u8>, d: Descriptor) -> Result<(Seq<i32>, nat), DecodeError> {
    if signed_range(d.component_type) is Some {
        shift_codes(s, d.num_components as nat)
    } else {
        Ok((Seq::empty(), 0))
    }
}

/// The shifts of the first `k` descriptors of `ds` read one after another at
/// the start of `s`, with the bytes they span, or the first error.
pub open spec fn shifts_parse(s: Seq<u8>, ds: Seq<Descriptor>, k: nat) -> Result<(Seq<Seq<i32>>, nat), DecodeError>
    decreases k,
{
    if k == 0 {
        Ok((Seq::empty(), 0))
    } else {
        match shifts_parse(s, ds, (k - 1) as nat) {
            Ok((ss, p)) => match shift_parse(s.skip(p as int), ds[k - 1]) {
                Ok((v, n)) => Ok((ss.push(v), p + n)),
                Err(e) => Err(e),
            },
            Err(e) => Err(e),
        }
    }
}

proof fn lemma_shift_codes_err(s: Seq<u8>, i: nat, k: nat)
    requires
        i <= k,
        shift_codes(s, i) is Err,
    ensures
        shift_codes(s, k) == shift_codes(s, i),
    decreases k - i,
{
    if i < k {
        lemma_shift_codes_err(s, i, (k - 1) as nat);
    }
}

proof fn lemma_shifts_err(s: Seq<u8>, ds: Seq<Descriptor>, i: nat, k: nat)
    requires
        i <= k,
        shifts_parse(s, ds, i) is Err,
    ensures
        shifts_parse(s, ds, k) == shifts_parse(s, ds, i),
    decreases k - i,
{
    if i < k {
        lemma_shifts_err(s, ds, i, (k - 1) as nat);
    }
}

/// Reads the shift of one attribute, as [`shift_parse`] describes.
fn read_shift(reader: &mut Reader<'_>, desc: Descriptor) -> (r: Result<Vec<i32>, DecodeError>)
    ensures
        match shift_parse(old(reader).rest(), desc) {
            Ok((v, n)) => (r matches Ok(shift) && shift@ == v && n <= old(reader).rest().len()
                && final(reader).rest() == old(reader).rest().skip(n as int)),
            Err(e) => r == Err::<Vec<i32>, DecodeError>(e),
        },
{
    let ghost s = reader.rest();
    let ghost mut pos: nat = 0;
    let mut shift: Vec<i32> = Vec::new();
    proof {
        assert(s.skip(0) =~= s);
        assert(shift@ =~= Seq::<i32>::empty());
    }
    if signed_bounds(desc.component_type).is_some() {
        let mut c: usize = 0;
        while c < desc.num_components
            invariant
                s == old(reader).rest(),
                signed_range(desc.component_type) is Some,
                c <= desc.num_components,
                shift_codes(s, c as nat) == Ok::<(Seq<i32>, nat), DecodeError>((shift@, pos)),
                pos <= s.len(),
                reader.rest() == s.skip(pos as int),
            decreases desc.num_components - c,
        {
            let code = match read_leb(reader) {
                Ok(v) => v,
                Err(e) => {
                    proof {
                        assert(shift_codes(s, (c + 1) as nat) == Err::<(Seq<i32>, nat), DecodeError>(e));
                        lemma_shift_codes_err(s, (c + 1) as nat, desc.num_components as nat);
                    }
                    return Err(e);
                },
            };
            let v = unzigzag(#[verifier::truncate] (code as u32));
            proof {
                let n = leb_value(s.skip(pos as int))->Ok_0.1;
                assert(s.skip(pos as int).skip(n as int) =~= s.skip((pos + n) as int));
                pos = pos + n;
            }
            shift.push(v);
            c = c + 1;
        }
    }
    Ok(shift)
}

/// Reads the shift of every component of each signed attribute: a LEB128
/// zigzag code, taken modulo `2^32`; other attributes get none.
fn read_shifts(reader: &mut Reader<'_>, descriptors: &Vec<Descriptor>) -> (r: Result<
    Vec<Vec<i32>>,
    DecodeError,
>)
    ensures
        match shifts_parse(old(reader).rest(), descriptors@, descriptors@.len()) {
            Ok((ss, n)) => (r matches Ok(shifts) && shifts@.len() == descriptors@.len() && (forall|i: int|
                0 <= i < descriptors@.len() ==> (#[trigger] shifts@[i])@ == ss[i])
                && final(reader).rest() == old(reader).rest().skip(n as int)),
            Err(e) => r == Err::<Vec<Vec<i32>>, DecodeError>(e),
        },
        r matches Ok(shifts) ==> shifts@.len() == descriptors@.len() && forall|i: int|
            0 <= i < shifts@.len() ==> (signed_range(descriptors@[i].component_type) is Some
                ==> (#[trigger] shifts@[i])@.len() == descriptors@[i].num_components),
{
    let ghost s0 = reader.rest();
    let ghost mut pos: nat = 0;
    let ghost mut ss: Seq<Seq<i32>> = Seq::empty();
    let mut shifts: Vec<Vec<i32>> = Vec::new();
    let mut i: usize = 0;
    proof {
        assert(s0.skip(0) =~= s0);
    }
    while i < descriptors.len()
        invariant
            s0 == old(reader).rest(),
            i <= descriptors@.len(),
            shifts@.len() == i,
            shifts_parse(s0, descriptors@, i as nat) == Ok::<(Seq<Seq<i32>>, nat), DecodeError>((ss, pos)),
            ss.len() == i,
            pos <= s0.len(),
            reader.rest() == s0.skip(pos as int),
            forall|j: int| 0 <= j < i ==> (#[trigger] shifts@[j])@ == ss[j],
            forall|j: int|
                0 <= j < i ==> (signed_range(descriptors@[j].component_type) is Some ==> (
                #[trigger] shifts@[j])@.len() == descriptors@[j].num_components),
        decreases descriptors@.len() - i,
    {
        let desc = descriptors[i];
        let shift = match read_shift(reader, desc) {
            Ok(v) => v,
            Err(e) => {
                proof {
                    assert(shifts_parse(s0, descriptors@, (i + 1) as nat) == Err::<(Seq<Seq<i32>>, nat), DecodeError>(e));
                    lemma_shifts_err(s0, descriptors@, (i + 1) as nat, descriptors@.len());
                }
                return Err(e);
            },
        };
        proof {
            let (v, n) = shift_parse(s0.skip(pos as int), desc)->Ok_0;
            if signed_range(desc.component_type) is Some {
                lemma_shift_codes_len(s0.skip(pos as int), desc.num_components as nat);
            }
            assert(shift@.len() == v.len());
            assert(s0.skip(pos as int).skip(n as int) =~= s0.skip((pos + n) as int));
            pos = pos + n;
            ss = ss.push(v);
        }
        let ghost before = shifts@;
        shifts.push(shift);
        proof {
            assert forall|j: int| 0 <= j < i implies (#[trigger] shifts@[j]) == before[j] by {}
        }
        i = i + 1;
    }
    Ok(shifts)
}

proof fn lemma_shift_codes_len(s: Seq<u8>, k: nat)
    ensures
        shift_codes(s, k) matches Ok((vs, _)) ==> vs.len() == k,
    decreases k,
{
    if k > 0 {
        lemma_shift_codes_len(s, (k - 1) as nat);
    }
}

/// Reads the eleven-byte header of a point-cloud stream: magic, version
/// 2.3, geometry type 0, the kd-tree method, and the flags; returns whether
/// a metadata section follows.
fn read_pc_header(reader: &mut Reader<'_>) -> (r: Result<bool, DecodeError>)
    ensures
        match pc_header_parse(old(reader).rest()) {
            Ok(m) => r == Ok::<bool, DecodeError>(m) && final(reader).rest() == old(reader).rest().skip(11),
            Err(e) => r == Err::<bool, DecodeError>(e),
        },
{
    let ghost s = reader.rest();
    let mut magic: Vec<u8> = Vec::new();
    let mut k: usize = 0;
    while k < 5
        invariant
            k <= 5,
            magic@.len() == k,
            s == old(reader).rest(),
            s.len() >= k,
            reader.rest() == s.skip(k as int),
            forall|j: int| 0 <= j < k ==> #[trigger] magic@[j] == s[j],
        decreases 5 - k,
    {
        let b = match reader.read_u8() {
            Ok(b) => b,
            Err(e) => return Err(DecodeError::Reader(e)),
        };
        magic.push(b);
        proof {
            assert(s.skip(k as int).skip(1) =~= s.skip(k + 1));
        }
        k = k + 1;
    }
    if !(magic[0] == 68 && magic[1] == 82 && magic[2] == 65 && magic[3] == 67 && magic[4] == 79) {
        return Err(DecodeError::InvalidHeader("missing DRACO magic"));
    }
    let major = match reader.read_u8() {
        Ok(b) => b,
        Err(e) => return Err(DecodeError::Reader(e)),
    };
    let minor = match reader.read_u8() {
        Ok(b) => b,
        Err(e) => return Err(DecodeError::Reader(e)),
    };
    let geometry_type = match reader.read_u8() {
        Ok(b) => b,
        Err(e) => return Err(DecodeError::Reader(e)),
    };
    proof {
        assert(s.skip(5).skip(1).skip(1) =~= s.skip(7));
    }
    if geometry_type != 0 {
        return Err(DecodeError::InvalidHeader("not a point-cloud stream"));
    }
    if !(major == 2 && minor == 3) {
        return Err(DecodeError::UnsupportedVersion(major, minor));
    }
    let method = match reader.read_u8() {
        Ok(b) => b,
        Err(e) => return Err(DecodeError::Reader(e)),
    };
    if method == METHOD_SEQUENTIAL {
        return Err(DecodeError::Unimplemented);
    }
    if method != METHOD_KD_TREE {
        return Err(DecodeError::InvalidHeader("unknown encoder method"));
    }
    let flags = match reader.read_u16() {
        Ok(v) => v,
        Err(e) => return Err(DecodeError::Reader(e)),
    };
    proof {
        assert(s.skip(8).skip(1) =~= s.skip(9));
    }
    proof {
        assert(s.skip(9).skip(2) =~= s.skip(11));
        assert((flags & METADATA_FLAG_MASK != 0) == (flags >= 0x8000)) by (bit_vector);
    }
    Ok(flags & METADATA_FLAG_MASK != 0)
}

/// The prelude of a point-cloud stream at the start of `s`, up to the
/// kd-tree block: the header, the metadata section when flagged, the point
/// count (below 2^31), exactly one attributes decoder, the attribute count
/// (at least one, and at most a fifth of the bytes left), the descriptors
/// and the compression level byte. Gives the point count, the descriptors,
/// the level and the bytes spanned, or the first error.
pub open spec fn pc_prelude_parse(s: Seq<u8>) -> Result<(nat, Seq<Descriptor>, u8, nat), DecodeError> {
    match pc_header_parse(s) {
        Err(e) => Err(e),
        Ok(m) => match (if m {
            section_len(s.skip(11))
        } else {
            Ok(0)
        }) {
            Err(e) => Err(e),
            Ok(a) => {
                let p2: int = 11 + a as int;
                if s.len() < p2 + 4 {
                    Err(DecodeError::Reader(ReaderErr::NotEnoughData))
                } else {
                    let count = le32(s[p2], s[p2 + 1], s[p2 + 2], s[p2 + 3]);
                    let p3: int = p2 + 4;
                    if count > 0x7FFF_FFFF {
                        Err(DecodeError::MalformedAttribute("negative point count"))
                    } else if s.len() < p3 + 1 {
                        Err(DecodeError::Reader(ReaderErr::NotEnoughData))
                    } else if s[p3] != 1 {
                        Err(DecodeError::MalformedAttribute("a kd-tree stream carries exactly one attributes decoder"))
                    } else {
                        let p4: int = p3 + 1;
                        match leb_value(s.skip(p4)) {
                            Err(e) => Err(DecodeError::Reader(e)),
                            Ok((na, b)) => {
                                let p5: int = p4 + b;
                                if na == 0 {
                                    Err(DecodeError::MalformedAttribute("no attributes"))
                                } else if na > (s.len() - p5) / 5 {
                                    Err(DecodeError::MalformedAttribute("attribute count exceeds the stream"))
                                } else {
                                    match pc_descriptors_parse(s.skip(p5), na) {
                                        Err(e) => Err(e),
                                        Ok((ds, c)) => {
                                            let p6: int = p5 + c;
                                            if s.len() < p6 + 1 {
                                                Err(DecodeError::Reader(ReaderErr::NotEnoughData))
                                            } else {
                                                Ok((count as nat, ds, s[p6], (p6 + 1) as nat))
                                            }
                                        },
                                    }
                                }
                            },
                        }
                    }
                }
            },
        },
    }
}

/// The error the kd-tree block header at the start of `s` gives for a
/// cloud of `num_points` points, if any: bit length and point count.
pub open spec fn kd_header_error(s: Seq<u8>, num_points: nat) -> Option<DecodeError> {
    if s.len() < 4 {
        Some(DecodeError::Reader(ReaderErr::NotEnoughData))
    } else if crate::point_cloud::kd_tree::kd_bit_length(s) > 32 {
        Some(DecodeError::MalformedAttribute("kd-tree bit length exceeds 32"))
    } else if s.len() < 8 {
        Some(DecodeError::Reader(ReaderErr::NotEnoughData))
    } else if crate::point_cloud::kd_tree::kd_num_points(s) != num_points {
        Some(DecodeError::MalformedAttribute("kd-tree point count disagrees with the geometry section"))
    } else {
        None
    }
}

/// Reads the prelude of a point-cloud stream, as [`pc_prelude_parse`]
/// describes: the point count, the descriptors, the dimension they add up
/// to, and the compression level.
#[verifier::rlimit(100)]
#[verifier::spinoff_prover]
fn read_pc_prelude(reader: &mut Reader<'_>) -> (r: Result<(usize, Vec<Descriptor>, usize, u8), DecodeError>)
    ensures
        match pc_prelude_parse(old(reader).rest()) {
            Err(e) => r == Err::<(usize, Vec<Descriptor>, usize, u8), DecodeError>(e),
            Ok((np, ds, lvl, k)) => (r matches Ok((n2, d2, dim, l2)) && n2 == np && d2@ == ds && l2 == lvl
                && dim == components_before(ds, ds.len() as int) && ds.len() >= 1 && np <= 0x7FFF_FFFF
                && (forall|i: int|
                0 <= i < ds.len() ==> 1 <= (#[trigger] ds[i]).num_components <= 4 && component_supported(
                    ds[i].component_type,
                )) && k <= old(reader).rest().len() && final(reader).rest() == old(reader).rest().skip(k as int)),
        },
{
    let ghost s = reader.rest();
    let has_metadata = read_pc_header(reader)?;
    let ghost s1 = reader.rest();
    if has_metadata {
        decode_metadata(reader)?;
    }
    let ghost a: int = if has_metadata { section_len(s1)->Ok_0 as int } else { 0 };
    proof {
        assert(s1 == s.skip(11));
        assert(reader.rest() =~= s.skip(11 + a));
    }
    let count = match reader.read_u32() {
        Ok(v) => v,
        Err(e) => return Err(DecodeError::Reader(e)),
    };
    proof {
        let t = s.skip(11 + a);
        assert(t[0] == s[11 + a] && t[1] == s[12 + a] && t[2] == s[13 + a] && t[3] == s[14 + a]);
        assert(reader.rest() =~= s.skip(15 + a));
    }
    if count > 0x7FFF_FFFF {
        return Err(DecodeError::MalformedAttribute("negative point count"));
    }
    let num_points = count as usize;
    let num_decoders = match reader.read_u8() {
        Ok(v) => v,
        Err(e) => return Err(DecodeError::Reader(e)),
    };
    proof {
        assert(reader.rest() =~= s.skip(16 + a));
    }
    if num_decoders != 1 {
        return Err(
            DecodeError::MalformedAttribute(
                "a kd-tree stream carries exactly one attributes decoder",
            ),
        );
    }
    let ghost s4 = reader.rest();
    proof {
        crate::reader::lemma_leb128_len(s4);
    }
    let num_attributes_raw = read_leb(reader)?;
    let ghost b: int = leb_value(s4)->Ok_0.1 as int;
    proof {
        assert(reader.rest() =~= s.skip(16 + a + b));
    }
    if num_attributes_raw == 0 {
        return Err(DecodeError::MalformedAttribute("no attributes"));
    }
    if num_attributes_raw > (reader.remaining() / 5) as u64 {
        return Err(DecodeError::MalformedAttribute("attribute count exceeds the stream"));
    }
    let num_attributes = num_attributes_raw as usize;
    let (descriptors, dimension) = read_descriptors(reader, num_attributes)?;
    let ghost c: int = pc_descriptors_parse(s.skip(16 + a + b), num_attributes as nat)->Ok_0.1 as int;
    proof {
        assert(reader.rest() =~= s.skip(16 + a + b + c));
    }
    let compression_level = match reader.read_u8() {
        Ok(v) => v,
        Err(e) => return Err(DecodeError::Reader(e)),
    };
    proof {
        assert(reader.rest() =~= s.skip(17 + a + b + c));
    }
    Ok((num_points, descriptors, dimension, compression_level))
}

/// Whether some point of the attribute with descriptor `d`, whose columns
/// start at `offset` among the `dimension` kd-tree coordinates, leaves its
/// type's range once shifted by `shift`.
pub open spec fn attribute_out_of_range(
    flat: Seq<u32>,
    dimension: int,
    num_points: int,
    offset: int,
    d: Descriptor,
    shift: Seq<i32>,
) -> bool {
    exists|p: int, c: int|
        0 <= p < num_points && 0 <= c < d.num_components && !value_in_range(
            d.component_type,
            #[trigger] coordinate(flat, dimension, offset, p, c),
            shift[c],
        )
}

/// Whether `att` is the `index`-th attribute, with descriptor `d`, built
/// from the kd-tree coordinates: its columns start at `offset`, each value
/// the portable value of its coordinate under `shift`.
pub open spec fn attribute_built(
    att: PortableAttribute,
    index: int,
    d: Descriptor,
    flat: Seq<u32>,
    dimension: int,
    num_points: int,
    offset: int,
    shift: Seq<i32>,
) -> bool {
    let nc = d.num_components as int;
    &&& att.index == index
    &&& att.att_type == d.att_type
    &&& att.component_type == d.component_type
    &&& att.num_components == d.num_components
    &&& att.values@.len() == num_points * nc
    &&& forall|p: int, c: int|
        0 <= p < num_points && 0 <= c < nc ==> #[trigger] att.values@[p * nc + c] == portable_value(
            d.component_type,
            coordinate(flat, dimension, offset, p, c),
            shift[c],
        )
}

/// What a point-cloud stream `bytes` decodes to past its prelude: the
/// kd-tree block with the coder its level selects, the reconstruction
/// parameters, the shifts, then the values of each attribute, refused when
/// a shifted signed value leaves its type. Only an allocation the machine
/// refuses may stand in place of a decoded cloud.
pub open spec fn pc_body_outcome(bytes: Seq<u8>, r: Result<(PointCloud, Vec<AttributeTransform>), DecodeError>) -> bool {
    match pc_prelude_parse(bytes) {
        Err(_) => true,
        Ok((np, ds, lvl, k)) => {
            let dim = components_before(ds, ds.len() as int);
            match kd_points_decode(bytes.skip(k as int), dim as usize, np as usize, lvl) {
                Err(e) => r == Err::<(PointCloud, Vec<AttributeTransform>), DecodeError>(e) || (lvl <= 6
                    && np > 0 && r matches Err(DecodeError::AllocationTooLarge(_))),
                Ok((flat, n)) => (np > 0 && r matches Err(DecodeError::AllocationTooLarge(_))) || {
                    let t = bytes.skip((k + n) as int);
                    match transforms_parse(t, ds, ds.len()) {
                        Err(e) => r == Err::<(PointCloud, Vec<AttributeTransform>), DecodeError>(e),
                        Ok(n2) => match shifts_parse(t.skip(n2 as int), ds, ds.len()) {
                            Err(e) => r == Err::<(PointCloud, Vec<AttributeTransform>), DecodeError>(e),
                            Ok((ss, _)) => if exists|j: int|
                                0 <= j < ds.len() && attribute_out_of_range(
                                    flat,
                                    dim,
                                    np as int,
                                    components_before(ds, j),
                                    #[trigger] ds[j],
                                    ss[j],
                                ) {
                                r == Err::<(PointCloud, Vec<AttributeTransform>), DecodeError>(
                                    DecodeError::MalformedAttribute(
                                        "signed attribute value out of range for its component type",
                                    ),
                                )
                            } else {
                                r matches Ok((pc, ts)) && pc.num_points == np && pc.attributes@.len() == ds.len()
                                    && ts@.len() == ds.len() && forall|j: int|
                                    0 <= j < ds.len() ==> transform_at(t, ds, j as nat, #[trigger] ts@[j])
                                        && attribute_built(
                                        pc.attributes@[j],
                                        j,
                                        ds[j],
                                        flat,
                                        dim,
                                        np as int,
                                        components_before(ds, j),
                                        ss[j],
                                    )
                            },
                        },
                    }
                },
            }
        },
    }
}

/// Decodes a point-cloud stream into portable integer attributes and the
/// transform each one needs to reach its original format.
#[verifier::rlimit(40)]
pub fn decode_portable(bytes: &[u8]) -> (r: Result<(PointCloud, Vec<AttributeTransform>), DecodeError>)
    ensures
        pc_header_parse(bytes@) matches Err(e) ==> r == Err::<
            (PointCloud, Vec<AttributeTransform>),
            DecodeError,
        >(e),
        r matches Ok((pc, transforms)) ==> pc_header_parse(bytes@) is Ok && point_cloud_shaped(
            pc,
            transforms@,
        ),
        match pc_prelude_parse(bytes@) {
            Err(e) => r == Err::<(PointCloud, Vec<AttributeTransform>), DecodeError>(e),
            Ok((np, ds, lvl, k)) => {
                &&& lvl > 6 ==> r == Err::<(PointCloud, Vec<AttributeTransform>), DecodeError>(
                    DecodeError::MalformedAttribute("unsupported kd-tree compression level"),
                )
                &&& lvl <= 6 ==> (kd_header_error(bytes@.skip(k as int), np) matches Some(e) ==> r == Err::<
                    (PointCloud, Vec<AttributeTransform>),
                    DecodeError,
                >(e))
                &&& r matches Ok((pc, _)) ==> pc.num_points == np && pc.attributes@.len() == ds.len() && (
                forall|i: int|
                    0 <= i < ds.len() ==> (#[trigger] pc.attributes@[i]).att_type == ds[i].att_type
                        && pc.attributes@[i].component_type == ds[i].component_type
                        && pc.attributes@[i].num_components == ds[i].num_components)
            },
        },
        pc_body_outcome(bytes@, r),
{
    let mut reader = Reader::new(bytes);
    let (num_points, descriptors, dimension, compression_level) = read_pc_prelude(&mut reader)?;
    let num_attributes = descriptors.len();
    proof {
        assert(descriptors@[0].num_components >= 1);
        lemma_components_before_mono(descriptors@, 1, num_attributes as int);
        assert(components_before(descriptors@, 0) == 0);
        assert(components_before(descriptors@, 1) == descriptors@[0].num_components);
    }
    let ghost kd_rest = reader.rest();
    let ghost (_np, _ds, _lvl, k) = pc_prelude_parse(bytes@)->Ok_0;
    let flat = decode_points(&mut reader, dimension, num_points, compression_level)?;
    let ghost n_kd = kd_points_decode(kd_rest, dimension, num_points, compression_level)->Ok_0.1;
    proof {
        assert(kd_rest == bytes@.skip(k as int));
        assert(kd_outcome(kd_rest, dimension, num_points, Ok::<Vec<u32>, DecodeError>(flat)));
        assert(compression_level <= 6);
        assert(kd_header_error(kd_rest, num_points as nat) is None);
        if num_points == 0 {
            assert(num_points * dimension == 0) by (nonlinear_arith)
                requires
                    num_points == 0,
            ;
        }
        assert(flat@.len() == num_points * dimension);
        assert(kd_points_decode(kd_rest, dimension, num_points, compression_level) == Ok::<(Seq<u32>, nat), DecodeError>((flat@, n_kd)));
        assert(reader.rest() =~= bytes@.skip((k + n_kd) as int));
    }
    let ghost t = reader.rest();
    let transforms = read_transforms(&mut reader, &descriptors)?;
    let ghost n2 = transforms_parse(t, descriptors@, descriptors@.len())->Ok_0;
    let shifts = read_shifts(&mut reader, &descriptors)?;
    let ghost ss = shifts_parse(t.skip(n2 as int), descriptors@, descriptors@.len())->Ok_0.0;
    let mut attributes: Vec<PortableAttribute> = Vec::new();
    let mut offset: usize = 0;
    let mut i: usize = 0;
    while i < num_attributes
        invariant
            pc_header_parse(bytes@) is Ok,
            pc_prelude_parse(bytes@) == Ok::<(nat, Seq<Descriptor>, u8, nat), DecodeError>(
                (num_points as nat, descriptors@, compression_level, k),
            ),
            compression_level <= 6,
            kd_header_error(bytes@.skip(k as int), num_points as nat) is None,
            descriptors@.len() == num_attributes,
            transforms@.len() == num_attributes,
            shifts@.len() == num_attributes,
            num_attributes >= 1,
            dimension == components_before(descriptors@, num_attributes as int),
            flat@.len() == num_points * dimension,
            num_points <= 0x7FFF_FFFF,
            i <= num_attributes,
            offset == components_before(descriptors@, i as int),
            forall|j: int|
                0 <= j < num_attributes ==> 1 <= (#[trigger] descriptors@[j]).num_components <= 4
                    && component_supported(descriptors@[j].component_type),
            forall|j: int|
                0 <= j < num_attributes ==> transform_matches(
                    #[trigger] transforms@[j],
                    descriptors@[j].component_type,
                    descriptors@[j].num_components as int,
                ),
            forall|j: int|
                0 <= j < num_attributes ==> (signed_range(descriptors@[j].component_type) is Some
                    ==> (#[trigger] shifts@[j])@.len() == descriptors@[j].num_components),
            attributes@.len() == i,
            kd_rest == bytes@.skip(k as int),
            kd_points_decode(kd_rest, dimension, num_points, compression_level) == Ok::<(Seq<u32>, nat), DecodeError>((flat@, n_kd)),
            t == bytes@.skip((k + n_kd) as int),
            transforms_parse(t, descriptors@, descriptors@.len()) == Ok::<nat, DecodeError>(n2),
            shifts_parse(t.skip(n2 as int), descriptors@, descriptors@.len()) is Ok,
            shifts_parse(t.skip(n2 as int), descriptors@, descriptors@.len())->Ok_0.0 == ss,
            forall|j: int| 0 <= j < num_attributes ==> (#[trigger] shifts@[j])@ == ss[j],
            forall|j: int| 0 <= j < num_attributes ==> transform_at(t, descriptors@, j as nat, #[trigger] transforms@[j]),
            forall|j: int|
                0 <= j < i ==> !attribute_out_of_range(
                    flat@,
                    dimension as int,
                    num_points as int,
                    components_before(descriptors@, j),
                    #[trigger] descriptors@[j],
                    ss[j],
                ),
            forall|j: int|
                0 <= j < i ==> attribute_built(
                    #[trigger] attributes@[j],
                    j,
                    descriptors@[j],
                    flat@,
                    dimension as int,
                    num_points as int,
                    components_before(descriptors@, j),
                    ss[j],
                ),
            forall|j: int|
                0 <= j < i ==> {
                    let att = #[trigger] attributes@[j];
                    &&& att.index == j
                    &&& att.att_type == descriptors@[j].att_type
                    &&& att.num_components == descriptors@[j].num_components
                    &&& att.component_type == descriptors@[j].component_type
                    &&& att.values@.len() == num_points * att.num_components
                },
        decreases num_attributes - i,
    {
        proof {
            lemma_components_before_mono(descriptors@, i + 1, num_attributes as int);
        }
        let att = match build_attribute(i, &descriptors[i], &shifts[i], &flat, dimension, offset, num_points) {
            Ok(a) => a,
            Err(e) => {
                proof {
                    assert(shifts@[i as int]@ == ss[i as int]);
                    assert(attribute_out_of_range(
                        flat@,
                        dimension as int,
                        num_points as int,
                        components_before(descriptors@, i as int),
                        descriptors@[i as int],
                        ss[i as int],
                    ));
                }
                return Err(e);
            },
        };
        let ghost before = attributes@;
        attributes.push(att);
        proof {
            assert(shifts@[i as int]@ == ss[i as int]);
            assert(!attribute_out_of_range(
                flat@,
                dimension as int,
                num_points as int,
                components_before(descriptors@, i as int),
                descriptors@[i as int],
                ss[i as int],
            ));
            assert forall|j: int| 0 <= j < i implies (#[trigger] attributes@[j]) == before[j] by {}
        }
        offset = offset + descriptors[i].num_components;
        i = i + 1;
    }
    let pc = PointCloud { num_points, attributes };
    proof {
        assert forall|j: int| 0 <= j < pc.attributes@.len() implies transform_matches(
            transforms@[j],
            (#[trigger] pc.attributes@[j]).component_type,
            pc.attributes@[j].num_components as int,
        ) by {
            assert(transform_matches(
                transforms@[j],
                descriptors@[j].component_type,
                descriptors@[j].num_components as int,
            ));
        }
    }
    Ok((pc, transforms))
}

} // verus!
