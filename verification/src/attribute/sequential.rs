//! The attribute section of sequentially encoded meshes: one encoder
//! carries every attribute, values run linearly over the points, and with
//! no corner table to predict from only delta prediction (or none) applies.

use vstd::prelude::*;
use crate::attribute::{
    dispatched_parse, leb_value, parse_payload_dispatched, read_leb, AttributeDomain,
    DecodedAttributes, Descriptor, MeshAttribute, NO_ATTRIBUTE_DATA,
};
use crate::attribute::inverse_transform::{original_fits, original_values, InverseTransform};
use crate::attribute::payload::{
    generic_payload_parse, ints_of, payload_view, port_error, port_len, port_matches, predicted_payload_parse,
    read_portabilization, scheme_values, unzigzag_i32, Payload, PORT_GENERIC,
};
use crate::attribute::payload::corrections_parse;
use crate::attribute::prediction::PredictionSchemeType;
use crate::connectivity::sequential::SequentialConnectivity;
use crate::decode::attribute::TraversalType;
use crate::entropy::unzigzag;
use crate::error::{DecodeError, ReaderErr};
use crate::point_cloud::{component_of, kind_of, AttributeKind, AttributeTransform, ComponentType};
use crate::reader::Reader;

verus! {

/// The fields every descriptor starts with, at the start of `s`: kind,
/// component type, component count, the normalized flag (skipped) and the
/// unique id (kept modulo 2^32); with the bytes they span.
pub open spec fn fields_parse(s: Seq<u8>) -> Result<
    ((AttributeKind, ComponentType, u8, u32), nat),
    DecodeError,
> {
    if s.len() < 1 {
        Err(DecodeError::Reader(ReaderErr::NotEnoughData))
    } else {
        match kind_of(s[0]) {
            None => Err(DecodeError::MalformedAttribute("unknown attribute type")),
            Some(kind) => if s.len() < 2 {
                Err(DecodeError::Reader(ReaderErr::NotEnoughData))
            } else {
                match component_of(s[1]) {
                    None => Err(DecodeError::MalformedAttribute("unknown component type")),
                    Some(ct) => if s.len() < 4 {
                        Err(DecodeError::Reader(ReaderErr::NotEnoughData))
                    } else {
                        match leb_value(s.skip(4)) {
                            Err(e) => Err(DecodeError::Reader(e)),
                            Ok((v, n)) => Ok(((kind, ct, s[2], v as u32), 4 + n)),
                        }
                    },
                }
            },
        }
    }
}

/// `count` descriptor field groups at the start of `s`.
pub open spec fn fields_list_parse(s: Seq<u8>, count: nat) -> Result<
    (Seq<(AttributeKind, ComponentType, u8, u32)>, nat),
    DecodeError,
>
    decreases count,
{
    if count == 0 {
        Ok((Seq::empty(), 0))
    } else {
        match fields_parse(s) {
            Err(e) => Err(e),
            Ok((f, k)) => match fields_list_parse(s.skip(k as int), (count - 1) as nat) {
                Err(e) => Err(e),
                Ok((fs, k2)) => Ok((seq![f] + fs, k + k2)),
            },
        }
    }
}

/// The descriptor of a sequential attribute: per point, over no
/// attribute connectivity.
pub open spec fn sequential_descriptor(f: (AttributeKind, ComponentType, u8, u32), port: u8) -> Descriptor {
    Descriptor {
        att_data_id: NO_ATTRIBUTE_DATA,
        att_type: f.0,
        component_type: f.1,
        num_components: f.2 as usize,
        uid: f.3,
        port_type: port,
        domain: AttributeDomain::Position,
        traversal: TraversalType::DepthFirst,
    }
}

/// The descriptors of the single attribute encoder at the start of `s`: an
/// LEB128 count (at most a fifth of the bytes after it), the field groups,
/// then one portabilization byte per attribute.
pub open spec fn descriptors_parse(s: Seq<u8>) -> Result<(Seq<Descriptor>, nat), DecodeError> {
    match leb_value(s) {
        Err(e) => Err(DecodeError::Reader(e)),
        Ok((num, n)) => if num > (s.len() - n) / 5 {
            Err(DecodeError::MalformedAttribute("attribute count exceeds the stream"))
        } else {
            match fields_list_parse(s.skip(n as int), num) {
                Err(e) => Err(e),
                Ok((fs, k)) => if s.len() < n + k + num {
                    Err(DecodeError::Reader(ReaderErr::NotEnoughData))
                } else {
                    Ok(
                        (
                            Seq::new(num, |i: int| sequential_descriptor(fs[i], s[n + k + i])),
                            n + k + num,
                        ),
                    )
                },
            }
        },
    }
}

proof fn lemma_fields_list_len(s: Seq<u8>, count: nat)
    ensures
        fields_list_parse(s, count) matches Ok((fs, k)) ==> fs.len() == count,
    decreases count,
{
    if count > 0 {
        if let Ok((f, k)) = fields_parse(s) {
            lemma_fields_list_len(s.skip(k as int), (count - 1) as nat);
        }
    }
}

/// The parse of the remaining groups behind `done` groups spanning `used`
/// bytes.
pub open spec fn prepend_fields(
    done: Seq<(AttributeKind, ComponentType, u8, u32)>,
    used: nat,
    rest: Result<(Seq<(AttributeKind, ComponentType, u8, u32)>, nat), DecodeError>,
) -> Result<(Seq<(AttributeKind, ComponentType, u8, u32)>, nat), DecodeError> {
    match rest {
        Ok((fs, k)) => Ok((done + fs, used + k)),
        Err(e) => Err(e),
    }
}

/// Reads one descriptor field group.
fn read_fields(reader: &mut Reader<'_>) -> (r: Result<(AttributeKind, ComponentType, u8, u32), DecodeError>)
    ensures
        match fields_parse(old(reader).rest()) {
            Ok((f, k)) => r == Ok::<(AttributeKind, ComponentType, u8, u32), DecodeError>(f)
                && k <= old(reader).rest().len() && final(reader).rest() == old(reader).rest().skip(k as int),
            Err(e) => r == Err::<(AttributeKind, ComponentType, u8, u32), DecodeError>(e),
        },
{
    let ghost s = reader.rest();
    let att_type = match reader.read_u8() {
        Ok(id) => match AttributeKind::from_id(id) {
            Some(k) => k,
            None => return Err(DecodeError::MalformedAttribute("unknown attribute type")),
        },
        Err(e) => return Err(DecodeError::Reader(e)),
    };
    let component_type = match reader.read_u8() {
        Ok(id) => match ComponentType::from_id(id) {
            Some(t) => t,
            None => return Err(DecodeError::MalformedAttribute("unknown component type")),
        },
        Err(e) => return Err(DecodeError::Reader(e)),
    };
    let num_components = match reader.read_u8() {
        Ok(b) => b,
        Err(e) => return Err(DecodeError::Reader(e)),
    };
    let _normalized = match reader.read_u8() {
        Ok(b) => b,
        Err(e) => return Err(DecodeError::Reader(e)),
    };
    proof {
        assert(reader.rest() =~= s.skip(4));
    }
    let uid = read_leb(reader)?;
    proof {
        let (v, n) = leb_value(s.skip(4))->Ok_0;
        assert(s.skip(4).skip(n as int) =~= s.skip((4 + n) as int));
    }
    Ok((att_type, component_type, num_components, #[verifier::truncate] (uid as u32)))
}

/// Reads `num_atts` descriptor field groups.
fn read_field_groups(reader: &mut Reader<'_>, num_atts: usize) -> (r: Result<
    Vec<(AttributeKind, ComponentType, u8, u32)>,
    DecodeError,
>)
    ensures
        match fields_list_parse(old(reader).rest(), num_atts as nat) {
            Ok((fs, k)) => (r matches Ok(v) && v@ == fs && k <= old(reader).rest().len()
                && final(reader).rest() == old(reader).rest().skip(k as int)),
            Err(e) => r == Err::<Vec<(AttributeKind, ComponentType, u8, u32)>, DecodeError>(e),
        },
{
    let ghost s1 = reader.rest();
    let ghost total = fields_list_parse(s1, num_atts as nat);
    let mut fields: Vec<(AttributeKind, ComponentType, u8, u32)> = Vec::new();
    let ghost mut used: nat = 0;
    let mut i: usize = 0;
    proof {
        assert(s1.skip(0) =~= s1);
        if let Ok((fs, k)) = total {
            assert(Seq::<(AttributeKind, ComponentType, u8, u32)>::empty() + fs =~= fs);
        }
    }
    while i < num_atts
        invariant
            s1 == old(reader).rest(),
            i <= num_atts,
            total == fields_list_parse(s1, num_atts as nat),
            used <= s1.len(),
            reader.rest() == s1.skip(used as int),
            fields@.len() == i,
            total == prepend_fields(fields@, used, fields_list_parse(
                reader.rest(),
                (num_atts - i) as nat,
            )),
        decreases num_atts - i,
    {
        let ghost cur = reader.rest();
        let f = match read_fields(reader) {
            Ok(f) => f,
            Err(e) => {
                proof {
                    assert(total == Err::<(Seq<(AttributeKind, ComponentType, u8, u32)>, nat), DecodeError>(e));
                }
                return Err(e);
            },
        };
        proof {
            let (ff, k) = fields_parse(cur)->Ok_0;
            assert(s1.skip(used as int).skip(k as int) =~= s1.skip((used + k) as int));
            match fields_list_parse(reader.rest(), (num_atts - i - 1) as nat) {
                Ok((fs, k2)) => {
                    assert(fields@.push(f) + fs =~= fields@ + (seq![f] + fs));
                },
                Err(e) => {},
            }
            used = used + k;
        }
        fields.push(f);
        i = i + 1;
    }
    proof {
        assert(fields@ + Seq::<(AttributeKind, ComponentType, u8, u32)>::empty() =~= fields@);
    }
    Ok(fields)
}

/// Reads one portabilization byte per field group and assembles the
/// descriptors.
fn read_port_types(reader: &mut Reader<'_>, fields: &Vec<(AttributeKind, ComponentType, u8, u32)>) -> (r:
    Result<Vec<Descriptor>, DecodeError>)
    ensures
        old(reader).rest().len() < fields@.len() ==> r == Err::<Vec<Descriptor>, DecodeError>(
            DecodeError::Reader(ReaderErr::NotEnoughData),
        ),
        old(reader).rest().len() >= fields@.len() ==> (r matches Ok(ds) && ds@ == Seq::new(
            fields@.len(),
            |m: int| sequential_descriptor(fields@[m], old(reader).rest()[m]),
        ) && final(reader).rest() == old(reader).rest().skip(fields@.len() as int)),
{
    let ghost s2 = reader.rest();
    let num_atts = fields.len();
    let mut descriptors: Vec<Descriptor> = Vec::new();
    let mut j: usize = 0;
    while j < num_atts
        invariant
            s2 == old(reader).rest(),
            num_atts == fields@.len(),
            j <= num_atts,
            reader.rest() == s2.skip(j as int),
            s2.len() >= j,
            descriptors@.len() == j,
            forall|m: int| 0 <= m < j ==> #[trigger] descriptors@[m] == sequential_descriptor(
                fields@[m],
                s2[m],
            ),
        decreases num_atts - j,
    {
        let port_type = match reader.read_u8() {
            Ok(b) => b,
            Err(e) => return Err(DecodeError::Reader(e)),
        };
        proof {
            assert(s2.skip(j as int).skip(1) =~= s2.skip(j + 1));
        }
        let f = fields[j];
        descriptors.push(
            Descriptor {
                att_data_id: NO_ATTRIBUTE_DATA,
                att_type: f.0,
                component_type: f.1,
                num_components: f.2 as usize,
                uid: f.3,
                port_type,
                domain: AttributeDomain::Position,
                traversal: TraversalType::DepthFirst,
            },
        );
        j = j + 1;
    }
    proof {
        assert(descriptors@ =~= Seq::new(
            fields@.len(),
            |m: int| sequential_descriptor(fields@[m], s2[m]),
        ));
    }
    Ok(descriptors)
}

/// Reads the descriptors of a sequential stream's single attribute encoder.
pub fn read_descriptors(reader: &mut Reader<'_>) -> (r: Result<Vec<Descriptor>, DecodeError>)
    ensures
        match descriptors_parse(old(reader).rest()) {
            Ok((ds, k)) => (r matches Ok(v) && v@ == ds && k <= old(reader).rest().len()
                && final(reader).rest() == old(reader).rest().skip(k as int)),
            Err(e) => r == Err::<Vec<Descriptor>, DecodeError>(e),
        },
{
    let ghost s = reader.rest();
    let num = read_leb(reader)?;
    let ghost n = leb_value(s)->Ok_0.1;
    if num > (reader.remaining() / 5) as u64 {
        return Err(DecodeError::MalformedAttribute("attribute count exceeds the stream"));
    }
    let num_atts = num as usize;
    proof {
        lemma_fields_list_len(reader.rest(), num_atts as nat);
    }
    let fields = read_field_groups(reader, num_atts)?;
    let ghost k = fields_list_parse(s.skip(n as int), num as nat)->Ok_0.1;
    proof {
        assert(reader.rest() =~= s.skip((n + k) as int));
    }
    let ghost s2 = reader.rest();
    proof {
        assert(fields@.len() == num_atts);
        if s2.len() < num_atts {
            assert(s.len() < n + k + num);
        }
    }
    let descriptors = read_port_types(reader, &fields)?;
    proof {
        assert(s2.len() >= num_atts);
        assert(s.len() >= n + k + num_atts);
        assert forall|m: int| 0 <= m < num_atts implies s2[m] == s[n + k + m] by {}
        assert(descriptors@ =~= Seq::new(num as nat, |m: int| sequential_descriptor(fields@[m], s[n + k + m])));
        assert(s2.skip(num_atts as int) =~= s.skip((n + k + num_atts) as int));
    }
    Ok(descriptors)
}

/// `n` zeros.
pub open spec fn zeros(n: nat) -> Seq<i32> {
    Seq::new(n, |i: int| 0i32)
}

/// `v` narrowed into i32s.
pub open spec fn i32s_of(v: Seq<int>) -> Seq<i32> {
    Seq::new(v.len(), |i: int| v[i] as i32)
}

/// Whether transform `t` zigzag-maps its corrections.
pub open spec fn zigzagged(t: InverseTransform) -> bool {
    t is Difference || t is Wrapped
}

/// The correction of value `k`: its `n` components, unzigzagged when `zig`.
pub open spec fn value_correction(corr: Seq<int>, n: nat, k: int, zig: bool) -> Seq<i32> {
    Seq::new(
        n,
        |i: int|
            (if zig {
                unzigzag_i32(corr[k * n + i])
            } else {
                corr[k * n + i]
            }) as i32,
    )
}

/// The first `k` values (flattened) reconstructed in point order, each from
/// its correction and, with delta prediction, the value before it (the
/// first from zero); `None` where a reconstruction leaves `i32`.
pub open spec fn sequential_values(t: InverseTransform, delta: bool, corr: Seq<int>, n: nat, k: nat) -> Option<
    Seq<i32>,
>
    decreases k,
{
    if k == 0 {
        Some(Seq::empty())
    } else {
        match sequential_values(t, delta, corr, n, (k - 1) as nat) {
            None => None,
            Some(prev) => {
                let pred = if delta && k >= 2 {
                    prev.subrange((k - 2) * n, (k - 1) * n)
                } else {
                    zeros(n)
                };
                let c = value_correction(corr, n, k - 1, zigzagged(t));
                if original_fits(t, pred, c) {
                    Some(prev + i32s_of(original_values(t, pred, c)))
                } else {
                    None
                }
            },
        }
    }
}

/// With delta prediction under the difference transform, each value is the
/// one before it plus its unzigzagged correction, component by component;
/// the first value is its correction alone.
pub proof fn lemma_sequential_deltas_accumulate(corr: Seq<int>, n: nat, k: nat, j: int, i: int)
    requires
        sequential_values(InverseTransform::Difference, true, corr, n, k) is Some,
        forall|m: int| 0 <= m < corr.len() ==> i32::MIN <= #[trigger] corr[m] <= i32::MAX,
        0 <= j < k,
        0 <= i < n,
        k * n <= corr.len(),
    ensures
        ({
            let vals = sequential_values(InverseTransform::Difference, true, corr, n, k)->Some_0;
            &&& vals.len() == k * n
            &&& vals[j * n + i] as int == (if j == 0 {
                0
            } else {
                vals[(j - 1) * n + i] as int
            }) + unzigzag_i32(corr[j * n + i])
        }),
    decreases k,
{
    let t = InverseTransform::Difference;
    lemma_sequential_values_len(t, true, corr, n, k);
    let vals = sequential_values(t, true, corr, n, k)->Some_0;
    let prev = sequential_values(t, true, corr, n, (k - 1) as nat)->Some_0;
    lemma_sequential_values_len(t, true, corr, n, (k - 1) as nat);
    if j < k - 1 {
        lemma_sequential_deltas_accumulate(corr, n, (k - 1) as nat, j, i);
        assert(j * n + i < (k - 1) * n) by (nonlinear_arith)
            requires
                j < k - 1,
                i < n,
        ;
        if j > 0 {
            assert((j - 1) * n + i < (k - 1) * n) by (nonlinear_arith)
                requires
                    j < k - 1,
                    i < n,
            ;
        }
        assert((k - 1) * n <= k * n) by (nonlinear_arith);
    } else {
        let pred = if k >= 2 {
            prev.subrange((k - 2) * n, (k - 1) * n)
        } else {
            zeros(n)
        };
        let c = value_correction(corr, n, k - 1, true);
        assert(vals == prev + i32s_of(original_values(t, pred, c)));
        assert(j * n + i == prev.len() + i);
        assert(j * n + n == k * n && j * n >= 0) by (nonlinear_arith)
            requires
                j == k - 1,
                j >= 0,
        ;
        let x = corr[j * n + i];
        crate::entropy::lemma_zigzag_inverts_unzigzag(if x >= 0 { x } else { x + 0x1_0000_0000 });
        assert(c[i] as int == unzigzag_i32(x));
        assert(original_fits(t, pred, c));
        assert(crate::attribute::inverse_transform::component_fits(t, pred[i] as int, c[i] as int));
        if k >= 2 {
            assert((k - 2) * n + n == (k - 1) * n) by (nonlinear_arith);
            assert(pred[i] == prev[(k - 2) * n + i]);
        }
    }
}

/// The values a sequential stream reconstructs for `num_points` points of
/// `n` components from scheme `scheme`, corrections `corr` and transform
/// `t`.
pub open spec fn sequential_decode(
    scheme: PredictionSchemeType,
    corr: Seq<int>,
    t: InverseTransform,
    n: nat,
    num_points: nat,
) -> Result<Seq<i32>, DecodeError> {
    if scheme == PredictionSchemeType::DeltaPrediction || scheme == PredictionSchemeType::NoPrediction {
        match sequential_values(t, scheme == PredictionSchemeType::DeltaPrediction, corr, n, num_points) {
            Some(v) => Ok(v),
            None => Err(DecodeError::MalformedAttribute("reconstructed value out of range")),
        }
    } else {
        Err(DecodeError::MalformedAttribute("a sequential stream has no connectivity to predict from"))
    }
}

proof fn lemma_sequential_values_len(t: InverseTransform, delta: bool, corr: Seq<int>, n: nat, k: nat)
    ensures
        sequential_values(t, delta, corr, n, k) matches Some(v) ==> v.len() == k * n,
    decreases k,
{
    if k == 0 {
        assert(k * n == 0) by (nonlinear_arith)
            requires
                k == 0,
        ;
    } else {
        lemma_sequential_values_len(t, delta, corr, n, (k - 1) as nat);
        if let Some(prev) = sequential_values(t, delta, corr, n, (k - 1) as nat) {
            if delta && k >= 2 {
                assert((k - 1) * n - (k - 2) * n == n) by (nonlinear_arith)
                    requires
                        k >= 2,
                ;
            }
            let pred = if delta && k >= 2 {
                prev.subrange((k - 2) * n, (k - 1) * n)
            } else {
                zeros(n)
            };
            let c = value_correction(corr, n, k - 1, zigzagged(t));
            assert(pred.len() == n);
            assert(prev.len() == (k - 1) * n);
            if original_fits(t, pred, c) {
                assert(original_values(t, pred, c).len() == n);
                assert(i32s_of(original_values(t, pred, c)).len() == n);
                assert((prev + i32s_of(original_values(t, pred, c))).len() == (k - 1) * n + n);
            }
            assert((k - 1) * n + n == k * n) by (nonlinear_arith);
            assert(sequential_values(t, delta, corr, n, k) == if original_fits(t, pred, c) {
                Some(prev + i32s_of(original_values(t, pred, c)))
            } else {
                None::<Seq<i32>>
            });
        }
    }
}

/// The prediction and correction of value `k`: the previous value under
/// delta prediction (zero for the first), and the value's correction.
fn value_inputs(
    corrections: &Vec<i32>,
    values: &Vec<i32>,
    zig: bool,
    delta: bool,
    n: usize,
    k: usize,
    num_points: usize,
) -> (r: (Vec<i32>, Vec<i32>))
    requires
        1 <= n <= 4,
        k < num_points,
        num_points * n <= usize::MAX / 4,
        corrections@.len() == num_points * n,
        values@.len() == k * n,
    ensures
        r.0@ == (if delta && k >= 1 {
            values@.subrange((k - 1) * n, k * n)
        } else {
            zeros(n as nat)
        }),
        r.1@ == value_correction(ints_of(corrections@), n as nat, k as int, zig),
{
    proof {
        assert((k + 1) * n <= num_points * n) by (nonlinear_arith)
            requires
                k < num_points,
        ;
        assert((k + 1) * n == k * n + n) by (nonlinear_arith);
    }
    let ghost corr = ints_of(corrections@);
    let base = k * n;
    let mut c: Vec<i32> = Vec::new();
    let mut pred: Vec<i32> = Vec::new();
    let mut i: usize = 0;
    while i < n
        invariant
            1 <= n <= 4,
            base == k * n,
            base + n <= num_points * n,
            num_points * n <= usize::MAX / 4,
            corrections@.len() == num_points * n,
            corr == ints_of(corrections@),
            i <= n,
            c@.len() == i,
            pred@.len() == i,
            values@.len() == k * n,
            forall|j: int| 0 <= j < i ==> #[trigger] c@[j] == value_correction(corr, n as nat, k as int, zig)[j],
            forall|j: int|
                0 <= j < i ==> #[trigger] pred@[j] == (if delta && k >= 1 {
                    values@[(k - 1) * n + j]
                } else {
                    0i32
                }),
        decreases n - i,
    {
        let x = corrections[base + i];
        let v = if zig {
            let u = #[verifier::truncate] (x as u32);
            proof {
                assert(x >= 0 ==> u == x) by (bit_vector)
                    requires
                        u == x as u32,
                ;
                assert(x < 0 ==> u == x + 0x1_0000_0000) by (bit_vector)
                    requires
                        u == x as u32,
                ;
            }
            unzigzag(u)
        } else {
            x
        };
        c.push(v);
        let p = if delta && k >= 1 {
            proof {
                assert((k - 1) * n + i < k * n) by (nonlinear_arith)
                    requires
                        k >= 1,
                        i < n,
                ;
            }
            values[(k - 1) * n + i]
        } else {
            0i32
        };
        pred.push(p);
        i = i + 1;
    }
    proof {
        if delta && k >= 1 {
            assert((k - 1) * n + n == k * n) by (nonlinear_arith)
                requires
                    k >= 1,
            ;
            assert(pred@ =~= values@.subrange((k - 1) * n, k * n));
        } else {
            assert(pred@ =~= zeros(n as nat));
        }
        assert(c@ =~= value_correction(corr, n as nat, k as int, zig));
    }
    (pred, c)
}

/// Appends `tail` to `values`.
fn append_values(values: &mut Vec<i32>, tail: &Vec<i32>)
    requires
        old(values)@.len() + tail@.len() <= usize::MAX,
    ensures
        final(values)@ == old(values)@ + tail@,
{
    let ghost prev = values@;
    let mut j: usize = 0;
    while j < tail.len()
        invariant
            j <= tail@.len(),
            prev.len() + tail@.len() <= usize::MAX,
            values@ == prev + tail@.subrange(0, j as int),
        decreases tail@.len() - j,
    {
        values.push(tail[j]);
        proof {
            assert(prev + tail@.subrange(0, j + 1) =~= (prev + tail@.subrange(0, j as int)).push(tail@[j as int]));
        }
        j = j + 1;
    }
    proof {
        assert(tail@.subrange(0, tail@.len() as int) =~= tail@);
    }
}

/// Once a reconstruction leaves `i32`, no longer prefix reconstructs.
proof fn lemma_sequential_values_none(t: InverseTransform, delta: bool, corr: Seq<int>, n: nat, k: nat, m: nat)
    requires
        k <= m,
        sequential_values(t, delta, corr, n, k) is None,
    ensures
        sequential_values(t, delta, corr, n, m) is None,
    decreases m - k,
{
    if k < m {
        lemma_sequential_values_none(t, delta, corr, n, k, (m - 1) as nat);
    }
}

/// Reconstructs a sequential attribute's values in point order from its
/// payload: `num_points` values of `n` components.
pub fn decode_values(payload: &Payload, n: usize, num_points: usize) -> (r: Result<Vec<i32>, DecodeError>)
    requires
        1 <= n <= 4,
        num_points * n <= usize::MAX / 4,
        payload.corrections@.len() == num_points * n,
    ensures
        match sequential_decode(
            payload.scheme,
            payload_view(*payload).1,
            payload.transform,
            n as nat,
            num_points as nat,
        ) {
            Ok(v) => (r matches Ok(w) && w@ == v),
            Err(e) => r == Err::<Vec<i32>, DecodeError>(e),
        },
{
    let delta = match payload.scheme {
        PredictionSchemeType::DeltaPrediction => true,
        PredictionSchemeType::NoPrediction => false,
        _ => {
            return Err(
                DecodeError::MalformedAttribute("a sequential stream has no connectivity to predict from"),
            );
        },
    };
    let transform = payload.transform;
    let zig = transform.corrections_are_zigzagged();
    let ghost corr = payload_view(*payload).1;
    let mut values: Vec<i32> = Vec::new();
    let mut k: usize = 0;
    while k < num_points
        invariant
            1 <= n <= 4,
            num_points * n <= usize::MAX / 4,
            payload.corrections@.len() == num_points * n,
            corr == ints_of(payload.corrections@),
            transform == payload.transform,
            zig == zigzagged(transform),
            delta == (payload.scheme == PredictionSchemeType::DeltaPrediction),
            payload.scheme == PredictionSchemeType::DeltaPrediction || payload.scheme
                == PredictionSchemeType::NoPrediction,
            k <= num_points,
            sequential_values(transform, delta, corr, n as nat, k as nat) == Some(values@),
            values@.len() == k * n,
        decreases num_points - k,
    {
        let ghost prev = values@;
        let (pred, c) = value_inputs(&payload.corrections, &values, zig, delta, n, k, num_points);
        proof {
            assert(sequential_values(transform, delta, corr, n as nat, (k + 1) as nat) == if original_fits(transform, pred@, c@) {
                Some(prev + i32s_of(original_values(transform, pred@, c@)))
            } else {
                None::<Seq<i32>>
            });
        }
        if !transform.original_fits_check(pred.as_slice(), c.as_slice()) {
            proof {
                lemma_sequential_values_none(transform, delta, corr, n as nat, (k + 1) as nat, num_points as nat);
            }
            return Err(DecodeError::MalformedAttribute("reconstructed value out of range"));
        }
        let out = transform.compute_original(pred.as_slice(), c.as_slice());
        proof {
            assert((k + 1) * n <= num_points * n) by (nonlinear_arith)
                requires
                    k < num_points,
            ;
            assert((k + 1) * n == k * n + n) by (nonlinear_arith);
            let ov = i32s_of(original_values(transform, pred@, c@));
            assert(out@ =~= ov);
        }
        append_values(&mut values, &out);
        k = k + 1;
    }
    Ok(values)
}

/// What a parsed payload holds (see [`payload_view`]).
pub type PayloadModel = (PredictionSchemeType, Seq<int>, Seq<bool>, Seq<bool>, Seq<Seq<bool>>, InverseTransform);

/// The payloads of the attributes `ds`, each with `num_values` values,
/// one after another at the start of `s`; `None` where a correction stream
/// does not parse.
pub open spec fn payloads_parse(s: Seq<u8>, num_values: nat, ds: Seq<Descriptor>) -> Option<
    Result<(Seq<PayloadModel>, nat), DecodeError>,
>
    decreases ds.len(),
{
    if ds.len() == 0 {
        Some(Ok((Seq::empty(), 0)))
    } else {
        match dispatched_parse(s, num_values, ds[0]) {
            None => None,
            Some(Err(e)) => Some(Err(e)),
            Some(Ok((sc, c, f, o, cr, t, k))) => match payloads_parse(s.skip(k as int), num_values, ds.drop_first()) {
                None => None,
                Some(Err(e)) => Some(Err(e)),
                Some(Ok((ps, k2))) => Some(Ok((seq![(sc, c, f, o, cr, t)] + ps, k + k2))),
            },
        }
    }
}

/// `offs` moved by `d`.
pub open spec fn shift(offs: Seq<nat>, d: nat) -> Seq<nat> {
    Seq::new(offs.len(), |j: int| offs[j] + d)
}

/// Per attribute, its portabilization block and values: the values of
/// each attribute, where its block starts relative to `s`, and the bytes
/// the blocks span.
pub open spec fn finish_parse(s: Seq<u8>, num_points: nat, ds: Seq<Descriptor>, ps: Seq<PayloadModel>) -> Result<
    (Seq<Seq<i32>>, Seq<nat>, nat),
    DecodeError,
>
    decreases ds.len(),
{
    if ds.len() == 0 || ps.len() == 0 {
        Ok((Seq::empty(), Seq::empty(), 0))
    } else {
        let d = ds[0];
        match port_error(s, d.port_type, d.num_components as nat) {
            Some(e) => Err(e),
            None => match sequential_decode(ps[0].0, ps[0].1, ps[0].5, d.portable_n(), num_points) {
                Err(e) => Err(e),
                Ok(v) => {
                    let l = port_len(d.port_type, d.num_components as nat);
                    match finish_parse(s.skip(l as int), num_points, ds.drop_first(), ps.drop_first()) {
                        Err(e) => Err(e),
                        Ok((vs, offs, k)) => Ok(
                            (seq![v] + vs, seq![0nat] + shift(offs, l), l + k),
                        ),
                    }
                },
            },
        }
    }
}

/// The attribute section of a sequential stream over `num_points` points
/// at the start of `s`: an encoder count of one, the descriptors, every
/// payload, then per attribute its portabilization block. Gives the
/// descriptors, payloads and values, where each portabilization block
/// starts, and the bytes the section spans.
pub open spec fn sequential_section(s: Seq<u8>, num_points: nat) -> Option<
    Result<(Seq<Descriptor>, Seq<PayloadModel>, Seq<Seq<i32>>, Seq<nat>, nat), DecodeError>,
> {
    if s.len() < 1 {
        Some(Err(DecodeError::Reader(ReaderErr::NotEnoughData)))
    } else if s[0] != 1 {
        Some(Err(DecodeError::MalformedAttribute("a sequential stream carries all attributes in one encoder")))
    } else {
        match descriptors_parse(s.skip(1)) {
            Err(e) => Some(Err(e)),
            Ok((ds, k1)) => match payloads_parse(s.skip((1 + k1) as int), num_points, ds) {
                None => None,
                Some(Err(e)) => Some(Err(e)),
                Some(Ok((ps, k2))) => match finish_parse(s.skip((1 + k1 + k2) as int), num_points, ds, ps) {
                    Err(e) => Some(Err(e)),
                    Ok((vs, offs, k3)) => Some(
                        Ok((ds, ps, vs, shift(offs, 1 + k1 + k2), 1 + k1 + k2 + k3)),
                    ),
                },
            },
        }
    }
}

/// What each payload holds.
pub open spec fn payload_models(v: Seq<Payload>) -> Seq<PayloadModel> {
    Seq::new(v.len(), |j: int| payload_view(v[j]))
}

/// Whether a parsed payload fits attribute `d` over `num_points` points:
/// one to four portable components and one correction per component and
/// point.
pub open spec fn payload_fits(p: Payload, d: Descriptor, num_points: nat) -> bool {
    &&& 1 <= d.portable_n() <= 4
    &&& num_points * d.portable_n() <= usize::MAX / 4
    &&& p.corrections@.len() == num_points * d.portable_n()
}

proof fn lemma_dispatched_len(s: Seq<u8>, num_values: nat, d: Descriptor)
    ensures
        dispatched_parse(s, num_values, d) matches Some(Ok((sc, c, f, o, cr, t, k))) ==> {
            &&& 1 <= d.portable_n() <= 4
            &&& num_values * d.portable_n() <= usize::MAX / 4
            &&& c.len() == num_values * d.portable_n()
        },
{
    reveal(dispatched_parse);
}

/// The remaining payloads behind `done` ones spanning `used` bytes.
pub open spec fn prepend_payloads(
    done: Seq<PayloadModel>,
    used: nat,
    rest: Option<Result<(Seq<PayloadModel>, nat), DecodeError>>,
) -> Option<Result<(Seq<PayloadModel>, nat), DecodeError>> {
    match rest {
        None => None,
        Some(Err(e)) => Some(Err(e)),
        Some(Ok((ps, k))) => Some(Ok((done + ps, used + k))),
    }
}

/// Parses the payload of every attribute.
fn parse_payloads(reader: &mut Reader<'_>, descriptors: &Vec<Descriptor>, num_points: usize) -> (r: Result<
    Vec<Payload>,
    DecodeError,
>)
    ensures
        match payloads_parse(old(reader).rest(), num_points as nat, descriptors@) {
            Some(Ok((ps, k))) => (r matches Ok(v) && v@.len() == ps.len() && ps.len() == descriptors@.len()
                && (forall|j: int| 0 <= j < ps.len() ==> payload_view(#[trigger] v@[j]) == ps[j] && payload_fits(
                v@[j],
                descriptors@[j],
                num_points as nat,
            )) && k <= old(reader).rest().len() && final(reader).rest() == old(reader).rest().skip(k as int)),
            Some(Err(e)) => r == Err::<Vec<Payload>, DecodeError>(e),
            None => r is Err,
        },
{
    let ghost s = reader.rest();
    let ghost ds = descriptors@;
    let ghost total = payloads_parse(s, num_points as nat, ds);
    let mut payloads: Vec<Payload> = Vec::new();
    let ghost mut done: Seq<PayloadModel> = Seq::empty();
    let ghost mut used: nat = 0;
    let mut i: usize = 0;
    proof {
        assert(ds.skip(0) =~= ds);
        assert(s.skip(0) =~= s);
        match total {
            Some(Ok((ps, k))) => {
                assert(Seq::<PayloadModel>::empty() + ps =~= ps);
            },
            _ => {},
        }
    }
    while i < descriptors.len()
        invariant
            ds == descriptors@,
            s == old(reader).rest(),
            total == payloads_parse(s, num_points as nat, ds),
            i <= ds.len(),
            used <= s.len(),
            reader.rest() == s.skip(used as int),
            payloads@.len() == i,
            done.len() == i,
            forall|j: int| 0 <= j < i ==> payload_view(#[trigger] payloads@[j]) == done[j] && payload_fits(
                payloads@[j],
                ds[j],
                num_points as nat,
            ),
            total == prepend_payloads(done, used, payloads_parse(
                reader.rest(),
                num_points as nat,
                ds.skip(i as int),
            )),
        decreases ds.len() - i,
    {
        let ghost cur = reader.rest();
        proof {
            assert(ds.skip(i as int)[0] == ds[i as int]);
            assert(ds.skip(i as int).drop_first() =~= ds.skip(i + 1));
            lemma_dispatched_len(cur, num_points as nat, ds[i as int]);
        }
        let p = match parse_payload_dispatched(reader, num_points, &descriptors[i]) {
            Ok(p) => p,
            Err(e) => {
                return Err(e);
            },
        };
        proof {
            let (sc, c, f, o, cr, t, k) = dispatched_parse(cur, num_points as nat, ds[i as int])->Some_0->Ok_0;
            assert(s.skip(used as int).skip(k as int) =~= s.skip((used + k) as int));
            match payloads_parse(reader.rest(), num_points as nat, ds.skip(i + 1)) {
                Some(Ok((ps, k2))) => {
                    assert(done.push(payload_view(p)) + ps =~= done + (seq![payload_view(p)] + ps));
                },
                _ => {},
            }
            done = done.push(payload_view(p));
            used = used + k;
        }
        payloads.push(p);
        i = i + 1;
    }
    proof {
        assert(ds.skip(i as int) =~= Seq::<Descriptor>::empty());
        assert(done + Seq::<PayloadModel>::empty() =~= done);
    }
    Ok(payloads)
}

/// Whether `a` is the attribute `d` describes, holding `values`.
pub open spec fn attribute_matches(a: MeshAttribute, d: Descriptor, values: Seq<i32>) -> bool {
    &&& a.uid == d.uid
    &&& a.att_type == d.att_type
    &&& a.domain == d.domain
    &&& a.num_components == d.portable_n()
    &&& a.values@ == values
}

/// The remaining blocks behind `done_v` values whose blocks start at
/// `done_o`, spanning `used` bytes.
pub open spec fn prepend_finish(
    done_v: Seq<Seq<i32>>,
    done_o: Seq<nat>,
    used: nat,
    rest: Result<(Seq<Seq<i32>>, Seq<nat>, nat), DecodeError>,
) -> Result<(Seq<Seq<i32>>, Seq<nat>, nat), DecodeError> {
    match rest {
        Err(e) => Err(e),
        Ok((vs, offs, k)) => Ok((done_v + vs, done_o + shift(offs, used), used + k)),
    }
}

/// Reads every attribute's portabilization block and reconstructs its
/// values.
#[verifier::rlimit(40)]
fn finish_attributes(
    reader: &mut Reader<'_>,
    descriptors: &Vec<Descriptor>,
    payloads: &Vec<Payload>,
    num_points: usize,
) -> (r: Result<(Vec<MeshAttribute>, Vec<AttributeTransform>), DecodeError>)
    requires
        payloads@.len() == descriptors@.len(),
        forall|j: int| 0 <= j < payloads@.len() ==> payload_fits(#[trigger] payloads@[j], descriptors@[j], num_points as nat),
    ensures
        match finish_parse(
            old(reader).rest(),
            num_points as nat,
            descriptors@,
            payload_models(payloads@),
        ) {
            Err(e) => r == Err::<(Vec<MeshAttribute>, Vec<AttributeTransform>), DecodeError>(e),
            Ok((vs, offs, k)) => (r matches Ok((atts, ts)) && atts@.len() == descriptors@.len() && ts@.len()
                == descriptors@.len() && vs.len() == descriptors@.len() && offs.len() == descriptors@.len() && (forall|j: int|
                0 <= j < descriptors@.len() ==> attribute_matches(#[trigger] atts@[j], descriptors@[j], vs[j])
                    && offs[j] <= old(reader).rest().len() && port_matches(
                    old(reader).rest().skip(offs[j] as int),
                    descriptors@[j].port_type,
                    descriptors@[j].component_type,
                    descriptors@[j].num_components as nat,
                    ts@[j],
                )) && k <= old(reader).rest().len() && final(reader).rest() == old(reader).rest().skip(k as int)),
        },
{
    let ghost s = reader.rest();
    let ghost ds = descriptors@;
    let ghost ps = payload_models(payloads@);
    let ghost total = finish_parse(s, num_points as nat, ds, ps);
    let mut atts: Vec<MeshAttribute> = Vec::new();
    let mut ts: Vec<AttributeTransform> = Vec::new();
    let ghost mut done_v: Seq<Seq<i32>> = Seq::empty();
    let ghost mut done_o: Seq<nat> = Seq::empty();
    let ghost mut used: nat = 0;
    let mut i: usize = 0;
    proof {
        assert(ds.skip(0) =~= ds);
        assert(ps.skip(0) =~= ps);
        assert(s.skip(0) =~= s);
        if let Ok((vs, offs, k)) = total {
            assert(Seq::<Seq<i32>>::empty() + vs =~= vs);
            assert(Seq::<nat>::empty() + shift(offs, 0) =~= offs);
        }
    }
    while i < descriptors.len()
        invariant
            ds == descriptors@,
            ps == payload_models(payloads@),
            payloads@.len() == ds.len(),
            forall|j: int| 0 <= j < payloads@.len() ==> payload_fits(#[trigger] payloads@[j], ds[j], num_points as nat),
            s == old(reader).rest(),
            total == finish_parse(s, num_points as nat, ds, ps),
            i <= ds.len(),
            used <= s.len(),
            reader.rest() == s.skip(used as int),
            atts@.len() == i,
            ts@.len() == i,
            done_v.len() == i,
            done_o.len() == i,
            forall|j: int| 0 <= j < i ==> attribute_matches(#[trigger] atts@[j], ds[j], done_v[j]) && done_o[j]
                <= s.len() && port_matches(
                s.skip(done_o[j] as int),
                ds[j].port_type,
                ds[j].component_type,
                ds[j].num_components as nat,
                ts@[j],
            ),
            total == prepend_finish(done_v, done_o, used, finish_parse(
                reader.rest(),
                num_points as nat,
                ds.skip(i as int),
                ps.skip(i as int),
            )),
        decreases ds.len() - i,
    {
        let ghost cur = reader.rest();
        let d = descriptors[i];
        let ghost rest_ds = ds.skip(i as int);
        let ghost rest_ps = ps.skip(i as int);
        proof {
            assert(rest_ds[0] == d);
            assert(rest_ps[0] == payload_view(payloads@[i as int]));
            assert(rest_ds.drop_first() =~= ds.skip(i + 1));
            assert(rest_ps.drop_first() =~= ps.skip(i + 1));
        }
        let t = read_portabilization(reader, d.port_type, d.component_type, d.num_components)?;
        let n = d.portable_num_components();
        let values = decode_values(&payloads[i], n, num_points)?;
        let ghost l = port_len(d.port_type, d.num_components as nat);
        proof {
            assert(s.skip(used as int).skip(l as int) =~= s.skip((used + l) as int));
            let v = values@;
            match finish_parse(reader.rest(), num_points as nat, ds.skip(i + 1), ps.skip(i + 1)) {
                Ok((vs, offs, k)) => {
                    assert(done_v.push(v) + vs =~= done_v + (seq![v] + vs));
                    assert(done_o.push(used) + shift(offs, used + l) =~= done_o + shift(seq![0nat] + shift(offs, l), used));
                },
                Err(e) => {},
            }
            done_v = done_v.push(v);
            done_o = done_o.push(used);
            used = used + l;
        }
        atts.push(
            MeshAttribute {
                uid: d.uid,
                att_type: d.att_type,
                domain: d.domain,
                num_components: n,
                values,
            },
        );
        ts.push(t);
        i = i + 1;
    }
    proof {
        assert(ds.skip(i as int) =~= Seq::<Descriptor>::empty());
        assert(done_v + Seq::<Seq<i32>>::empty() =~= done_v);
        assert(done_o + shift(Seq::<nat>::empty(), used) =~= done_o);
    }
    Ok((atts, ts))
}

/// Whether each transform in `ts` is what the portabilization block of
/// attribute `ds[j]` at `offs[j]` in `s` describes.
pub open spec fn transforms_match(s: Seq<u8>, ds: Seq<Descriptor>, offs: Seq<nat>, ts: Seq<AttributeTransform>) -> bool {
    forall|j: int|
        0 <= j < ds.len() ==> port_matches(
            s.skip(offs[j] as int),
            ds[j].port_type,
            ds[j].component_type,
            ds[j].num_components as nat,
            #[trigger] ts[j],
        )
}

/// A copy of `faces`.
fn copy_faces(faces: &Vec<[usize; 3]>) -> (r: Vec<[usize; 3]>)
    ensures
        r@ == faces@,
{
    let mut out: Vec<[usize; 3]> = Vec::new();
    let mut f: usize = 0;
    while f < faces.len()
        invariant
            f <= faces@.len(),
            out@ == faces@.subrange(0, f as int),
        decreases faces@.len() - f,
    {
        out.push(faces[f]);
        proof {
            assert(faces@.subrange(0, f + 1) =~= faces@.subrange(0, f as int).push(faces@[f as int]));
        }
        f = f + 1;
    }
    proof {
        assert(faces@.subrange(0, faces@.len() as int) =~= faces@);
    }
    out
}

/// Decodes the attribute section of a sequential stream, positioned right
/// after the connectivity.
#[verifier::spinoff_prover]
#[verifier::rlimit(100)]
pub fn decode_attributes(reader: &mut Reader<'_>, conn: &SequentialConnectivity) -> (r: Result<
    DecodedAttributes,
    DecodeError,
>)
    ensures
        match sequential_section(old(reader).rest(), conn.num_points as nat) {
            None => r is Err,
            Some(Err(e)) => r == Err::<DecodedAttributes, DecodeError>(e),
            Some(Ok((ds, ps, vs, offs, k))) => (r matches Ok(d) && d.faces@ == conn.faces@
                && d.attributes@.len() == ds.len() && d.transforms@.len() == ds.len() && (forall|j: int|
                0 <= j < ds.len() ==> attribute_matches(#[trigger] d.attributes@[j], ds[j], vs[j]))
                && transforms_match(old(reader).rest(), ds, offs, d.transforms@) && k <= old(reader).rest().len() && final(reader).rest() == old(reader).rest().skip(k as int)),
        },
{
    let ghost s = reader.rest();
    let count = match reader.read_u8() {
        Ok(b) => b,
        Err(e) => return Err(DecodeError::Reader(e)),
    };
    if count != 1 {
        return Err(DecodeError::MalformedAttribute("a sequential stream carries all attributes in one encoder"));
    }
    let descriptors = read_descriptors(reader)?;
    let ghost k1 = descriptors_parse(s.skip(1))->Ok_0.1;
    proof {
        assert(reader.rest() =~= s.skip((1 + k1) as int));
    }
    let num_points = conn.num_points;
    let payloads = parse_payloads(reader, &descriptors, num_points)?;
    let ghost k2 = payloads_parse(s.skip((1 + k1) as int), num_points as nat, descriptors@)->Some_0->Ok_0.1;
    let ghost s3 = reader.rest();
    proof {
        assert(s3 =~= s.skip((1 + k1 + k2) as int));
        let ps = payloads_parse(s.skip((1 + k1) as int), num_points as nat, descriptors@)->Some_0->Ok_0.0;
        assert(payload_models(payloads@) =~= ps);
    }
    let (attributes, transforms) = finish_attributes(reader, &descriptors, &payloads, num_points)?;
    let ghost (vs, offs, k3) = finish_parse(s3, num_points as nat, descriptors@, payload_models(payloads@))->Ok_0;
    let ghost so = shift(offs, 1 + k1 + k2);
    let faces = copy_faces(&conn.faces);
    let ghost atts = attributes@;
    let ghost tss = transforms@;
    let res = DecodedAttributes { faces, attributes, transforms };
    proof {
        let ps = payloads_parse(s.skip((1 + k1) as int), num_points as nat, descriptors@)->Some_0->Ok_0.0;
        assert(sequential_section(s, num_points as nat) == Some(Ok::<(Seq<Descriptor>, Seq<PayloadModel>, Seq<Seq<i32>>, Seq<nat>, nat), DecodeError>((descriptors@, ps, vs, so, 1 + k1 + k2 + k3))));
        assert(s == old(reader).rest());
        assert(res.attributes@ == atts);
        assert(res.transforms@ == tss);
        assert forall|j: int| 0 <= j < descriptors@.len() implies attribute_matches(
            #[trigger] res.attributes@[j],
            descriptors@[j],
            vs[j],
        ) by {
            assert(attribute_matches(atts[j], descriptors@[j], vs[j]));
        }
        assert forall|j: int| 0 <= j < descriptors@.len() implies port_matches(
            old(reader).rest().skip(so[j] as int),
            descriptors@[j].port_type,
            descriptors@[j].component_type,
            descriptors@[j].num_components as nat,
            #[trigger] res.transforms@[j],
        ) by {
            assert(attribute_matches(atts[j], descriptors@[j], vs[j]));
            assert(offs[j] <= s3.len());
            assert(s3.skip(offs[j] as int) =~= s.skip(so[j] as int));
        }
        assert(transforms_match(old(reader).rest(), descriptors@, so, res.transforms@));
        assert(s3.skip(k3 as int) =~= s.skip((1 + k1 + k2 + k3) as int));
    }
    Ok(res)
}

} // verus!
