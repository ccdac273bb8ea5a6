//! The attribute section of edgebreaker streams: decoder headers and
//! descriptors, seam columns and walk groups, the per-decoder payload and
//! portabilization blocks, and the order in which the group walks run.

use vstd::prelude::*;
use crate::attribute::{
    dispatched_parse, leb_value, parse_payload_dispatched, read_leb, AttributeDomain, Descriptor, domain_of,
    NO_ATTRIBUTE_DATA,
};
use crate::attribute::payload::{payload_view, port_error, port_len, port_matches, read_portabilization, Payload};
use crate::attribute::sequential::{payload_fits, payload_models, shift, transforms_match, PayloadModel};
use crate::point_cloud::AttributeTransform;
use crate::connectivity::edgebreaker::traversal::SeamStats;
use crate::attribute::sequential::fields_parse;
use crate::decode::attribute::TraversalType;
use crate::error::{DecodeError, ReaderErr};
use crate::point_cloud::{
    check_component_type, component_of, component_supported, kind_of, AttributeKind, ComponentType,
};
use crate::reader::Reader;

verus! {

/// One attribute decoder's header: the attribute connectivity it rides,
/// its domain and its traversal.
pub type DecoderHeader = (u8, AttributeDomain, TraversalType);

/// A decoder header at the start of `s`.
pub open spec fn header_parse(s: Seq<u8>) -> Result<DecoderHeader, DecodeError> {
    if s.len() < 2 {
        Err(DecodeError::Reader(ReaderErr::NotEnoughData))
    } else {
        match domain_of(s[1]) {
            None => Err(DecodeError::MalformedAttribute("unknown attribute domain")),
            Some(d) => if s.len() < 3 {
                Err(DecodeError::Reader(ReaderErr::NotEnoughData))
            } else if s[2] == 0 {
                Ok((s[0], d, TraversalType::DepthFirst))
            } else if s[2] == 1 {
                Ok((s[0], d, TraversalType::PredictionDegree))
            } else {
                Err(DecodeError::MalformedAttribute("unknown traversal method"))
            },
        }
    }
}

/// `count` decoder headers at the start of `s`, three bytes each.
pub open spec fn headers_parse(s: Seq<u8>, count: nat) -> Result<Seq<DecoderHeader>, DecodeError>
    decreases count,
{
    if count == 0 {
        Ok(Seq::empty())
    } else {
        match header_parse(s) {
            Err(e) => Err(e),
            Ok(h) => match headers_parse(s.skip(3), (count - 1) as nat) {
                Err(e) => Err(e),
                Ok(hs) => Ok(seq![h] + hs),
            },
        }
    }
}

/// Reads one decoder header.
fn read_header(reader: &mut Reader<'_>) -> (r: Result<DecoderHeader, DecodeError>)
    ensures
        match header_parse(old(reader).rest()) {
            Ok(h) => r == Ok::<DecoderHeader, DecodeError>(h) && 3 <= old(reader).rest().len()
                && final(reader).rest() == old(reader).rest().skip(3),
            Err(e) => r == Err::<DecoderHeader, DecodeError>(e),
        },
{
    let ghost s = reader.rest();
    let att_data_id = match reader.read_u8() {
        Ok(b) => b,
        Err(e) => return Err(DecodeError::Reader(e)),
    };
    let domain = AttributeDomain::read_from(reader)?;
    let traversal = match reader.read_u8() {
        Ok(0) => TraversalType::DepthFirst,
        Ok(1) => TraversalType::PredictionDegree,
        Ok(_) => return Err(DecodeError::MalformedAttribute("unknown traversal method")),
        Err(e) => return Err(DecodeError::Reader(e)),
    };
    proof {
        assert(reader.rest() =~= s.skip(3));
    }
    Ok((att_data_id, domain, traversal))
}

/// Reads `count` decoder headers.
fn read_headers(reader: &mut Reader<'_>, count: usize) -> (r: Result<Vec<DecoderHeader>, DecodeError>)
    ensures
        match headers_parse(old(reader).rest(), count as nat) {
            Ok(hs) => (r matches Ok(v) && v@ == hs && 3 * count <= old(reader).rest().len()
                && final(reader).rest() == old(reader).rest().skip(3 * count)),
            Err(e) => r == Err::<Vec<DecoderHeader>, DecodeError>(e),
        },
{
    let ghost s = reader.rest();
    let mut hs: Vec<DecoderHeader> = Vec::new();
    let mut i: usize = 0;
    proof {
        assert(s.skip(0) =~= s);
        if let Ok(all) = headers_parse(s, count as nat) {
            assert(Seq::<DecoderHeader>::empty() + all =~= all);
        }
    }
    while i < count
        invariant
            s == old(reader).rest(),
            i <= count,
            3 * i <= s.len(),
            reader.rest() == s.skip(3 * i),
            hs@.len() == i,
            headers_parse(s, count as nat) == match headers_parse(reader.rest(), (count - i) as nat) {
                Ok(rest) => Ok::<Seq<DecoderHeader>, DecodeError>(hs@ + rest),
                Err(e) => Err(e),
            },
        decreases count - i,
    {
        let ghost cur = reader.rest();
        let h = read_header(reader)?;
        proof {
            assert(s.skip(3 * i).skip(3) =~= s.skip(3 * (i + 1)));
            if let Ok(rest) = headers_parse(reader.rest(), (count - i - 1) as nat) {
                assert(hs@.push(h) + rest =~= hs@ + (seq![h] + rest));
            }
        }
        hs.push(h);
        i = i + 1;
    }
    proof {
        assert(hs@ + Seq::<DecoderHeader>::empty() =~= hs@);
    }
    Ok(hs)
}

/// The descriptor fields of an attribute in an edgebreaker stream: as in
/// [`fields_parse`], but a component type no decoder path implements is
/// refused as soon as it is read.
pub open spec fn checked_fields_parse(s: Seq<u8>) -> Result<
    ((AttributeKind, ComponentType, u8, u32), nat),
    DecodeError,
> {
    if s.len() < 1 {
        Err(DecodeError::Reader(ReaderErr::NotEnoughData))
    } else {
        match kind_of(s[0]) {
            None => Err(DecodeError::MalformedAttribute("unknown attribute type")),
            Some(kind) => if s.len() < 2 {
                Err(DecodeError::Reader(ReaderErr::NotEnoughData))
            } else {
                match component_of(s[1]) {
                    None => Err(DecodeError::MalformedAttribute("unknown component type")),
                    Some(ct) => if !component_supported(ct) {
                        Err(DecodeError::Unimplemented)
                    } else if s.len() < 4 {
                        Err(DecodeError::Reader(ReaderErr::NotEnoughData))
                    } else {
                        match leb_value(s.skip(4)) {
                            Err(e) => Err(DecodeError::Reader(e)),
                            Ok((v, n)) => Ok(((kind, ct, s[2], v as u32), 4 + n)),
                        }
                    },
                }
            },
        }
    }
}

/// Reads one checked descriptor field group.
fn read_checked_fields(reader: &mut Reader<'_>) -> (r: Result<(AttributeKind, ComponentType, u8, u32), DecodeError>)
    ensures
        match checked_fields_parse(old(reader).rest()) {
            Ok((f, k)) => r == Ok::<(AttributeKind, ComponentType, u8, u32), DecodeError>(f)
                && k <= old(reader).rest().len() && final(reader).rest() == old(reader).rest().skip(k as int),
            Err(e) => r == Err::<(AttributeKind, ComponentType, u8, u32), DecodeError>(e),
        },
{
    let ghost s = reader.rest();
    let att_type = match reader.read_u8() {
        Ok(id) => match AttributeKind::from_id(id) {
            Some(k) => k,
            None => return Err(DecodeError::MalformedAttribute("unknown attribute type")),
        },
        Err(e) => return Err(DecodeError::Reader(e)),
    };
    let component_type = match reader.read_u8() {
        Ok(id) => match ComponentType::from_id(id) {
            Some(t) => t,
            None => return Err(DecodeError::MalformedAttribute("unknown component type")),
        },
        Err(e) => return Err(DecodeError::Reader(e)),
    };
    check_component_type(component_type)?;
    let num_components = match reader.read_u8() {
        Ok(b) => b,
        Err(e) => return Err(DecodeError::Reader(e)),
    };
    let _normalized = match reader.read_u8() {
        Ok(b) => b,
        Err(e) => return Err(DecodeError::Reader(e)),
    };
    proof {
        assert(reader.rest() =~= s.skip(4));
    }
    let uid = read_leb(reader)?;
    proof {
        let (v, n) = leb_value(s.skip(4))->Ok_0;
        assert(s.skip(4).skip(n as int) =~= s.skip((4 + n) as int));
    }
    Ok((att_type, component_type, num_components, #[verifier::truncate] (uid as u32)))
}

/// `count` checked field groups at the start of `s`.
pub open spec fn checked_fields_list_parse(s: Seq<u8>, count: nat) -> Result<
    (Seq<(AttributeKind, ComponentType, u8, u32)>, nat),
    DecodeError,
>
    decreases count,
{
    if count == 0 {
        Ok((Seq::empty(), 0))
    } else {
        match checked_fields_parse(s) {
            Err(e) => Err(e),
            Ok((f, k)) => match checked_fields_list_parse(s.skip(k as int), (count - 1) as nat) {
                Err(e) => Err(e),
                Ok((fs, k2)) => Ok((seq![f] + fs, k + k2)),
            },
        }
    }
}

/// The remaining groups behind `done` ones spanning `used` bytes.
pub open spec fn prepend_groups(
    done: Seq<(AttributeKind, ComponentType, u8, u32)>,
    used: nat,
    rest: Result<(Seq<(AttributeKind, ComponentType, u8, u32)>, nat), DecodeError>,
) -> Result<(Seq<(AttributeKind, ComponentType, u8, u32)>, nat), DecodeError> {
    match rest {
        Ok((fs, k)) => Ok((done + fs, used + k)),
        Err(e) => Err(e),
    }
}

proof fn lemma_checked_fields_list_len(s: Seq<u8>, count: nat)
    ensures
        checked_fields_list_parse(s, count) matches Ok((fs, k)) ==> fs.len() == count && k <= s.len()
            && k >= count,
    decreases count,
{
    if count > 0 {
        if let Ok((f, k)) = checked_fields_parse(s) {
            crate::reader::lemma_leb128_len(s.skip(4));
            lemma_checked_fields_list_len(s.skip(k as int), (count - 1) as nat);
        }
    }
}

/// Reads `count` checked field groups.
fn read_checked_field_groups(reader: &mut Reader<'_>, count: u64) -> (r: Result<
    Vec<(AttributeKind, ComponentType, u8, u32)>,
    DecodeError,
>)
    ensures
        match checked_fields_list_parse(old(reader).rest(), count as nat) {
            Ok((fs, k)) => (r matches Ok(v) && v@ == fs && k <= old(reader).rest().len()
                && final(reader).rest() == old(reader).rest().skip(k as int)),
            Err(e) => r == Err::<Vec<(AttributeKind, ComponentType, u8, u32)>, DecodeError>(e),
        },
{
    let ghost s1 = reader.rest();
    let ghost total = checked_fields_list_parse(s1, count as nat);
    let mut fields: Vec<(AttributeKind, ComponentType, u8, u32)> = Vec::new();
    let ghost mut used: nat = 0;
    let mut i: u64 = 0;
    proof {
        assert(s1.skip(0) =~= s1);
        if let Ok((fs, k)) = total {
            assert(Seq::<(AttributeKind, ComponentType, u8, u32)>::empty() + fs =~= fs);
        }
    }
    while i < count
        invariant
            s1 == old(reader).rest(),
            i <= count,
            total == checked_fields_list_parse(s1, count as nat),
            used <= s1.len(),
            used >= i,
            reader.rest() == s1.skip(used as int),
            fields@.len() == i,
            total == prepend_groups(fields@, used, checked_fields_list_parse(
                reader.rest(),
                (count - i) as nat,
            )),
        decreases count - i,
    {
        let ghost cur = reader.rest();
        let f = match read_checked_fields(reader) {
            Ok(f) => f,
            Err(e) => {
                proof {
                    assert(total == Err::<(Seq<(AttributeKind, ComponentType, u8, u32)>, nat), DecodeError>(e));
                }
                return Err(e);
            },
        };
        proof {
            let (ff, k) = checked_fields_parse(cur)->Ok_0;
            crate::reader::lemma_leb128_len(cur.skip(4));
            assert(s1.skip(used as int).skip(k as int) =~= s1.skip((used + k) as int));
            match checked_fields_list_parse(reader.rest(), (count - i - 1) as nat) {
                Ok((fs, k2)) => {
                    assert(fields@.push(f) + fs =~= fields@ + (seq![f] + fs));
                },
                Err(e) => {},
            }
            used = used + k;
        }
        fields.push(f);
        i = i + 1;
    }
    proof {
        assert(fields@ + Seq::<(AttributeKind, ComponentType, u8, u32)>::empty() =~= fields@);
    }
    Ok(fields)
}

/// The descriptor a decoder with header `h` gives an attribute with
/// fields `f` and portabilization `port`.
pub open spec fn traversed_descriptor(h: DecoderHeader, f: (AttributeKind, ComponentType, u8, u32), port: u8) -> Descriptor {
    Descriptor {
        att_data_id: h.0,
        att_type: f.0,
        component_type: f.1,
        num_components: f.2 as usize,
        uid: f.3,
        port_type: port,
        domain: h.1,
        traversal: h.2,
    }
}

/// The block of a decoder with header `h` at the start of `s`: a nonzero
/// LEB128 attribute count, the field groups, then one portabilization byte
/// per attribute.
pub open spec fn decoder_block_parse(s: Seq<u8>, h: DecoderHeader) -> Result<(Seq<Descriptor>, nat), DecodeError> {
    match leb_value(s) {
        Err(e) => Err(DecodeError::Reader(e)),
        Ok((count, n)) => if count == 0 {
            Err(DecodeError::MalformedAttribute("an attribute decoder must carry at least one attribute"))
        } else {
            match checked_fields_list_parse(s.skip(n as int), count) {
                Err(e) => Err(e),
                Ok((fs, k)) => if s.len() < n + k + count {
                    Err(DecodeError::Reader(ReaderErr::NotEnoughData))
                } else {
                    Ok(
                        (
                            Seq::new(count, |i: int| traversed_descriptor(h, fs[i], s[n + k + i])),
                            n + k + count,
                        ),
                    )
                },
            }
        },
    }
}

/// The blocks of the decoders `hs`, one after another at the start of `s`:
/// every descriptor in order, the attribute count of each decoder, and the
/// bytes the blocks span.
pub open spec fn blocks_parse(s: Seq<u8>, hs: Seq<DecoderHeader>) -> Result<(Seq<Descriptor>, Seq<nat>, nat), DecodeError>
    decreases hs.len(),
{
    if hs.len() == 0 {
        Ok((Seq::empty(), Seq::empty(), 0))
    } else {
        match decoder_block_parse(s, hs[0]) {
            Err(e) => Err(e),
            Ok((d, k)) => match blocks_parse(s.skip(k as int), hs.drop_first()) {
                Err(e) => Err(e),
                Ok((ds, sizes, k2)) => Ok((d + ds, seq![d.len()] + sizes, k + k2)),
            },
        }
    }
}

/// The descriptors of an edgebreaker stream at the start of `s`: a decoder
/// count byte, the decoder headers, then each decoder's block.
pub open spec fn traversed_descriptors_parse(s: Seq<u8>) -> Result<(Seq<Descriptor>, Seq<nat>, nat), DecodeError> {
    if s.len() < 1 {
        Err(DecodeError::Reader(ReaderErr::NotEnoughData))
    } else {
        match headers_parse(s.skip(1), s[0] as nat) {
            Err(e) => Err(e),
            Ok(hs) => match blocks_parse(s.skip(1 + 3 * s[0]), hs) {
                Err(e) => Err(e),
                Ok((ds, sizes, k)) => Ok((ds, sizes, (1 + 3 * s[0] + k) as nat)),
            },
        }
    }
}

/// Reads the block of a decoder with header `h`.
fn read_decoder_block(reader: &mut Reader<'_>, h: DecoderHeader) -> (r: Result<Vec<Descriptor>, DecodeError>)
    ensures
        match decoder_block_parse(old(reader).rest(), h) {
            Ok((ds, k)) => (r matches Ok(v) && v@ == ds && k <= old(reader).rest().len()
                && final(reader).rest() == old(reader).rest().skip(k as int)),
            Err(e) => r == Err::<Vec<Descriptor>, DecodeError>(e),
        },
{
    let ghost s = reader.rest();
    let count = read_leb(reader)?;
    let ghost n = leb_value(s)->Ok_0.1;
    if count == 0 {
        return Err(DecodeError::MalformedAttribute("an attribute decoder must carry at least one attribute"));
    }
    proof {
        lemma_checked_fields_list_len(reader.rest(), count as nat);
    }
    let fields = read_checked_field_groups(reader, count)?;
    let ghost k = checked_fields_list_parse(s.skip(n as int), count as nat)->Ok_0.1;
    proof {
        assert(reader.rest() =~= s.skip((n + k) as int));
    }
    let ghost s2 = reader.rest();
    let num = fields.len();
    let mut descriptors: Vec<Descriptor> = Vec::new();
    let mut j: usize = 0;
    while j < num
        invariant
            s == old(reader).rest(),
            leb_value(s) == Ok::<(nat, nat), ReaderErr>((count as nat, n)),
            count != 0,
            checked_fields_list_parse(s.skip(n as int), count as nat) == Ok::<(Seq<(AttributeKind, ComponentType, u8, u32)>, nat), DecodeError>((fields@, k)),
            s2 == s.skip((n + k) as int),
            n + k <= s.len(),
            num == fields@.len(),
            num == count,
            j <= num,
            reader.rest() == s2.skip(j as int),
            s2.len() >= j,
            descriptors@.len() == j,
            forall|m: int| 0 <= m < j ==> #[trigger] descriptors@[m] == traversed_descriptor(h, fields@[m], s2[m]),
        decreases num - j,
    {
        let port_type = match reader.read_u8() {
            Ok(b) => b,
            Err(e) => {
                proof {
                    assert(s.len() < n + k + count);
                    assert(decoder_block_parse(s, h) == Err::<(Seq<Descriptor>, nat), DecodeError>(
                        DecodeError::Reader(ReaderErr::NotEnoughData),
                    ));
                }
                return Err(DecodeError::Reader(e));
            },
        };
        proof {
            assert(s2.skip(j as int).skip(1) =~= s2.skip(j + 1));
        }
        let f = fields[j];
        descriptors.push(
            Descriptor {
                att_data_id: h.0,
                att_type: f.0,
                component_type: f.1,
                num_components: f.2 as usize,
                uid: f.3,
                port_type,
                domain: h.1,
                traversal: h.2,
            },
        );
        j = j + 1;
    }
    proof {
        assert forall|m: int| 0 <= m < num implies s2[m] == s[n + k + m] by {}
        assert(descriptors@ =~= Seq::new(count as nat, |m: int| traversed_descriptor(h, fields@[m], s[n + k + m])));
        assert(s2.skip(num as int) =~= s.skip((n + k + num) as int));
    }
    Ok(descriptors)
}

/// Reads the descriptors of an edgebreaker stream: every attribute's
/// descriptor in decoder order, and how many attributes each decoder
/// carries.
pub fn read_traversed_descriptors(reader: &mut Reader<'_>) -> (r: Result<(Vec<Descriptor>, Vec<usize>), DecodeError>)
    ensures
        match traversed_descriptors_parse(old(reader).rest()) {
            Ok((ds, sizes, k)) => (r matches Ok((v, z)) && v@ == ds && z@.len() == sizes.len() && sum_of(z@) == v@.len() && (forall|i: int|
                0 <= i < sizes.len() ==> #[trigger] z@[i] as nat == sizes[i]) && k <= old(reader).rest().len()
                && final(reader).rest() == old(reader).rest().skip(k as int)),
            Err(e) => r == Err::<(Vec<Descriptor>, Vec<usize>), DecodeError>(e),
        },
{
    let ghost s = reader.rest();
    let num_decoders = match reader.read_u8() {
        Ok(b) => b as usize,
        Err(e) => return Err(DecodeError::Reader(e)),
    };
    let headers = read_headers(reader, num_decoders)?;
    let ghost s1 = reader.rest();
    let ghost hs = headers@;
    let ghost total = blocks_parse(s1, hs);
    proof {
        assert(s1 =~= s.skip(1 + 3 * s[0]));
        assert(hs.skip(0) =~= hs);
        assert(s1.skip(0) =~= s1);
        if let Ok((ds, sizes, k)) = total {
            assert(Seq::<Descriptor>::empty() + ds =~= ds);
            assert(Seq::<nat>::empty() + sizes =~= sizes);
        }
    }
    let mut descriptors: Vec<Descriptor> = Vec::new();
    let mut sizes: Vec<usize> = Vec::new();
    proof {
        assert(sum_of(sizes@) == 0);
    }
    let ghost mut size_views: Seq<nat> = Seq::empty();
    let ghost mut used: nat = 0;
    let mut i: usize = 0;
    while i < headers.len()
        invariant
            s == old(reader).rest(),
            s.len() >= 1,
            headers_parse(s.skip(1), s[0] as nat) == Ok::<Seq<DecoderHeader>, DecodeError>(hs),
            s1 == s.skip(1 + 3 * s[0]),
            hs == headers@,
            total == blocks_parse(s1, hs),
            i <= hs.len(),
            used <= s1.len(),
            reader.rest() == s1.skip(used as int),
            sizes@.len() == i,
            sum_of(sizes@) == descriptors@.len(),
            size_views.len() == i,
            forall|m: int| 0 <= m < i ==> #[trigger] sizes@[m] as nat == size_views[m],
            total == match blocks_parse(reader.rest(), hs.skip(i as int)) {
                Ok((ds, zs, k)) => Ok::<(Seq<Descriptor>, Seq<nat>, nat), DecodeError>(
                    (descriptors@ + ds, size_views + zs, used + k),
                ),
                Err(e) => Err(e),
            },
        decreases hs.len() - i,
    {
        let ghost cur = reader.rest();
        proof {
            assert(hs.skip(i as int)[0] == hs[i as int]);
            assert(hs.skip(i as int).drop_first() =~= hs.skip(i + 1));
        }
        let block = match read_decoder_block(reader, headers[i]) {
            Ok(b) => b,
            Err(e) => {
                proof {
                    assert(total == Err::<(Seq<Descriptor>, Seq<nat>, nat), DecodeError>(e));
                }
                return Err(e);
            },
        };
        let ghost k = decoder_block_parse(cur, hs[i as int])->Ok_0.1;
        proof {
            assert(s1.skip(used as int).skip(k as int) =~= s1.skip((used + k) as int));
            match blocks_parse(reader.rest(), hs.skip(i + 1)) {
                Ok((ds, zs, k2)) => {
                    assert(descriptors@ + block@ + ds =~= descriptors@ + (block@ + ds));
                    assert(size_views.push(block@.len() as nat) + zs =~= size_views + (seq![block@.len() as nat] + zs));
                },
                Err(e) => {},
            }
            size_views = size_views.push(block@.len() as nat);
            used = used + k;
        }
        proof {
            lemma_sum_push(sizes@, block@.len() as usize);
        }
        sizes.push(block.len());
        let mut b: usize = 0;
        let ghost before = descriptors@;
        while b < block.len()
            invariant
                b <= block@.len(),
                descriptors@ == before + block@.subrange(0, b as int),
            decreases block@.len() - b,
        {
            descriptors.push(block[b]);
            proof {
                assert(before + block@.subrange(0, b + 1) =~= (before + block@.subrange(0, b as int)).push(block@[b as int]));
            }
            b = b + 1;
        }
        proof {
            assert(block@.subrange(0, block@.len() as int) =~= block@);
        }
        i = i + 1;
    }
    proof {
        assert(hs.skip(i as int) =~= Seq::<DecoderHeader>::empty());
        assert(descriptors@ + Seq::<Descriptor>::empty() =~= descriptors@);
        assert(size_views + Seq::<nat>::empty() =~= size_views);
        assert(s1.skip(used as int) =~= s.skip((1 + 3 * s[0] + used) as int));
    }
    Ok((descriptors, sizes))
}

/// The seam column and interior flag of attribute `d`: a corner attribute
/// riding an attribute connectivity uses that stream's bit of the seam
/// bytes; any other attribute rides the position connectivity.
pub open spec fn seam_column(d: Descriptor, stats: Seq<SeamStats>) -> Result<(u8, bool), DecodeError> {
    if d.domain == AttributeDomain::Corner && d.att_data_id != NO_ATTRIBUTE_DATA {
        if d.att_data_id >= stats.len() {
            Err(DecodeError::MalformedAttribute("attribute names a seam stream the connectivity did not encode"))
        } else {
            Ok(((1u8 << d.att_data_id), stats[d.att_data_id as int].has_interior))
        }
    } else {
        Ok((0u8, false))
    }
}

/// Computes the seam column and interior flag of every attribute, refusing
/// the first that names a seam stream the connectivity lacks.
pub fn seam_columns(descriptors: &Vec<Descriptor>, stats: &Vec<SeamStats>) -> (r: Result<(Vec<u8>, Vec<bool>), DecodeError>)
    requires
        stats@.len() <= 8,
    ensures
        (forall|i: int| 0 <= i < descriptors@.len() ==> #[trigger] seam_column(descriptors@[i], stats@) is Ok) ==> (r matches Ok((
            masks,
            interior,
        )) && masks@.len() == descriptors@.len() && interior@.len() == descriptors@.len() && forall|i: int|
            0 <= i < descriptors@.len() ==> #[trigger] seam_column(descriptors@[i], stats@) == Ok::<(u8, bool), DecodeError>(
                (masks@[i], interior@[i]),
            )),
        !(forall|i: int| 0 <= i < descriptors@.len() ==> #[trigger] seam_column(descriptors@[i], stats@) is Ok) ==> r
            == Err::<(Vec<u8>, Vec<bool>), DecodeError>(
            DecodeError::MalformedAttribute("attribute names a seam stream the connectivity did not encode"),
        ),
{
    let mut masks: Vec<u8> = Vec::new();
    let mut interior: Vec<bool> = Vec::new();
    let mut i: usize = 0;
    while i < descriptors.len()
        invariant
            stats@.len() <= 8,
            i <= descriptors@.len(),
            masks@.len() == i,
            interior@.len() == i,
            forall|j: int| 0 <= j < i ==> #[trigger] seam_column(descriptors@[j], stats@) == Ok::<(u8, bool), DecodeError>(
                (masks@[j], interior@[j]),
            ),
        decreases descriptors@.len() - i,
    {
        let d = descriptors[i];
        if d.domain == AttributeDomain::Corner && d.att_data_id != NO_ATTRIBUTE_DATA {
            let id = d.att_data_id as usize;
            if id >= stats.len() {
                proof {
                    assert(seam_column(descriptors@[i as int], stats@) is Err);
                }
                return Err(DecodeError::MalformedAttribute("attribute names a seam stream the connectivity did not encode"));
            }
            masks.push(1u8 << d.att_data_id);
            interior.push(stats[id].has_interior);
        } else {
            masks.push(0u8);
            interior.push(false);
        }
        i = i + 1;
    }
    Ok((masks, interior))
}

/// Whether some attribute with interior seams asks for a traversal other
/// than depth-first; prediction-degree traversal is defined over the
/// position connectivity only.
pub open spec fn interior_traversal_refused(descriptors: Seq<Descriptor>, interior: Seq<bool>) -> bool {
    exists|i: int| 0 <= i < descriptors.len() && #[trigger] interior[i] && descriptors[i].traversal != TraversalType::DepthFirst
}

/// Refuses prediction-degree traversal on an attribute with interior seams.
pub fn check_traversals(descriptors: &Vec<Descriptor>, interior: &Vec<bool>) -> (r: Result<(), DecodeError>)
    requires
        interior@.len() == descriptors@.len(),
    ensures
        !interior_traversal_refused(descriptors@, interior@) ==> r is Ok,
        interior_traversal_refused(descriptors@, interior@) ==> r == Err::<(), DecodeError>(
            DecodeError::MalformedAttribute("prediction-degree traversal on an attribute with interior seams"),
        ),
{
    let mut i: usize = 0;
    while i < descriptors.len()
        invariant
            interior@.len() == descriptors@.len(),
            i <= descriptors@.len(),
            forall|j: int| 0 <= j < i ==> !(#[trigger] interior@[j] && descriptors@[j].traversal != TraversalType::DepthFirst),
        decreases descriptors@.len() - i,
    {
        if interior[i] && descriptors[i].traversal != TraversalType::DepthFirst {
            return Err(DecodeError::MalformedAttribute("prediction-degree traversal on an attribute with interior seams"));
        }
        i = i + 1;
    }
    Ok(())
}

/// Whether seam columns `a` and `b` agree on every seam byte.
pub open spec fn columns_agree(seam_bits: Seq<u8>, a: u8, b: u8) -> bool {
    forall|k: int| 0 <= k < seam_bits.len() ==> ((#[trigger] seam_bits[k] & a) != 0) == ((seam_bits[k] & b) != 0)
}

/// Whether attributes `i` and `j` share a walk: attributes without interior
/// seams walk the position connectivity the same way, attributes with them
/// cut it along the same seams.
pub open spec fn same_group(
    ds: Seq<Descriptor>,
    interior: Seq<bool>,
    masks: Seq<u8>,
    seam_bits: Seq<u8>,
    i: int,
    j: int,
) -> bool {
    if !interior[i] {
        !interior[j] && ds[j].traversal == ds[i].traversal
    } else {
        interior[j] && columns_agree(seam_bits, masks[j], masks[i])
    }
}

/// The first attribute from `j` on that shares a walk with `i`, or `i`.
pub open spec fn first_in_group(
    ds: Seq<Descriptor>,
    interior: Seq<bool>,
    masks: Seq<u8>,
    seam_bits: Seq<u8>,
    i: int,
    j: int,
) -> int
    decreases i - j,
{
    if j >= i {
        i
    } else if same_group(ds, interior, masks, seam_bits, i, j) {
        j
    } else {
        first_in_group(ds, interior, masks, seam_bits, i, j + 1)
    }
}

/// The group of attribute `i`: the first attribute sharing its walk.
pub open spec fn group_of(ds: Seq<Descriptor>, interior: Seq<bool>, masks: Seq<u8>, seam_bits: Seq<u8>, i: int) -> int {
    first_in_group(ds, interior, masks, seam_bits, i, 0)
}

/// Sharing a walk is an equivalence.
pub proof fn lemma_same_group_equivalence(
    ds: Seq<Descriptor>,
    interior: Seq<bool>,
    masks: Seq<u8>,
    seam_bits: Seq<u8>,
    i: int,
    j: int,
    k: int,
)
    ensures
        same_group(ds, interior, masks, seam_bits, i, i),
        same_group(ds, interior, masks, seam_bits, i, j) ==> same_group(ds, interior, masks, seam_bits, j, i),
        same_group(ds, interior, masks, seam_bits, i, j) && same_group(ds, interior, masks, seam_bits, j, k)
            ==> same_group(ds, interior, masks, seam_bits, i, k),
{
}

proof fn lemma_first_in_group(ds: Seq<Descriptor>, interior: Seq<bool>, masks: Seq<u8>, seam_bits: Seq<u8>, i: int, j: int)
    requires
        0 <= j <= i,
    ensures
        j <= first_in_group(ds, interior, masks, seam_bits, i, j) <= i,
        same_group(ds, interior, masks, seam_bits, i, first_in_group(ds, interior, masks, seam_bits, i, j)),
        forall|m: int| j <= m < first_in_group(ds, interior, masks, seam_bits, i, j) ==> !same_group(ds, interior, masks, seam_bits, i, m),
    decreases i - j,
{
    lemma_same_group_equivalence(ds, interior, masks, seam_bits, i, i, i);
    if j < i && !same_group(ds, interior, masks, seam_bits, i, j) {
        lemma_first_in_group(ds, interior, masks, seam_bits, i, j + 1);
    }
}

/// The first of a group is its own group, and attributes share a walk
/// exactly when their groups agree.
pub proof fn lemma_group_of(ds: Seq<Descriptor>, interior: Seq<bool>, masks: Seq<u8>, seam_bits: Seq<u8>, i: int, j: int)
    requires
        0 <= i,
        0 <= j,
    ensures
        0 <= group_of(ds, interior, masks, seam_bits, i) <= i,
        group_of(ds, interior, masks, seam_bits, group_of(ds, interior, masks, seam_bits, i)) == group_of(ds, interior, masks, seam_bits, i),
        same_group(ds, interior, masks, seam_bits, i, j) <==> group_of(ds, interior, masks, seam_bits, i) == group_of(
            ds,
            interior,
            masks,
            seam_bits,
            j,
        ),
{
    lemma_first_in_group(ds, interior, masks, seam_bits, i, 0);
    lemma_first_in_group(ds, interior, masks, seam_bits, j, 0);
    let gi = group_of(ds, interior, masks, seam_bits, i);
    let gj = group_of(ds, interior, masks, seam_bits, j);
    lemma_first_in_group(ds, interior, masks, seam_bits, gi, 0);
    let ggi = group_of(ds, interior, masks, seam_bits, gi);
    lemma_same_group_equivalence(ds, interior, masks, seam_bits, i, gi, ggi);
    lemma_same_group_equivalence(ds, interior, masks, seam_bits, gi, i, ggi);
    lemma_same_group_equivalence(ds, interior, masks, seam_bits, gi, ggi, i);
    if ggi < gi {
        lemma_same_group_equivalence(ds, interior, masks, seam_bits, i, gi, ggi);
        assert(same_group(ds, interior, masks, seam_bits, i, ggi));
        assert(false);
    }
    if same_group(ds, interior, masks, seam_bits, i, j) {
        lemma_same_group_equivalence(ds, interior, masks, seam_bits, j, i, gi);
        lemma_same_group_equivalence(ds, interior, masks, seam_bits, i, j, gj);
        lemma_same_group_equivalence(ds, interior, masks, seam_bits, j, i, j);
        if gi < gj {
            lemma_same_group_equivalence(ds, interior, masks, seam_bits, j, i, gi);
            assert(same_group(ds, interior, masks, seam_bits, j, gi));
        }
        if gj < gi {
            lemma_same_group_equivalence(ds, interior, masks, seam_bits, i, j, gj);
            assert(same_group(ds, interior, masks, seam_bits, i, gj));
        }
    }
    if gi == gj {
        lemma_same_group_equivalence(ds, interior, masks, seam_bits, j, gj, i);
        lemma_same_group_equivalence(ds, interior, masks, seam_bits, i, gi, j);
        lemma_same_group_equivalence(ds, interior, masks, seam_bits, gi, i, i);
        lemma_same_group_equivalence(ds, interior, masks, seam_bits, i, gi, gi);
        lemma_same_group_equivalence(ds, interior, masks, seam_bits, gj, j, j);
        lemma_same_group_equivalence(ds, interior, masks, seam_bits, i, gj, j);
    }
}

/// Whether seam columns `mi` and `mj` agree on every seam byte.
fn columns_equal(seam_bits: &Vec<u8>, mi: u8, mj: u8) -> (b: bool)
    ensures
        b == columns_agree(seam_bits@, mi, mj),
{
    if mi == mj {
        return true;
    }
    let mut k: usize = 0;
    while k < seam_bits.len()
        invariant
            k <= seam_bits@.len(),
            forall|m: int| 0 <= m < k ==> ((#[trigger] seam_bits@[m] & mi) != 0) == ((seam_bits@[m] & mj) != 0),
        decreases seam_bits@.len() - k,
    {
        let b = seam_bits[k];
        if ((b & mi) != 0) != ((b & mj) != 0) {
            return false;
        }
        k = k + 1;
    }
    true
}

/// Whether attributes `i` and `j` share a walk.
fn share_walk(
    descriptors: &Vec<Descriptor>,
    interior: &Vec<bool>,
    masks: &Vec<u8>,
    seam_bits: &Vec<u8>,
    i: usize,
    j: usize,
) -> (b: bool)
    requires
        i < descriptors@.len(),
        j < descriptors@.len(),
        interior@.len() == descriptors@.len(),
        masks@.len() == descriptors@.len(),
    ensures
        b == same_group(descriptors@, interior@, masks@, seam_bits@, i as int, j as int),
{
    if !interior[i] {
        !interior[j] && descriptors[j].traversal == descriptors[i].traversal
    } else {
        interior[j] && columns_equal(seam_bits, masks[j], masks[i])
    }
}

/// Assigns every attribute its group, the first attribute sharing its walk.
pub fn group_ids(descriptors: &Vec<Descriptor>, interior: &Vec<bool>, masks: &Vec<u8>, seam_bits: &Vec<u8>) -> (r: Vec<usize>)
    requires
        interior@.len() == descriptors@.len(),
        masks@.len() == descriptors@.len(),
    ensures
        r@.len() == descriptors@.len(),
        forall|i: int| 0 <= i < r@.len() ==> #[trigger] r@[i] as int == group_of(descriptors@, interior@, masks@, seam_bits@, i),
{
    let ghost ds = descriptors@;
    let n = descriptors.len();
    let mut ids: Vec<usize> = Vec::new();
    let mut i: usize = 0;
    while i < n
        invariant
            ds == descriptors@,
            n == ds.len(),
            interior@.len() == n,
            masks@.len() == n,
            i <= n,
            ids@.len() == i,
            forall|m: int| 0 <= m < i ==> #[trigger] ids@[m] as int == group_of(ds, interior@, masks@, seam_bits@, m),
        decreases n - i,
    {
        let mut j: usize = 0;
        let mut found = false;
        while !found && j < i
            invariant
                ds == descriptors@,
                n == ds.len(),
                interior@.len() == n,
                masks@.len() == n,
                i < n,
                j <= i,
                found ==> j < i && same_group(ds, interior@, masks@, seam_bits@, i as int, j as int),
                forall|m: int| 0 <= m < j ==> !same_group(ds, interior@, masks@, seam_bits@, i as int, m),
            decreases i - j + (if found { 0int } else { 1int }),
        {
            if share_walk(descriptors, interior, masks, seam_bits, i, j) {
                found = true;
            } else {
                j = j + 1;
            }
        }
        proof {
            lemma_first_in_group(ds, interior@, masks@, seam_bits@, i as int, 0);
            if found {
                assert(same_group(ds, interior@, masks@, seam_bits@, i as int, j as int));
                assert(group_of(ds, interior@, masks@, seam_bits@, i as int) == j);
                lemma_group_of(ds, interior@, masks@, seam_bits@, i as int, j as int);
            } else {
                assert(group_of(ds, interior@, masks@, seam_bits@, i as int) == i);
            }
        }
        let gid = if found {
            ids[j]
        } else {
            i
        };
        ids.push(gid);
        i = i + 1;
    }
    ids
}

/// The number of values the walk of a group led by attribute `d` visits:
/// every referenced position vertex, and for a walk cut along interior
/// seams one more per sector start beyond the first of its fan. `None`
/// where the seam statistics of the stream leave `usize`.
pub open spec fn group_value_count(d: Descriptor, interior: bool, stats: Seq<SeamStats>, referenced: nat) -> Option<nat> {
    if interior {
        let st = stats[d.att_data_id as int];
        if st.starts + referenced > usize::MAX || st.fans_with_starts > st.starts + referenced {
            None
        } else {
            Some((st.starts + referenced - st.fans_with_starts) as nat)
        }
    } else {
        Some(referenced)
    }
}

/// The value count of every group, kept at its first attribute (zero at
/// the others), for `referenced` referenced position vertices.
pub fn group_num_values(
    descriptors: &Vec<Descriptor>,
    interior: &Vec<bool>,
    ids: &Vec<usize>,
    stats: &Vec<SeamStats>,
    referenced: usize,
) -> (r: Result<Vec<usize>, DecodeError>)
    requires
        interior@.len() == descriptors@.len(),
        ids@.len() == descriptors@.len(),
        forall|i: int| 0 <= i < descriptors@.len() && #[trigger] interior@[i] ==> descriptors@[i].att_data_id < stats@.len(),
    ensures
        (forall|i: int| 0 <= i < descriptors@.len() && #[trigger] ids@[i] == i ==> group_value_count(
            descriptors@[i],
            interior@[i],
            stats@,
            referenced as nat,
        ) is Some) ==> (r matches Ok(v) && v@.len() == descriptors@.len() && forall|i: int|
            0 <= i < descriptors@.len() ==> #[trigger] v@[i] as nat == if ids@[i] == i {
                group_value_count(descriptors@[i], interior@[i], stats@, referenced as nat)->0
            } else {
                0
            }),
        !(forall|i: int| 0 <= i < descriptors@.len() && #[trigger] ids@[i] == i ==> group_value_count(
            descriptors@[i],
            interior@[i],
            stats@,
            referenced as nat,
        ) is Some) ==> r == Err::<Vec<usize>, DecodeError>(
            DecodeError::MalformedAttribute("seam statistics out of range"),
        ),
{
    let n = descriptors.len();
    let mut out: Vec<usize> = Vec::new();
    let mut i: usize = 0;
    while i < n
        invariant
            n == descriptors@.len(),
            interior@.len() == n,
            ids@.len() == n,
            forall|m: int| 0 <= m < n && #[trigger] interior@[m] ==> descriptors@[m].att_data_id < stats@.len(),
            i <= n,
            out@.len() == i,
            forall|m: int| 0 <= m < i && #[trigger] ids@[m] == m ==> group_value_count(
                descriptors@[m],
                interior@[m],
                stats@,
                referenced as nat,
            ) is Some,
            forall|m: int|
                0 <= m < i ==> #[trigger] out@[m] as nat == if ids@[m] == m {
                    group_value_count(descriptors@[m], interior@[m], stats@, referenced as nat)->0
                } else {
                    0
                },
        decreases n - i,
    {
        let v: usize = if ids[i] != i {
            0
        } else if interior[i] {
            let st = &stats[descriptors[i].att_data_id as usize];
            if st.starts > usize::MAX - referenced || st.fans_with_starts > st.starts + referenced {
                proof {
                    assert(ids@[i as int] == i);
                }
                return Err(DecodeError::MalformedAttribute("seam statistics out of range"));
            }
            st.starts + referenced - st.fans_with_starts
        } else {
            referenced
        };
        out.push(v);
        i = i + 1;
    }
    Ok(out)
}

/// The union of the seam columns of the first `n` attributes that lead a
/// group cut along interior seams.
pub open spec fn union_mask_of(masks: Seq<u8>, ids: Seq<usize>, interior: Seq<bool>, n: int) -> u8
    decreases n,
{
    if n <= 0 {
        0u8
    } else {
        let u = union_mask_of(masks, ids, interior, n - 1);
        if ids[n - 1] == n - 1 && interior[n - 1] {
            u | masks[n - 1]
        } else {
            u
        }
    }
}

/// The union of the seam columns of the groups cut along interior seams.
pub fn union_mask(masks: &Vec<u8>, ids: &Vec<usize>, interior: &Vec<bool>) -> (u: u8)
    requires
        ids@.len() == masks@.len(),
        interior@.len() == masks@.len(),
    ensures
        u == union_mask_of(masks@, ids@, interior@, masks@.len() as int),
{
    let mut u: u8 = 0;
    let mut i: usize = 0;
    while i < masks.len()
        invariant
            ids@.len() == masks@.len(),
            interior@.len() == masks@.len(),
            i <= masks@.len(),
            u == union_mask_of(masks@, ids@, interior@, i as int),
        decreases masks@.len() - i,
    {
        if ids[i] == i && interior[i] {
            u = u | masks[i];
        }
        i = i + 1;
    }
    u
}

/// The faces over the position connectivity: face `f` is the position
/// vertices of its three corners.
pub fn position_faces(corner_to_vertex: &Vec<usize>, num_faces: usize) -> (r: Vec<[usize; 3]>)
    requires
        3 * num_faces <= corner_to_vertex@.len(),
    ensures
        r@.len() == num_faces,
        forall|f: int|
            0 <= f < num_faces ==> #[trigger] r@[f] == [
                corner_to_vertex@[3 * f],
                corner_to_vertex@[3 * f + 1],
                corner_to_vertex@[3 * f + 2],
            ],
{
    let mut out: Vec<[usize; 3]> = Vec::new();
    let mut f: usize = 0;
    let len = corner_to_vertex.len();
    while f < num_faces
        invariant
            len == corner_to_vertex@.len(),
            3 * num_faces <= corner_to_vertex@.len(),
            f <= num_faces,
            out@.len() == f,
            forall|g: int|
                0 <= g < f ==> #[trigger] out@[g] == [
                    corner_to_vertex@[3 * g],
                    corner_to_vertex@[3 * g + 1],
                    corner_to_vertex@[3 * g + 2],
                ],
        decreases num_faces - f,
    {
        let c = 3 * f;
        out.push([corner_to_vertex[c], corner_to_vertex[c + 1], corner_to_vertex[c + 2]]);
        f = f + 1;
    }
    out
}

/// The payloads of the attributes `ds`, attribute `i` with `nvs[i]`
/// values, one after another at the start of `s`; `None` where a
/// correction stream does not parse.
pub open spec fn payloads_list_parse(s: Seq<u8>, nvs: Seq<usize>, ds: Seq<Descriptor>) -> Option<
    Result<(Seq<PayloadModel>, nat), DecodeError>,
>
    decreases ds.len(),
{
    if ds.len() == 0 {
        Some(Ok((Seq::empty(), 0)))
    } else {
        match dispatched_parse(s, nvs[0] as nat, ds[0]) {
            None => None,
            Some(Err(e)) => Some(Err(e)),
            Some(Ok((sc, c, f, o, cr, t, k))) => match payloads_list_parse(
                s.skip(k as int),
                nvs.drop_first(),
                ds.drop_first(),
            ) {
                None => None,
                Some(Err(e)) => Some(Err(e)),
                Some(Ok((ps, k2))) => Some(Ok((seq![(sc, c, f, o, cr, t)] + ps, k + k2))),
            },
        }
    }
}

/// The portabilization blocks of the attributes `ds`, one after another
/// at the start of `s`: where each starts, and the bytes they span.
pub open spec fn ports_list_parse(s: Seq<u8>, ds: Seq<Descriptor>) -> Result<(Seq<nat>, nat), DecodeError>
    decreases ds.len(),
{
    if ds.len() == 0 {
        Ok((Seq::empty(), 0))
    } else {
        match port_error(s, ds[0].port_type, ds[0].num_components as nat) {
            Some(e) => Err(e),
            None => {
                let l = port_len(ds[0].port_type, ds[0].num_components as nat);
                match ports_list_parse(s.skip(l as int), ds.drop_first()) {
                    Err(e) => Err(e),
                    Ok((offs, k)) => Ok((seq![0nat] + shift(offs, l), l + k)),
                }
            },
        }
    }
}

/// The payload and portabilization blocks of every decoder: each decoder
/// writes the payloads of its `sizes[0]` attributes, then their
/// portabilization blocks. Gives the payloads, where each portabilization
/// block starts relative to `s`, and the bytes spanned.
pub open spec fn decoders_parse(s: Seq<u8>, nvs: Seq<usize>, ds: Seq<Descriptor>, sizes: Seq<usize>) -> Option<
    Result<(Seq<PayloadModel>, Seq<nat>, nat), DecodeError>,
>
    decreases sizes.len(),
{
    if sizes.len() == 0 {
        Some(Ok((Seq::empty(), Seq::empty(), 0)))
    } else {
        let m = sizes[0] as int;
        match payloads_list_parse(s, nvs.take(m), ds.take(m)) {
            None => None,
            Some(Err(e)) => Some(Err(e)),
            Some(Ok((ps, k1))) => match ports_list_parse(s.skip(k1 as int), ds.take(m)) {
                Err(e) => Some(Err(e)),
                Ok((offs, k2)) => match decoders_parse(
                    s.skip((k1 + k2) as int),
                    nvs.skip(m),
                    ds.skip(m),
                    sizes.drop_first(),
                ) {
                    None => None,
                    Some(Err(e)) => Some(Err(e)),
                    Some(Ok((ps2, offs2, k3))) => Some(
                        Ok((ps + ps2, shift(offs, k1) + shift(offs2, k1 + k2), k1 + k2 + k3)),
                    ),
                },
            },
        }
    }
}

proof fn lemma_dispatched_fits(s: Seq<u8>, num_values: nat, d: Descriptor)
    ensures
        dispatched_parse(s, num_values, d) matches Some(Ok((sc, c, f, o, cr, t, k))) ==> {
            &&& 1 <= d.portable_n() <= 4
            &&& num_values * d.portable_n() <= usize::MAX / 4
            &&& c.len() == num_values * d.portable_n()
        },
{
    reveal(dispatched_parse);
}

/// Parses the payloads of attributes `start..end`.
fn parse_payload_list(
    reader: &mut Reader<'_>,
    descriptors: &Vec<Descriptor>,
    nvs: &Vec<usize>,
    start: usize,
    end: usize,
) -> (r: Result<Vec<Payload>, DecodeError>)
    requires
        start <= end <= descriptors@.len(),
        nvs@.len() == descriptors@.len(),
    ensures
        match payloads_list_parse(
            old(reader).rest(),
            nvs@.subrange(start as int, end as int),
            descriptors@.subrange(start as int, end as int),
        ) {
            Some(Ok((ps, k))) => (r matches Ok(v) && payload_models(v@) == ps && v@.len() == end - start
                && (forall|j: int| 0 <= j < v@.len() ==> payload_fits(#[trigger] v@[j], descriptors@[start + j], nvs@[start + j] as nat))
                && k <= old(reader).rest().len() && final(reader).rest() == old(reader).rest().skip(k as int)),
            Some(Err(e)) => r == Err::<Vec<Payload>, DecodeError>(e),
            None => r is Err,
        },
{
    let ghost s = reader.rest();
    let ghost ds = descriptors@.subrange(start as int, end as int);
    let ghost ns = nvs@.subrange(start as int, end as int);
    let ghost total = payloads_list_parse(s, ns, ds);
    let mut payloads: Vec<Payload> = Vec::new();
    let ghost mut done: Seq<PayloadModel> = Seq::empty();
    let ghost mut used: nat = 0;
    let mut i: usize = start;
    proof {
        assert(ds.skip(0) =~= ds);
        assert(ns.skip(0) =~= ns);
        assert(s.skip(0) =~= s);
        match total {
            Some(Ok((ps, k))) => {
                assert(Seq::<PayloadModel>::empty() + ps =~= ps);
            },
            _ => {},
        }
    }
    while i < end
        invariant
            start <= i <= end <= descriptors@.len(),
            nvs@.len() == descriptors@.len(),
            ds == descriptors@.subrange(start as int, end as int),
            ns == nvs@.subrange(start as int, end as int),
            s == old(reader).rest(),
            total == payloads_list_parse(s, ns, ds),
            used <= s.len(),
            reader.rest() == s.skip(used as int),
            payloads@.len() == i - start,
            done.len() == i - start,
            payload_models(payloads@) == done,
            forall|j: int| 0 <= j < i - start ==> payload_fits(#[trigger] payloads@[j], descriptors@[start + j], nvs@[start + j] as nat),
            total == match payloads_list_parse(reader.rest(), ns.skip(i - start), ds.skip(i - start)) {
                None => None,
                Some(Err(e)) => Some(Err(e)),
                Some(Ok((ps, k))) => Some(Ok::<(Seq<PayloadModel>, nat), DecodeError>((done + ps, used + k))),
            },
        decreases end - i,
    {
        let ghost cur = reader.rest();
        let ghost off = i - start;
        proof {
            assert(ds.skip(off)[0] == descriptors@[i as int]);
            assert(ns.skip(off)[0] == nvs@[i as int]);
            assert(ds.skip(off).drop_first() =~= ds.skip(off + 1));
            assert(ns.skip(off).drop_first() =~= ns.skip(off + 1));
            lemma_dispatched_fits(cur, nvs@[i as int] as nat, descriptors@[i as int]);
        }
        let p = match parse_payload_dispatched(reader, nvs[i], &descriptors[i]) {
            Ok(p) => p,
            Err(e) => {
                return Err(e);
            },
        };
        proof {
            let (sc, c, f, o, cr, t, k) = dispatched_parse(cur, nvs@[i as int] as nat, descriptors@[i as int])->Some_0->Ok_0;
            assert(s.skip(used as int).skip(k as int) =~= s.skip((used + k) as int));
            match payloads_list_parse(reader.rest(), ns.skip(off + 1), ds.skip(off + 1)) {
                Some(Ok((ps, k2))) => {
                    assert(done.push(payload_view(p)) + ps =~= done + (seq![payload_view(p)] + ps));
                },
                _ => {},
            }
            done = done.push(payload_view(p));
            used = used + k;
        }
        payloads.push(p);
        proof {
            assert(payload_models(payloads@) =~= done);
        }
        i = i + 1;
    }
    proof {
        assert(ds.skip(end - start) =~= Seq::<Descriptor>::empty());
        assert(done + Seq::<PayloadModel>::empty() =~= done);
    }
    Ok(payloads)
}

/// Reads the portabilization blocks of attributes `start..end`.
fn read_port_list(reader: &mut Reader<'_>, descriptors: &Vec<Descriptor>, start: usize, end: usize) -> (r: Result<
    Vec<AttributeTransform>,
    DecodeError,
>)
    requires
        start <= end <= descriptors@.len(),
    ensures
        match ports_list_parse(old(reader).rest(), descriptors@.subrange(start as int, end as int)) {
            Ok((offs, k)) => (r matches Ok(ts) && ts@.len() == end - start && offs.len() == end - start
                && (forall|j: int| 0 <= j < offs.len() ==> #[trigger] offs[j] <= old(reader).rest().len())
                && transforms_match(old(reader).rest(), descriptors@.subrange(start as int, end as int), offs, ts@)
                && k <= old(reader).rest().len() && final(reader).rest() == old(reader).rest().skip(k as int)),
            Err(e) => r == Err::<Vec<AttributeTransform>, DecodeError>(e),
        },
{
    let ghost s = reader.rest();
    let ghost ds = descriptors@.subrange(start as int, end as int);
    let ghost total = ports_list_parse(s, ds);
    let mut ts: Vec<AttributeTransform> = Vec::new();
    let ghost mut done_o: Seq<nat> = Seq::empty();
    let ghost mut used: nat = 0;
    let mut i: usize = start;
    proof {
        assert(ds.skip(0) =~= ds);
        assert(s.skip(0) =~= s);
        if let Ok((offs, k)) = total {
            assert(Seq::<nat>::empty() + shift(offs, 0) =~= offs);
        }
    }
    while i < end
        invariant
            start <= i <= end <= descriptors@.len(),
            ds == descriptors@.subrange(start as int, end as int),
            s == old(reader).rest(),
            total == ports_list_parse(s, ds),
            used <= s.len(),
            reader.rest() == s.skip(used as int),
            ts@.len() == i - start,
            done_o.len() == i - start,
            forall|j: int| 0 <= j < i - start ==> #[trigger] done_o[j] <= s.len() && port_matches(
                s.skip(done_o[j] as int),
                ds[j].port_type,
                ds[j].component_type,
                ds[j].num_components as nat,
                ts@[j],
            ),
            total == match ports_list_parse(reader.rest(), ds.skip(i - start)) {
                Err(e) => Err(e),
                Ok((offs, k)) => Ok::<(Seq<nat>, nat), DecodeError>((done_o + shift(offs, used), used + k)),
            },
        decreases end - i,
    {
        let ghost off = i - start;
        let d = descriptors[i];
        proof {
            assert(ds.skip(off)[0] == d);
            assert(ds.skip(off).drop_first() =~= ds.skip(off + 1));
        }
        let t = read_portabilization(reader, d.port_type, d.component_type, d.num_components)?;
        let ghost l = port_len(d.port_type, d.num_components as nat);
        proof {
            assert(s.skip(used as int).skip(l as int) =~= s.skip((used + l) as int));
            match ports_list_parse(reader.rest(), ds.skip(off + 1)) {
                Ok((offs, k)) => {
                    assert(done_o.push(used) + shift(offs, used + l) =~= done_o + shift(seq![0nat] + shift(offs, l), used));
                },
                Err(e) => {},
            }
            done_o = done_o.push(used);
            used = used + l;
        }
        ts.push(t);
        i = i + 1;
    }
    proof {
        assert(ds.skip(end - start) =~= Seq::<Descriptor>::empty());
        assert(done_o + shift(Seq::<nat>::empty(), used) =~= done_o);
    }
    Ok(ts)
}

/// The sum of `sizes`.
pub open spec fn sum_of(sizes: Seq<usize>) -> nat
    decreases sizes.len(),
{
    if sizes.len() == 0 {
        0
    } else {
        sizes[0] as nat + sum_of(sizes.drop_first())
    }
}

/// Appending `x` adds it to the sum.
proof fn lemma_sum_push(sizes: Seq<usize>, x: usize)
    ensures
        sum_of(sizes.push(x)) == sum_of(sizes) + x,
    decreases sizes.len(),
{
    let p = sizes.push(x);
    assert(p.len() > 0);
    assert(sum_of(p) == p[0] as nat + sum_of(p.drop_first()));
    if sizes.len() > 0 {
        lemma_sum_push(sizes.drop_first(), x);
        assert(p.drop_first() =~= sizes.drop_first().push(x));
        assert(p[0] == sizes[0]);
        assert(sum_of(sizes) == sizes[0] as nat + sum_of(sizes.drop_first()));
    } else {
        assert(p.drop_first() =~= Seq::<usize>::empty());
        assert(sum_of(Seq::<usize>::empty()) == 0);
        assert(sum_of(sizes) == 0);
    }
}

/// Parses every decoder's payload and portabilization blocks: decoder `d`
/// covers the next `sizes[d]` attributes, attribute `i` has `nvs[i]`
/// values.
#[verifier::spinoff_prover]
#[verifier::rlimit(60)]
pub fn parse_traversed_payloads(
    reader: &mut Reader<'_>,
    descriptors: &Vec<Descriptor>,
    sizes: &Vec<usize>,
    nvs: &Vec<usize>,
) -> (r: Result<(Vec<Payload>, Vec<AttributeTransform>), DecodeError>)
    requires
        nvs@.len() == descriptors@.len(),
        sum_of(sizes@) == descriptors@.len(),
    ensures
        match decoders_parse(old(reader).rest(), nvs@, descriptors@, sizes@) {
            Some(Ok((ps, offs, k))) => (r matches Ok((v, ts)) && payload_models(v@) == ps && v@.len() == descriptors@.len()
                && ts@.len() == descriptors@.len() && offs.len() == descriptors@.len()
                && (forall|j: int| 0 <= j < v@.len() ==> payload_fits(#[trigger] v@[j], descriptors@[j], nvs@[j] as nat))
                && transforms_match(old(reader).rest(), descriptors@, offs, ts@)
                && k <= old(reader).rest().len() && final(reader).rest() == old(reader).rest().skip(k as int)),
            Some(Err(e)) => r == Err::<(Vec<Payload>, Vec<AttributeTransform>), DecodeError>(e),
            None => r is Err,
        },
{
    let ghost s = reader.rest();
    let ghost ds = descriptors@;
    let ghost ns = nvs@;
    let ghost zs = sizes@;
    let ghost total = decoders_parse(s, ns, ds, zs);
    let mut payloads: Vec<Payload> = Vec::new();
    let mut transforms: Vec<AttributeTransform> = Vec::new();
    let ghost mut done_p: Seq<PayloadModel> = Seq::empty();
    let ghost mut done_o: Seq<nat> = Seq::empty();
    let ghost mut used: nat = 0;
    let mut start: usize = 0;
    let mut d: usize = 0;
    let total_len = descriptors.len();
    proof {
        assert(ds.skip(0) =~= ds);
        assert(ns.skip(0) =~= ns);
        assert(zs.skip(0) =~= zs);
        assert(s.skip(0) =~= s);
        match total {
            Some(Ok((ps, offs, k))) => {
                assert(Seq::<PayloadModel>::empty() + ps =~= ps);
                assert(Seq::<nat>::empty() + shift(offs, 0) =~= offs);
            },
            _ => {},
        }
    }
    while d < sizes.len()
        invariant
            ds == descriptors@,
            ns == nvs@,
            zs == sizes@,
            ns.len() == ds.len(),
            total_len == ds.len(),
            s == old(reader).rest(),
            total == decoders_parse(s, ns, ds, zs),
            d <= zs.len(),
            start + sum_of(zs.skip(d as int)) == ds.len(),
            used <= s.len(),
            reader.rest() == s.skip(used as int),
            payloads@.len() == start,
            transforms@.len() == start,
            done_p.len() == start,
            done_o.len() == start,
            payload_models(payloads@) == done_p,
            forall|j: int| 0 <= j < start ==> payload_fits(#[trigger] payloads@[j], ds[j], ns[j] as nat),
            forall|j: int| 0 <= j < start ==> #[trigger] done_o[j] <= s.len() && port_matches(
                s.skip(done_o[j] as int),
                ds[j].port_type,
                ds[j].component_type,
                ds[j].num_components as nat,
                transforms@[j],
            ),
            total == match decoders_parse(reader.rest(), ns.skip(start as int), ds.skip(start as int), zs.skip(d as int)) {
                None => None,
                Some(Err(e)) => Some(Err(e)),
                Some(Ok((ps, offs, k))) => Some(
                    Ok::<(Seq<PayloadModel>, Seq<nat>, nat), DecodeError>((done_p + ps, done_o + shift(offs, used), used + k)),
                ),
            },
        decreases zs.len() - d,
    {
        let ghost cur = reader.rest();
        let m = sizes[d];
        proof {
            assert(zs.skip(d as int)[0] == m);
            assert(zs.skip(d as int).drop_first() =~= zs.skip(d + 1));
            assert(sum_of(zs.skip(d as int)) == m + sum_of(zs.skip(d + 1)));
        }
        let end = start + m;
        proof {
            assert(ns.skip(start as int).take(m as int) =~= ns.subrange(start as int, end as int));
            assert(ds.skip(start as int).take(m as int) =~= ds.subrange(start as int, end as int));
            assert(ns.skip(start as int).skip(m as int) =~= ns.skip(end as int));
            assert(ds.skip(start as int).skip(m as int) =~= ds.skip(end as int));
        }
        let ps_new = parse_payload_list(reader, descriptors, nvs, start, end)?;
        let ghost k1 = payloads_list_parse(cur, ns.subrange(start as int, end as int), ds.subrange(start as int, end as int))->Some_0->Ok_0.1;
        let ghost cur2 = reader.rest();
        let ts_new = read_port_list(reader, descriptors, start, end)?;
        let ghost (offs_new, k2) = ports_list_parse(cur2, ds.subrange(start as int, end as int))->Ok_0;
        proof {
            assert(cur2 =~= s.skip((used + k1) as int));
            assert(s.skip(used as int).skip((k1 + k2) as int) =~= s.skip((used + k1 + k2) as int));
            assert(cur.skip(k1 as int).skip(k2 as int) =~= cur.skip((k1 + k2) as int));
            let pm0 = payloads_list_parse(cur, ns.subrange(start as int, end as int), ds.subrange(start as int, end as int))->Some_0->Ok_0.0;
            assert(decoders_parse(cur, ns.skip(start as int), ds.skip(start as int), zs.skip(d as int)) == match decoders_parse(
                cur.skip((k1 + k2) as int),
                ns.skip(end as int),
                ds.skip(end as int),
                zs.skip(d + 1),
            ) {
                None => None,
                Some(Err(e)) => Some(Err(e)),
                Some(Ok((ps2, offs2, k3))) => Some(
                    Ok::<(Seq<PayloadModel>, Seq<nat>, nat), DecodeError>(
                        (pm0 + ps2, shift(offs_new, k1) + shift(offs2, k1 + k2), k1 + k2 + k3),
                    ),
                ),
            });
        }
        let ghost before_p = payloads@;
        let ghost before_t = transforms@;
        let mut v = ps_new;
        let mut w = ts_new;
        payloads.append(&mut v);
        transforms.append(&mut w);
        proof {
            let pm = payload_models(ps_new@);
            assert(payload_models(payloads@) =~= done_p + pm);
            assert forall|j: int| 0 <= j < end implies payload_fits(#[trigger] payloads@[j], ds[j], ns[j] as nat) by {
                if j >= start {
                    assert(payloads@[j] == ps_new@[j - start]);
                }
            }
            let no = shift(offs_new, used + k1);
            assert forall|j: int| 0 <= j < end implies #[trigger] (done_o + no)[j] <= s.len() && port_matches(
                s.skip((done_o + no)[j] as int),
                ds[j].port_type,
                ds[j].component_type,
                ds[j].num_components as nat,
                transforms@[j],
            ) by {
                if j >= start {
                    let q = j - start;
                    assert(transforms@[j] == ts_new@[q]);
                    assert(ds.subrange(start as int, end as int)[q] == ds[j]);
                    assert(offs_new[q] <= cur2.len());
                    assert(cur2.skip(offs_new[q] as int) =~= s.skip((done_o + no)[j] as int));
                } else {
                    assert(transforms@[j] == before_t[j]);
                    assert((done_o + no)[j] == done_o[j]);
                }
            }
            match decoders_parse(reader.rest(), ns.skip(end as int), ds.skip(end as int), zs.skip(d + 1)) {
                Some(Ok((ps2, offs2, k3))) => {
                    assert(done_p + pm + ps2 =~= done_p + (pm + ps2));
                    assert((done_o + no) + shift(offs2, used + k1 + k2) =~= done_o + shift(
                        shift(offs_new, k1) + shift(offs2, k1 + k2),
                        used,
                    ));
                },
                _ => {},
            }
            done_p = done_p + pm;
            done_o = done_o + no;
            used = used + k1 + k2;
        }
        start = end;
        d = d + 1;
    }
    proof {
        assert(zs.skip(d as int) =~= Seq::<usize>::empty());
        assert(done_p + Seq::<PayloadModel>::empty() =~= done_p);
        assert(done_o + shift(Seq::<nat>::empty(), used) =~= done_o);
    }
    Ok((payloads, transforms))
}

} // verus!
