//! Edgebreaker connectivity decode.

pub mod reconstruct;
pub mod traversal;

use vstd::prelude::*;
use crate::connectivity::corner::INVALID;
use crate::error::{DecodeError, ReaderErr};
use crate::attribute::{leb_value, read_leb};
use crate::reader::Reader;
use std::collections::HashMap;
use reconstruct::{reconstruct, reconstructed, reconstruction_wf, all_below, invalid_or_below, Reconstruction, RecParams};
use traversal::{
    seams_decoded,
    contexts_parse, decode_topology_splits, full_mask, lemma_std_answers_short, opposite_wf, rabs_bits, rabs_records,
    splits_parse, standard_start_parse, std_answers, SeamStats, StandardTraversalDecoder, Symbol,
    TopologySplit, TraversalDecoder, ValenceTraversalDecoder,
};

verus! {

/// The traversal type id of the standard traversal.
pub const TRAVERSAL_STANDARD: u8 = 0;

/// The traversal type id of the valence traversal.
pub const TRAVERSAL_VALENCE: u8 = 2;

/// The decoded position connectivity plus what the attribute stages need.
pub struct EdgebreakerConnectivity {
    /// The opposite corner of each corner ([`INVALID`] on boundaries).
    pub opposite: Vec<usize>,
    /// The position vertex of each corner.
    pub corner_to_vertex: Vec<usize>,
    /// Left-most corner per vertex ([`INVALID`] for isolated vertices).
    pub vertex_corners: Vec<usize>,
    /// The number of position vertices.
    pub num_vertices: usize,
    /// The number of faces.
    pub num_faces: usize,
    /// The number of attribute connectivity streams.
    pub num_attribute_data: usize,
    /// Per vertex, whether the vertex lies on a boundary hole.
    pub is_vert_hole: Vec<bool>,
    /// The initial corner of each traversal component.
    pub init_corners: Vec<usize>,
    /// Packed seams, one byte per corner: bit `i` set when the edge opposite
    /// the corner is a seam of stream `i`.
    pub seam_bits: Vec<u8>,
    /// Seam statistics per stream.
    pub seam_stats: Vec<SeamStats>,
}

/// The consistency of decoded edgebreaker connectivity: a consistent corner
/// table over `num_faces` faces, one seam byte per corner in which a boundary
/// corner is a seam of every stream and the two corners of an interior edge
/// agree, and one statistics record per stream.
pub open spec fn connectivity_wf(c: EdgebreakerConnectivity) -> bool {
    &&& c.opposite@.len() == 3 * c.num_faces
    &&& c.corner_to_vertex@.len() == 3 * c.num_faces
    &&& opposite_wf(c.opposite@)
    &&& all_below(c.corner_to_vertex@, c.vertex_corners@.len())
    &&& invalid_or_below(c.vertex_corners@, (3 * c.num_faces) as nat)
    &&& c.num_vertices <= c.vertex_corners@.len()
    &&& all_below(c.init_corners@, (3 * c.num_faces) as nat)
    &&& c.num_attribute_data <= 8
    &&& c.seam_bits@.len() == 3 * c.num_faces
    &&& c.seam_stats@.len() == c.num_attribute_data
    &&& forall|k: int|
        0 <= k < 3 * c.num_faces ==> (c.opposite@[k] == INVALID ==> #[trigger] c.seam_bits@[k]
            == full_mask(c.num_attribute_data as nat)) && (c.opposite@[k] != INVALID ==> c.seam_bits@[k]
            == c.seam_bits@[c.opposite@[k] as int])
}

/// The corner vertices `c2v[..n]` renumbered in order of first appearance:
/// the new id of each corner's vertex, the table from old to new ids, and
/// how many distinct vertices were seen.
pub open spec fn first_seen(c2v: Seq<usize>, n: nat) -> (Seq<usize>, Map<usize, usize>, nat)
    decreases n,
{
    if n == 0 {
        (Seq::empty(), Map::empty(), 0)
    } else {
        let (ids, m, count) = first_seen(c2v, (n - 1) as nat);
        let v = c2v[n - 1];
        if m.contains_key(v) {
            (ids.push(m[v]), m, count)
        } else {
            (ids.push(count as usize), m.insert(v, count as usize), count + 1)
        }
    }
}

/// The renumbering gives every corner an id.
proof fn lemma_first_seen_len(c2v: Seq<usize>, n: nat)
    ensures
        first_seen(c2v, n).0.len() == n,
    decreases n,
{
    if n > 0 {
        lemma_first_seen_len(c2v, (n - 1) as nat);
    }
}

impl EdgebreakerConnectivity {
    /// The faces over the position vertices, renumbered densely in order of
    /// first appearance, with the number of vertices they use.
    pub fn position_faces(&self) -> (r: (Vec<[usize; 3]>, usize))
        requires
            self.corner_to_vertex@.len() == 3 * self.num_faces,
        ensures
            ({
                let (ids, _, count) = first_seen(self.corner_to_vertex@, (3 * self.num_faces) as nat);
                &&& r.0@.len() == self.num_faces
                &&& r.1 == count
                &&& forall|f: int|
                    0 <= f < self.num_faces ==> (#[trigger] r.0@[f])[0] == ids[3 * f] && r.0@[f][1] == ids[3 * f
                        + 1] && r.0@[f][2] == ids[3 * f + 2]
            }),
    {
        broadcast use vstd::std_specs::hash::group_hash_axioms;

        let n = self.corner_to_vertex.len();
        let mut remap: HashMap<usize, usize> = HashMap::new();
        let mut ids: Vec<usize> = Vec::new();
        let mut count: usize = 0;
        let mut c: usize = 0;
        while c < n
            invariant
                n == self.corner_to_vertex@.len(),
                c <= n,
                ({
                    let (sids, m, scount) = first_seen(self.corner_to_vertex@, c as nat);
                    &&& ids@ == sids
                    &&& remap@ == m
                    &&& count == scount
                }),
                count <= c,
            decreases n - c,
        {
            let v = self.corner_to_vertex[c];
            let id = match remap.get(&v) {
                Some(i) => *i,
                None => {
                    let i = count;
                    remap.insert(v, i);
                    count += 1;
                    i
                },
            };
            ids.push(id);
            c += 1;
        }
        proof {
            lemma_first_seen_len(self.corner_to_vertex@, n as nat);
        }
        let mut faces: Vec<[usize; 3]> = Vec::new();
        let mut f: usize = 0;
        while f < self.num_faces
            invariant
                n == 3 * self.num_faces,
                ids@.len() == n,
                f <= self.num_faces,
                faces@.len() == f,
                forall|g: int|
                    0 <= g < f ==> (#[trigger] faces@[g])[0] == ids@[3 * g] && faces@[g][1] == ids@[3 * g + 1]
                        && faces@[g][2] == ids@[3 * g + 2],
            decreases self.num_faces - f,
        {
            faces.push([ids[3 * f], ids[3 * f + 1], ids[3 * f + 2]]);
            f += 1;
        }
        (faces, count)
    }
}

/// The connectivity header counts.
struct Counts {
    num_encoded_vertices: usize,
    num_faces: usize,
    num_attribute_data: usize,
    num_encoded_symbols: usize,
    num_encoded_split_symbols: usize,
}

/// Reads a LEB128 number as a `usize` (truncated where `usize` is narrower
/// than 64 bits).
fn read_count(reader: &mut Reader<'_>) -> (r: Result<usize, DecodeError>)
    ensures
        match leb_value(old(reader).rest()) {
            Ok((v, n)) => r == Ok::<usize, DecodeError>((v as u64) as usize) && n <= old(reader).rest().len()
                && final(reader).rest() == old(reader).rest().skip(n as int),
            Err(e) => r == Err::<usize, DecodeError>(DecodeError::Reader(e)),
        },
{
    match read_leb(reader) {
        Ok(v) => Ok(#[verifier::truncate] (v as usize)),
        Err(e) => Err(e),
    }
}

/// A LEB128 count as the decoder holds it: truncated to `usize`.
pub open spec fn count_of(v: nat) -> nat {
    ((v as u64) as usize) as nat
}

/// The edgebreaker connectivity header at the start of `s`: the traversal
/// type byte, the LEB128 counts of encoded vertices and faces, the
/// attribute-data byte, and the LEB128 counts of symbols and split symbols;
/// with the bytes it spans.
pub open spec fn eb_header_parse(s: Seq<u8>) -> Result<(u8, nat, nat, nat, nat, nat, nat), DecodeError> {
    if s.len() < 1 {
        Err(DecodeError::Reader(ReaderErr::NotEnoughData))
    } else {
        match leb_value(s.skip(1)) {
            Err(e) => Err(DecodeError::Reader(e)),
            Ok((v1, n1)) => match leb_value(s.skip((1 + n1) as int)) {
                Err(e) => Err(DecodeError::Reader(e)),
                Ok((v2, n2)) => {
                    let p3 = 1 + n1 + n2;
                    if s.len() < p3 + 1 {
                        Err(DecodeError::Reader(ReaderErr::NotEnoughData))
                    } else {
                        match leb_value(s.skip((p3 + 1) as int)) {
                            Err(e) => Err(DecodeError::Reader(e)),
                            Ok((v3, n3)) => match leb_value(s.skip((p3 + 1 + n3) as int)) {
                                Err(e) => Err(DecodeError::Reader(e)),
                                Ok((v4, n4)) => Ok(
                                    (
                                        s[0],
                                        count_of(v1),
                                        count_of(v2),
                                        s[p3 as int] as nat,
                                        count_of(v3),
                                        count_of(v4),
                                        (p3 + 1 + n3 + n4) as nat,
                                    ),
                                ),
                            },
                        }
                    }
                },
            },
        }
    }
}

/// Whether `r` is what decoding edgebreaker connectivity from `s` gives up
/// to the symbol-driven reconstruction: the header's and the topology
/// splits' errors, the count limits, and the errors starting the traversal;
/// past those, whatever `r` is.
pub open spec fn eb_prelude_errors(s: Seq<u8>, r: Result<EdgebreakerConnectivity, DecodeError>) -> bool {
    match eb_header_parse(s) {
        Err(e) => r == Err::<EdgebreakerConnectivity, DecodeError>(e),
        Ok((t, nv, nf, nad, ns, nss, k)) => {
            let s1 = s.skip(k as int);
            if nad > 8 {
                r == Err::<EdgebreakerConnectivity, DecodeError>(DecodeError::Unimplemented)
            } else {
                match splits_parse(s1) {
                    Err(e) => r == Err::<EdgebreakerConnectivity, DecodeError>(e),
                    Ok((_, k2)) => {
                        let s2 = s1.skip(k2 as int);
                        if nv > usize::MAX / 16 || nss > usize::MAX / 16 {
                            r == Err::<EdgebreakerConnectivity, DecodeError>(
                                DecodeError::AllocationTooLarge("vertex count"),
                            )
                        } else if nf >= usize::MAX / 16 {
                            r == Err::<EdgebreakerConnectivity, DecodeError>(
                                DecodeError::AllocationTooLarge("face count"),
                            )
                        } else if t == TRAVERSAL_STANDARD {
                            standard_start_parse(s2, nad) matches Err(e) ==> r
                                == Err::<EdgebreakerConnectivity, DecodeError>(e)
                        } else if t == TRAVERSAL_VALENCE {
                            match rabs_records(s2, nad + 1) {
                                Err(e) => r == Err::<EdgebreakerConnectivity, DecodeError>(e),
                                Ok((_, k3)) => match contexts_parse(s2.skip(k3 as int), nf, 0) {
                                    None => r is Err,
                                    Some(Err(e)) => r == Err::<EdgebreakerConnectivity, DecodeError>(e),
                                    Some(Ok(_)) => true,
                                },
                            }
                        } else {
                            r == Err::<EdgebreakerConnectivity, DecodeError>(DecodeError::Unimplemented)
                        }
                    },
                }
            }
        },
    }
}

/// Whether `c`, with `rest` left unread, is a successful decode of the
/// connectivity at the start of `s`: the face and stream counts are the
/// header's, and the reader stops after the traversal's streams, at the
/// attribute section.
pub open spec fn eb_decoded(s: Seq<u8>, rest: Seq<u8>, c: EdgebreakerConnectivity) -> bool {
    match eb_header_parse(s) {
        Ok((t, nv, nf, nad, ns, nss, k)) => {
            &&& c.num_faces == nf
            &&& c.num_attribute_data == nad
            &&& match splits_parse(s.skip(k as int)) {
                Ok((_, k2)) => {
                    let s2 = s.skip(k as int).skip(k2 as int);
                    if t == TRAVERSAL_STANDARD {
                        standard_start_parse(s2, nad) matches Ok((_, _, k3)) && rest == s2.skip(k3 as int)
                    } else {
                        &&& t == TRAVERSAL_VALENCE
                        &&& rabs_records(s2, nad + 1) matches Ok((_, k3))
                        &&& contexts_parse(s2.skip(k3 as int), nf, 0) matches Some(Ok((_, k4)))
                        &&& rest == s2.skip((k3 + k4) as int)
                    }
                },
                Err(_) => false,
            }
        },
        Err(_) => false,
    }
}

/// Reads the connectivity header, as [`eb_header_parse`] describes.
fn read_header(reader: &mut Reader<'_>) -> (r: Result<(u8, Counts), DecodeError>)
    ensures
        match eb_header_parse(old(reader).rest()) {
            Err(e) => r == Err::<(u8, Counts), DecodeError>(e),
            Ok((t, nv, nf, nad, ns, nss, k)) => (r matches Ok((t2, c)) && t2 == t && c.num_encoded_vertices == nv
                && c.num_faces == nf && c.num_attribute_data == nad && c.num_encoded_symbols == ns
                && c.num_encoded_split_symbols == nss && k <= old(reader).rest().len() && final(reader).rest()
                == old(reader).rest().skip(k as int)),
        },
{
    let ghost s0 = reader.rest();
    let traversal_type = match reader.read_u8() {
        Ok(b) => b,
        Err(e) => return Err(DecodeError::Reader(e)),
    };
    let num_encoded_vertices = read_count(reader)?;
    let ghost n1 = leb_value(s0.skip(1))->Ok_0.1;
    proof {
        assert(s0.skip(1).skip(n1 as int) =~= s0.skip((1 + n1) as int));
    }
    let num_faces = read_count(reader)?;
    let ghost n2 = leb_value(s0.skip((1 + n1) as int))->Ok_0.1;
    let ghost p3 = 1 + n1 + n2;
    proof {
        assert(s0.skip((1 + n1) as int).skip(n2 as int) =~= s0.skip(p3 as int));
    }
    let num_attribute_data = match reader.read_u8() {
        Ok(b) => b as usize,
        Err(e) => return Err(DecodeError::Reader(e)),
    };
    proof {
        assert(s0.skip(p3 as int).skip(1) =~= s0.skip((p3 + 1) as int));
    }
    let num_encoded_symbols = read_count(reader)?;
    let ghost n3 = leb_value(s0.skip((p3 + 1) as int))->Ok_0.1;
    proof {
        assert(s0.skip((p3 + 1) as int).skip(n3 as int) =~= s0.skip((p3 + 1 + n3) as int));
    }
    let num_encoded_split_symbols = read_count(reader)?;
    let ghost n4 = leb_value(s0.skip((p3 + 1 + n3) as int))->Ok_0.1;
    let ghost k = p3 + 1 + n3 + n4;
    proof {
        assert(s0.skip((p3 + 1 + n3) as int).skip(n4 as int) =~= s0.skip(k as int));
        assert(eb_header_parse(s0) == Ok::<(u8, nat, nat, nat, nat, nat, nat), DecodeError>(
            (
                traversal_type,
                num_encoded_vertices as nat,
                num_faces as nat,
                num_attribute_data as nat,
                num_encoded_symbols as nat,
                num_encoded_split_symbols as nat,
                k,
            ),
        ));
    }
    Ok((traversal_type, Counts {
        num_encoded_vertices,
        num_faces,
        num_attribute_data,
        num_encoded_symbols,
        num_encoded_split_symbols,
    }))
}

/// The reconstruction a decoded connectivity holds.
pub open spec fn conn_view(r: Result<EdgebreakerConnectivity, DecodeError>) -> Result<Reconstruction, DecodeError> {
    match r {
        Ok(c) => Ok(
            Reconstruction {
                opposite: c.opposite,
                corner_to_vertex: c.corner_to_vertex,
                vertex_corners: c.vertex_corners,
                num_vertices: c.num_vertices,
                is_vert_hole: c.is_vert_hole,
                init_corners: c.init_corners,
            },
        ),
        Err(e) => Err(e),
    }
}

/// What a reconstruction over the given header counts is run with.
pub open spec fn eb_params(nv: nat, nf: nat, nad: nat, ns: nat, nss: nat) -> RecParams {
    RecParams {
        num_symbols: ns,
        num_corners: 3 * nf,
        max_vertices: nv + nss,
        collect_isolated: nad == 0,
        num_faces: nf,
    }
}

/// The seam-stream states a traversal of type `t` over `nad` attribute
/// connectivities starts with at `s`: the rabs records after the start-face
/// record (none where the streams do not parse).
pub open spec fn eb_seam_records(s: Seq<u8>, t: u8, nad: nat) -> Seq<(int, Seq<u8>, int)> {
    if t == TRAVERSAL_STANDARD {
        match standard_start_parse(s, nad) {
            Ok((_, rs, _)) => rs.drop_first(),
            Err(_) => Seq::empty(),
        }
    } else {
        match rabs_records(s, nad + 1) {
            Ok((rs, _)) => rs.drop_first(),
            Err(_) => Seq::empty(),
        }
    }
}

/// Whether the seams of a connectivity decoded from `s` are the ones its
/// seam streams give over its corner tables, as [`seams_decoded`] describes.
pub open spec fn eb_seams(s: Seq<u8>, r: Result<EdgebreakerConnectivity, DecodeError>) -> bool {
    r matches Ok(c) ==> match eb_header_parse(s) {
        Ok((t, nv, nf, nad, ns, nss, k)) => match splits_parse(s.skip(k as int)) {
            Ok((_, k2)) => seams_decoded(
                eb_seam_records(s.skip(k as int).skip(k2 as int), t, nad),
                c.opposite@,
                c.corner_to_vertex@,
                c.vertex_corners@.len(),
                (c.seam_bits, c.seam_stats),
            ),
            Err(_) => true,
        },
        Err(_) => true,
    }
}

/// Whether `r` is the reconstruction a standard traversal whose streams
/// start at `s` gives: the one that replays the standard answers of its
/// symbol bytes and the start-face bits of its first start-face record, as
/// [`reconstructed`] describes.
pub open spec fn standard_replayed(
    s: Seq<u8>,
    p: RecParams,
    nad: nat,
    splits: Seq<TopologySplit>,
    r: Result<EdgebreakerConnectivity, DecodeError>,
) -> bool {
    match standard_start_parse(s, nad) {
        Ok((bytes, rs, _)) => exists|n: nat, m: nat|
            #![trigger std_answers(bytes, n), rabs_bits(rs[0], m)]
            reconstructed(std_answers(bytes, n), rabs_bits(rs[0], m), p, splits, nad > 0, conn_view(r)),
        Err(_) => true,
    }
}

/// Whether `r` is what decoding standard-traversal connectivity from `s`
/// gives once its streams start: the reconstruction that replays the
/// standard answers of the symbol bytes and the start-face bits of the
/// first start-face record, as [`reconstructed`] describes.
pub open spec fn eb_standard_outcome(s: Seq<u8>, r: Result<EdgebreakerConnectivity, DecodeError>) -> bool {
    match eb_header_parse(s) {
        Ok((t, nv, nf, nad, ns, nss, k)) => match splits_parse(s.skip(k as int)) {
            Ok((splits, k2)) => (t == TRAVERSAL_STANDARD && nad <= 8 && nv <= usize::MAX / 16 && nss <= usize::MAX
                / 16 && nf < usize::MAX / 16) ==> standard_replayed(
                s.skip(k as int).skip(k2 as int),
                eb_params(nv, nf, nad, ns, nss),
                nad,
                splits,
                r,
            ),
            Err(_) => true,
        },
        Err(_) => true,
    }
}

/// Decodes edgebreaker connectivity, leaving the reader at the attribute
/// section. Streams whose corner or vertex counts overflow the address
/// space are rejected; a symbol whose face would lie past the last face
/// fails.
pub fn decode(reader: &mut Reader<'_>) -> (r: Result<EdgebreakerConnectivity, DecodeError>)
    ensures
        eb_prelude_errors(old(reader).rest(), r),
        r matches Ok(c) ==> connectivity_wf(c) && eb_decoded(old(reader).rest(), final(reader).rest(), c),
        eb_standard_outcome(old(reader).rest(), r),
        eb_seams(old(reader).rest(), r),
{
    let ghost s0 = reader.rest();
    let (traversal_type, counts) = read_header(reader)?;
    if counts.num_attribute_data > 8 {
        return Err(DecodeError::Unimplemented);
    }
    let ghost s1 = reader.rest();
    let splits = decode_topology_splits(reader)?;
    let ghost s2 = reader.rest();
    proof {
        let k2 = splits_parse(s1)->Ok_0.1;
        assert(s2 == s1.skip(k2 as int));
    }
    if counts.num_encoded_vertices > usize::MAX / 16 || counts.num_encoded_split_symbols > usize::MAX / 16 {
        return Err(DecodeError::AllocationTooLarge("vertex count"));
    }
    if counts.num_faces >= usize::MAX / 16 {
        return Err(DecodeError::AllocationTooLarge("face count"));
    }
    let max_num_vertices = counts.num_encoded_vertices + counts.num_encoded_split_symbols;
    if traversal_type == TRAVERSAL_STANDARD {
        let r = decode_standard(reader, &counts, splits);
        proof {
            let (t0, nv, nf, nad, ns, nss, k) = eb_header_parse(s0)->Ok_0;
            assert(eb_params(nv, nf, nad, ns, nss) == eb_params(
                counts.num_encoded_vertices as nat,
                counts.num_faces as nat,
                counts.num_attribute_data as nat,
                counts.num_encoded_symbols as nat,
                counts.num_encoded_split_symbols as nat,
            ));
        }
        r
    } else if traversal_type == TRAVERSAL_VALENCE {
        let mut traversal = ValenceTraversalDecoder::start(
            reader,
            counts.num_attribute_data,
            max_num_vertices,
            counts.num_faces,
        )?;
        decode_with(&mut traversal, &counts, splits)
    } else {
        Err(DecodeError::Unimplemented)
    }
}

/// Decodes standard-traversal connectivity: starts the traversal's streams
/// and reconstructs over them.
#[verifier::rlimit(40)]
fn decode_standard(reader: &mut Reader<'_>, counts: &Counts, splits: Vec<TopologySplit>) -> (r: Result<
    EdgebreakerConnectivity,
    DecodeError,
>)
    requires
        counts.num_attribute_data <= 8,
        counts.num_faces < usize::MAX / 16,
        counts.num_encoded_vertices <= usize::MAX / 16,
        counts.num_encoded_split_symbols <= usize::MAX / 16,
    ensures
        match standard_start_parse(old(reader).rest(), counts.num_attribute_data as nat) {
            Err(e) => r == Err::<EdgebreakerConnectivity, DecodeError>(e),
            Ok((_, _, k3)) => r matches Ok(c) ==> (connectivity_wf(c) && c.num_faces == counts.num_faces
                && c.num_attribute_data == counts.num_attribute_data && final(reader).rest() == old(reader).rest().skip(
                k3 as int,
            )),
        },
        standard_replayed(
            old(reader).rest(),
            eb_params(
                counts.num_encoded_vertices as nat,
                counts.num_faces as nat,
                counts.num_attribute_data as nat,
                counts.num_encoded_symbols as nat,
                counts.num_encoded_split_symbols as nat,
            ),
            counts.num_attribute_data as nat,
            splits@,
            r,
        ),
        r matches Ok(c) ==> seams_decoded(
            eb_seam_records(old(reader).rest(), TRAVERSAL_STANDARD, counts.num_attribute_data as nat),
            c.opposite@,
            c.corner_to_vertex@,
            c.vertex_corners@.len(),
            (c.seam_bits, c.seam_stats),
        ),
{
    let ghost s2 = reader.rest();
    let ghost splits_v = splits@;
    let mut traversal = StandardTraversalDecoder::start(reader, counts.num_attribute_data)?;
    let ghost origin0 = traversal.origin();
    let r = decode_with(&mut traversal, counts, splits);
    proof {
        traversal.lemma_answers();
        let log = traversal.symbol_log();
        let bits = traversal.config_log();
        let bytes = traversal.symbol_bytes();
        let a = std_answers(bytes, log.len());
        lemma_std_answers_short(bytes, log.len());
        assert(log.skip(0) =~= log);
        assert(bits.skip(0) =~= bits);
        if a.len() < log.len() {
            assert(a.last() == log[a.len() - 1]);
            assert(log.skip(0)[a.len() - 1] is Ok);
        }
        assert(log.take(a.len() as int) =~= log);
        let (bytes_s, rs_s, _) = standard_start_parse(s2, counts.num_attribute_data as nat)->Ok_0;
        assert(bytes_s == bytes);
        assert(rs_s[0] == traversal.first_face_state());
        assert(reconstructed(
            std_answers(bytes_s, log.len()),
            rabs_bits(rs_s[0], bits.len()),
            eb_params(
                counts.num_encoded_vertices as nat,
                counts.num_faces as nat,
                counts.num_attribute_data as nat,
                counts.num_encoded_symbols as nat,
                counts.num_encoded_split_symbols as nat,
            ),
            splits_v,
            counts.num_attribute_data > 0,
            conn_view(r),
        ));
    }
    r
}

/// Reconstructs the corner table and seams over one traversal variant.
fn decode_with<T: TraversalDecoder>(traversal: &mut T, counts: &Counts, splits: Vec<TopologySplit>) -> (r: Result<
    EdgebreakerConnectivity,
    DecodeError,
>)
    requires
        old(traversal).inv(),
        old(traversal).num_streams() == counts.num_attribute_data,
        old(traversal).symbol_log().len() == 0,
        old(traversal).config_log().len() == 0,
        counts.num_attribute_data <= 8,
        counts.num_faces < usize::MAX / 16,
        counts.num_encoded_vertices <= usize::MAX / 16,
        counts.num_encoded_split_symbols <= usize::MAX / 16,
        old(traversal).vertex_capacity() >= counts.num_encoded_vertices + counts.num_encoded_split_symbols,
    ensures
        final(traversal).inv(),
        final(traversal).origin() == old(traversal).origin(),
        r matches Ok(c) ==> seams_decoded(
            old(traversal).seam_states(),
            c.opposite@,
            c.corner_to_vertex@,
            c.vertex_corners@.len(),
            (c.seam_bits, c.seam_stats),
        ),
        r matches Ok(c) ==> connectivity_wf(c) && c.num_faces == counts.num_faces && c.num_attribute_data
            == counts.num_attribute_data,
        forall|j: int|
            0 <= j < final(traversal).symbol_log().len() - 1 ==> #[trigger] final(traversal).symbol_log().skip(0)[j] is Ok,
        reconstructed(
            final(traversal).symbol_log().skip(0),
            final(traversal).config_log().skip(0),
            eb_params(
                counts.num_encoded_vertices as nat,
                counts.num_faces as nat,
                counts.num_attribute_data as nat,
                counts.num_encoded_symbols as nat,
                counts.num_encoded_split_symbols as nat,
            ),
            splits@,
            counts.num_attribute_data > 0,
            conn_view(r),
        ),
{
    let recon = match reconstruct(
        traversal,
        counts.num_encoded_symbols,
        counts.num_encoded_vertices,
        counts.num_encoded_split_symbols,
        counts.num_faces,
        counts.num_attribute_data,
        splits,
    ) {
        Ok(rec) => rec,
        Err(e) => {
            return Err(e);
        },
    };
    let ghost rec_view = recon;
    let (seam_bits, seam_stats) = traversal.decode_attribute_seams(
        recon.opposite.as_slice(),
        counts.num_faces,
        recon.corner_to_vertex.as_slice(),
        recon.vertex_corners.len(),
    );
    Ok(EdgebreakerConnectivity {
        opposite: recon.opposite,
        corner_to_vertex: recon.corner_to_vertex,
        vertex_corners: recon.vertex_corners,
        num_vertices: recon.num_vertices,
        num_faces: counts.num_faces,
        num_attribute_data: counts.num_attribute_data,
        is_vert_hole: recon.is_vert_hole,
        init_corners: recon.init_corners,
        seam_bits,
        seam_stats,
    })
}

} // verus!
