//! Edgebreaker traversal decoding: the standard and valence variants, the
//! shared start-face and seam streams, and the topology-split stream.

use vstd::prelude::*;
use crate::entropy::{decode_symbols, symbols_parse};
use crate::error::{DecodeError, ReaderErr};
use crate::metadata::leb;
use crate::rans::{rabs_step, state_init, RabsDecoder, L_RANS_BASE};
use crate::attribute::prediction::{rabs_record, rabs_with_probability};
use crate::attribute::{leb_value, read_leb};
use crate::reader::{leb128_read, lemma_leb128_len, Reader, RevReader};
use crate::connectivity::corner::{next, next_spec, previous, prev_spec, INVALID, lemma_corner_cycle};

verus! {

/// The smallest valence context of the valence traversal.
pub const MIN_VALENCE: usize = 2;

/// The largest valence context of the valence traversal.
pub const MAX_VALENCE: usize = 7;

/// An edgebreaker symbol: how the next face attaches to the active boundary.
#[derive(Debug, Clone, Copy, PartialEq, Eq, Structural)]
pub enum Symbol {
    /// The face closes a corner of the boundary.
    C,
    /// The face splits the boundary in two.
    S,
    /// The face leaves its left edge on the boundary.
    L,
    /// The face leaves its right edge on the boundary.
    R,
    /// The face starts a new boundary loop.
    E,
}

/// Bit `i` of `bytes`, least significant bit of each byte first.
pub open spec fn bit_at(bytes: Seq<u8>, i: int) -> nat {
    ((bytes[i / 8] as nat) / vstd::arithmetic::power2::pow2((i % 8) as nat)) % 2
}

/// The `n` bits from bit `pos` on, the first as the lowest.
pub open spec fn bits_lsb(bytes: Seq<u8>, pos: int, n: nat) -> nat
    decreases n,
{
    if n == 0 {
        0
    } else {
        bits_lsb(bytes, pos, (n - 1) as nat) + bit_at(bytes, pos + n - 1) * vstd::arithmetic::power2::pow2((n - 1) as nat)
    }
}

/// LSB-first bit reader over a byte slice.
pub struct BitSource<'a> {
    bytes: &'a [u8],
    byte_pos: usize,
    bit_pos: u8,
}

impl<'a> BitSource<'a> {
    /// The bytes read from.
    pub closed spec fn bytes(&self) -> Seq<u8> {
        self.bytes@
    }

    /// The index of the next bit.
    pub closed spec fn pos(&self) -> int {
        self.byte_pos * 8 + self.bit_pos
    }

    /// The cursor stays within the bytes.
    pub closed spec fn wf(&self) -> bool {
        &&& self.bit_pos < 8
        &&& self.pos() <= self.bytes@.len() * 8
    }

    /// Starts at the first bit of `bytes`.
    pub fn new(bytes: &'a [u8]) -> (r: Self)
        ensures
            r.wf(),
            r.bytes() == bytes@,
            r.pos() == 0,
    {
        Self { bytes, byte_pos: 0, bit_pos: 0 }
    }

    /// Whether `k` more bits can be read.
    pub fn has_bits(&self, k: u8) -> (b: bool)
        requires
            self.wf(),
            k <= 8,
        ensures
            b <==> self.pos() + k <= self.bytes().len() * 8,
    {
        let whole = self.bytes.len() - self.byte_pos;
        let need = (k as usize + self.bit_pos as usize + 7) / 8;
        whole >= need
    }

    /// Reads one bit.
    pub fn read_bit(&mut self) -> (bit: u32)
        requires
            old(self).wf(),
            old(self).pos() < old(self).bytes().len() * 8,
        ensures
            final(self).wf(),
            final(self).bytes() == old(self).bytes(),
            final(self).pos() == old(self).pos() + 1,
            bit == bit_at(old(self).bytes(), old(self).pos()),
    {
        let byte = self.bytes[self.byte_pos];
        let w = byte >> self.bit_pos;
        let bit = w & 1;
        proof {
            vstd::bits::lemma_u8_shr_is_div(byte, self.bit_pos);
            assert(w & 1 == w % 2) by (bit_vector);
            assert(self.pos() / 8 == self.byte_pos);
            assert(self.pos() % 8 == self.bit_pos);
        }
        self.bit_pos = self.bit_pos + 1;
        if self.bit_pos == 8 {
            self.bit_pos = 0;
            self.byte_pos = self.byte_pos + 1;
        }
        bit as u32
    }

    /// Reads `n` bits, the first as the lowest.
    pub fn read_bits(&mut self, n: u8) -> (value: u32)
        requires
            old(self).wf(),
            n <= 31,
            old(self).pos() + n <= old(self).bytes().len() * 8,
        ensures
            final(self).wf(),
            final(self).bytes() == old(self).bytes(),
            final(self).pos() == old(self).pos() + n,
            value == bits_lsb(old(self).bytes(), old(self).pos(), n as nat),
    {
        let mut value: u64 = 0;
        let mut pw: u64 = 1;
        let mut i: u8 = 0;
        proof {
            vstd::arithmetic::power2::lemma2_to64();
        }
        while i < n
            invariant
                i <= n <= 31,
                self.wf(),
                self.bytes() == old(self).bytes(),
                self.pos() == old(self).pos() + i,
                old(self).pos() + n <= old(self).bytes().len() * 8,
                value == bits_lsb(old(self).bytes(), old(self).pos(), i as nat),
                pw == vstd::arithmetic::power2::pow2(i as nat),
                pw <= 0x8000_0000,
                i < 31 ==> pw <= 0x4000_0000,
                value < pw,
            decreases n - i,
        {
            let b = self.read_bit();
            proof {
                vstd::arithmetic::power2::lemma_pow2_unfold((i + 1) as nat);
                vstd::arithmetic::power2::lemma_pow2_strictly_increases(i as nat, 31);
                vstd::arithmetic::power2::lemma2_to64();
                assert(b <= 1);
            }
            let ghost v0 = value;
            if b == 1 {
                value = value + pw;
            }
            proof {
                let ip = (i + 1) as nat;
                assert(b == 0 || b == 1);
                if b == 1 {
                    assert(b * pw == pw) by (nonlinear_arith)
                        requires
                            b == 1,
                    ;
                } else {
                    assert(b * pw == 0) by (nonlinear_arith)
                        requires
                            b == 0,
                    ;
                }
                assert(bits_lsb(old(self).bytes(), old(self).pos(), ip) == bits_lsb(
                    old(self).bytes(),
                    old(self).pos(),
                    i as nat,
                ) + bit_at(old(self).bytes(), old(self).pos() + i) * vstd::arithmetic::power2::pow2(
                    i as nat,
                ));
                assert(value == bits_lsb(old(self).bytes(), old(self).pos(), ip));
            }
            pw = pw * 2;
            i = i + 1;
            proof {
                if i <= 31 {
                    vstd::arithmetic::power2::lemma_pow2_unfold(i as nat);
                }
            }
        }
        value as u32
    }
}

/// A topology-split event in encoder-symbol-id terms.
#[derive(Debug, Clone, Copy)]
pub struct TopologySplit {
    /// The symbol that opens the split.
    pub source_symbol_id: usize,
    /// The symbol that closes it.
    pub split_symbol_id: usize,
    /// Whether the split leaves from the right edge.
    pub source_edge_right: bool,
}

/// Skipping `a` then `b` bytes is skipping `a + b` bytes.
proof fn lemma_skip_skip(s: Seq<u8>, a: int, b: int)
    requires
        0 <= a,
        0 <= b,
        a + b <= s.len(),
    ensures
        s.skip(a).skip(b) == s.skip(a + b),
{
    assert(s.skip(a).skip(b) =~= s.skip(a + b));
}

/// `n` delta-coded (source, split) id pairs at the start of `s`, the
/// sources accumulating from `last`: each pair is a LEB128 source delta and
/// a LEB128 distance back to the split symbol; or the error reading them
/// gives. A source id past `usize` or a distance past its source is
/// refused.
pub open spec fn split_pairs(s: Seq<u8>, n: nat, last: nat) -> Result<(Seq<(usize, usize)>, nat), DecodeError>
    decreases n,
{
    if n == 0 {
        Ok((Seq::empty(), 0))
    } else {
        match leb_value(s) {
            Ok((x, a)) => match leb_value(s.skip(a as int)) {
                Ok((d, b)) => {
                    let src = (x as usize) + last;
                    if src > usize::MAX {
                        Err(DecodeError::MalformedConnectivity("split id out of range"))
                    } else if (d as usize) > src {
                        Err(DecodeError::MalformedConnectivity("split id delta out of range"))
                    } else {
                        match split_pairs(s.skip((a + b) as int), (n - 1) as nat, src as nat) {
                            Ok((ps, c)) => Ok((seq![(src as usize, (src - (d as usize)) as usize)] + ps, a + b + c)),
                            Err(e) => Err(e),
                        }
                    }
                },
                Err(e) => Err(DecodeError::Reader(e)),
            },
            Err(e) => Err(DecodeError::Reader(e)),
        }
    }
}

/// A parse of `n` id pairs holds `n` pairs.
proof fn lemma_split_pairs_len(s: Seq<u8>, n: nat, last: nat)
    ensures
        split_pairs(s, n, last) matches Ok((ps, c)) ==> ps.len() == n,
    decreases n,
{
    if n > 0 {
        if let Ok((x, a)) = leb_value(s) {
            if let Ok((d, b)) = leb_value(s.skip(a as int)) {
                let src = (x as usize) + last;
                if !(src > usize::MAX || (d as usize) > src) {
                    lemma_split_pairs_len(s.skip((a + b) as int), (n - 1) as nat, src as nat);
                }
            }
        }
    }
}

/// The splits built from id pairs and the edge bits that follow them.
pub open spec fn splits_of(pairs: Seq<(usize, usize)>, edge_bytes: Seq<u8>) -> Seq<TopologySplit> {
    Seq::new(
        pairs.len(),
        |j: int|
            TopologySplit {
                source_symbol_id: pairs[j].0,
                split_symbol_id: pairs[j].1,
                source_edge_right: bit_at(edge_bytes, j) == 1,
            },
    )
}

/// The topology-split stream at the start of `s`: a LEB128 count, the id
/// pairs, then one edge bit per split packed LSB-first into whole bytes;
/// or the error reading it gives.
pub open spec fn splits_parse(s: Seq<u8>) -> Result<(Seq<TopologySplit>, nat), DecodeError> {
    match leb_value(s) {
        Ok((n, a)) => match split_pairs(s.skip(a as int), (n as usize) as nat, 0) {
            Ok((pairs, b)) => {
                let nb = ((n as usize) as nat + 7) / 8;
                if (n as usize) == 0 {
                    Ok((Seq::empty(), a + b))
                } else if s.len() < a + b + nb {
                    Err(DecodeError::Reader(ReaderErr::NotEnoughData))
                } else {
                    Ok((splits_of(pairs, s.subrange((a + b) as int, (a + b + nb) as int)), a + b + nb))
                }
            },
            Err(e) => Err(e),
        },
        Err(e) => Err(DecodeError::Reader(e)),
    }
}

/// Reads `n` delta-coded id pairs.
fn read_split_pairs(reader: &mut Reader<'_>, n: usize) -> (r: Result<Vec<(usize, usize)>, DecodeError>)
    ensures
        match split_pairs(old(reader).rest(), n as nat, 0) {
            Ok((ps, c)) => r matches Ok(v) && v@ == ps && c <= old(reader).rest().len()
                && final(reader).rest() == old(reader).rest().skip(c as int),
            Err(e) => r == Err::<Vec<(usize, usize)>, DecodeError>(e),
        },
{
    let ghost s0 = reader.rest();
    let ghost mut pos: int = 0;
    let mut out: Vec<(usize, usize)> = Vec::new();
    let mut last_source: usize = 0;
    let mut i: usize = 0;
    proof {
        assert(s0.skip(0) == s0);
    }
    while i < n
        invariant
            i <= n,
            s0 == old(reader).rest(),
            0 <= pos <= s0.len(),
            reader.rest() == s0.skip(pos),
            split_pairs(s0, n as nat, 0) == match split_pairs(reader.rest(), (n - i) as nat, last_source as nat) {
                Ok((ps, c)) => Ok((out@ + ps, (pos + c) as nat)),
                Err(e) => Err::<(Seq<(usize, usize)>, nat), DecodeError>(e),
            },
        decreases n - i,
    {
        let ghost cur = reader.rest();
        proof {
            lemma_leb128_len(cur);
        }
        let x = match read_leb(reader) {
            Ok(v) => #[verifier::truncate] (v as usize),
            Err(e) => return Err(e),
        };
        let ghost mid = reader.rest();
        proof {
            lemma_leb128_len(mid);
        }
        let d = match read_leb(reader) {
            Ok(v) => #[verifier::truncate] (v as usize),
            Err(e) => return Err(e),
        };
        proof {
            lemma_leb128_len(mid);
            let a = cur.len() - mid.len();
            let b = mid.len() - reader.rest().len();
            lemma_skip_skip(cur, a, b);
            lemma_skip_skip(s0, pos, a + b);
            pos = pos + a + b;
        }
        if x > usize::MAX - last_source {
            return Err(DecodeError::MalformedConnectivity("split id out of range"));
        }
        let source_symbol_id = x + last_source;
        if d > source_symbol_id {
            return Err(DecodeError::MalformedConnectivity("split id delta out of range"));
        }
        let split_symbol_id = source_symbol_id - d;
        last_source = source_symbol_id;
        let ghost before = out@;
        out.push((source_symbol_id, split_symbol_id));
        proof {
            if let Ok((ps, c)) = split_pairs(reader.rest(), (n - i - 1) as nat, last_source as nat) {
                assert(before + (seq![(source_symbol_id, split_symbol_id)] + ps) =~= out@ + ps);
            }
        }
        i += 1;
    }
    proof {
        assert(out@ + Seq::<(usize, usize)>::empty() =~= out@);
    }
    Ok(out)
}

/// Decodes the topology-split stream: LEB128 count, delta-coded id pairs,
/// one edge bit per split.
pub fn decode_topology_splits(reader: &mut Reader<'_>) -> (r: Result<Vec<TopologySplit>, DecodeError>)
    ensures
        match splits_parse(old(reader).rest()) {
            Ok((v, k)) => r matches Ok(out) && out@ == v && k <= old(reader).rest().len()
                && final(reader).rest() == old(reader).rest().skip(k as int),
            Err(e) => r == Err::<Vec<TopologySplit>, DecodeError>(e),
        },
{
    let ghost s0 = reader.rest();
    proof {
        lemma_leb128_len(s0);
    }
    let num_splits = match read_leb(reader) {
        Ok(v) => #[verifier::truncate] (v as usize),
        Err(e) => return Err(e),
    };
    let ghost s1 = reader.rest();
    let pairs = read_split_pairs(reader, num_splits)?;
    let ghost s2 = reader.rest();
    proof {
        lemma_split_pairs_len(s1, num_splits as nat, 0);
        lemma_skip_skip(s0, s0.len() - s1.len(), s1.len() - s2.len());
    }
    let mut splits: Vec<TopologySplit> = Vec::new();
    if num_splits == 0 {
        return Ok(splits);
    }
    let nb = num_splits / 8 + if num_splits % 8 == 0 { 0 } else { 1 };
    let edge_bytes = match reader.read_bytes(nb) {
        Ok(b) => b,
        Err(e) => return Err(DecodeError::Reader(e)),
    };
    let mut bits = BitSource::new(edge_bytes);
    let mut j: usize = 0;
    while j < num_splits
        invariant
            j <= num_splits,
            pairs@.len() == num_splits,
            nb * 8 >= num_splits,
            edge_bytes@.len() == nb,
            bits.wf(),
            bits.bytes() == edge_bytes@,
            bits.pos() == j,
            splits@ == splits_of(pairs@, edge_bytes@).take(j as int),
        decreases num_splits - j,
    {
        let b = bits.read_bit();
        let (source_symbol_id, split_symbol_id) = pairs[j];
        splits.push(TopologySplit { source_symbol_id, split_symbol_id, source_edge_right: b & 1 == 1 });
        proof {
            assert(b & 1 == b) by (bit_vector)
                requires
                    b <= 1,
            ;
            assert(splits@ =~= splits_of(pairs@, edge_bytes@).take(j + 1));
        }
        j += 1;
    }
    proof {
        assert(splits@ =~= splits_of(pairs@, edge_bytes@));
        lemma_skip_skip(s0, s0.len() - s2.len(), nb as int);
    }
    Ok(splits)
}

/// The state of a rabs decoder: its coder state, the renormalization bytes
/// left and its zero-bit probability.
pub open spec fn rabs_view(d: RabsDecoder<'_>) -> (int, Seq<u8>, int) {
    (d.state(), d.rest(), d.prob_zero())
}

/// `count` rabs records (a probability byte, then a `[LEB128 length |
/// bytes]` sub-stream) one after another at the start of `s`: the decoder
/// state each starts with, and the bytes they span.
pub open spec fn rabs_records(s: Seq<u8>, count: nat) -> Result<(Seq<(int, Seq<u8>, int)>, nat), DecodeError>
    decreases count,
{
    if count == 0 {
        Ok((Seq::empty(), 0))
    } else {
        match rabs_record(s) {
            Err(e) => Err(e),
            Ok((st, rest, p0, k)) => match rabs_records(s.skip(k as int), (count - 1) as nat) {
                Err(e) => Err(e),
                Ok((rs, k2)) => Ok((seq![(st, rest, p0)] + rs, k + k2)),
            },
        }
    }
}

/// A rabs decoder over a `[prob_zero | LEB128 length | bytes]` sub-stream.
fn start_rabs<'a>(reader: &mut Reader<'a>) -> (r: Result<RabsDecoder<'a>, DecodeError>)
    ensures
        match rabs_record(old(reader).rest()) {
            Err(e) => r == Err::<RabsDecoder<'a>, DecodeError>(e),
            Ok((st, rest, p0, k)) => (r matches Ok(d) && d.wf() && rabs_view(d) == (st, rest, p0)
                && k <= old(reader).rest().len() && final(reader).rest() == old(reader).rest().skip(k as int)),
        },
{
    rabs_with_probability(reader)
}

/// Per-stream seam statistics gathered during the seam scan.
#[derive(Debug, Clone, Copy)]
pub struct SeamStats {
    /// Whether any interior edge is a seam.
    pub has_interior: bool,
    /// Marked corners; each is the left seam of one sector-start corner.
    pub starts: usize,
    /// Position vertices with at least one sector start in their fan.
    pub fans_with_starts: usize,
}

/// The rabs streams shared by both traversal variants.
pub struct SharedStreams<'a> {
    start_face: RabsDecoder<'a>,
    seams: Vec<RabsDecoder<'a>>,
}

/// Whether `opp` is a consistent opposite-corner table: each entry is
/// [`INVALID`] or another corner whose entry points back.
pub open spec fn opposite_wf(opp: Seq<usize>) -> bool {
    forall|c: int|
        0 <= c < opp.len() ==> (#[trigger] opp[c] == INVALID || (opp[c] < opp.len() && opp[opp[c] as int] == c
            && opp[c] != c))
}

/// The seam byte of a boundary corner: every stream's bit set.
pub open spec fn full_mask(k: nat) -> u8 {
    (vstd::arithmetic::power2::pow2(k) - 1) as u8
}

/// What the seam scan has built so far: the seam byte of each corner, the
/// state of each seam stream, and per stream the number of marked corners,
/// which (stream, vertex) pairs have a sector start, the number of vertices
/// with one, and the number of boundary corners.
#[verifier::ext_equal]
pub struct SeamModel {
    pub bits: Seq<u8>,
    pub states: Seq<(int, Seq<u8>, int)>,
    pub marks: Seq<usize>,
    pub has_start: Seq<bool>,
    pub fans: Seq<usize>,
    pub boundary: nat,
}

/// A sector start of stream `i` at corner `c`: one more marked corner, and
/// the vertex before `c` becomes a start vertex of the stream (counted the
/// first time).
pub open spec fn seam_start(m: SeamModel, i: int, c: int, c2v: Seq<usize>, nv: nat) -> SeamModel {
    let slot = i * nv + c2v[prev_spec(c)];
    SeamModel {
        marks: m.marks.update(i, (m.marks[i] + 1) as usize),
        has_start: m.has_start.update(slot, true),
        fans: if m.has_start[slot] || m.fans[i] >= usize::MAX {
            m.fans
        } else {
            m.fans.update(i, (m.fans[i] + 1) as usize)
        },
        ..m
    }
}

/// Corner `c` marked as a seam of stream `i`.
pub open spec fn seam_mark(m: SeamModel, i: int, c: int, c2v: Seq<usize>, nv: nat) -> SeamModel {
    seam_start(SeamModel { bits: m.bits.update(c, m.bits[c] | (1u8 << (i as u8))), ..m }, i, c, c2v, nv)
}

/// Streams `0..i` at corner `c`: a boundary corner is a sector start of
/// every stream; otherwise each stream reads one bit, and a set bit marks
/// `c` and its opposite corner.
pub open spec fn seam_corner(m: SeamModel, opp: Seq<usize>, c2v: Seq<usize>, nv: nat, c: int, i: nat) -> SeamModel
    decreases i,
{
    if i == 0 {
        m
    } else {
        let m0 = seam_corner(m, opp, c2v, nv, c, (i - 1) as nat);
        let j = i - 1;
        if opp[c] == INVALID {
            seam_start(m0, j, c, c2v, nv)
        } else {
            let st = m0.states[j];
            let (b, x, rest) = rabs_step(st.0, st.1, st.2);
            let m1 = SeamModel { states: m0.states.update(j, (x, rest, st.2)), ..m0 };
            if b {
                seam_mark(seam_mark(m1, j, c, c2v, nv), j, opp[c] as int, c2v, nv)
            } else {
                m1
            }
        }
    }
}

/// The seam scan over corners `0..c` in id order, with `k` streams: a
/// boundary corner gets every stream's bit; an interior edge is read once,
/// at its corner in the lower-id face (at both corners where they share a
/// face).
pub open spec fn seam_scan(m0: SeamModel, opp: Seq<usize>, c2v: Seq<usize>, nv: nat, k: nat, c: nat) -> SeamModel
    decreases c,
{
    if c == 0 {
        m0
    } else {
        let m = seam_scan(m0, opp, c2v, nv, k, (c - 1) as nat);
        let d = c - 1;
        if opp[d] == INVALID {
            seam_corner(
                SeamModel { bits: m.bits.update(d, full_mask(k)), boundary: m.boundary + 1, ..m },
                opp,
                c2v,
                nv,
                d,
                k,
            )
        } else if opp[d] as int / 3 >= d / 3 {
            seam_corner(m, opp, c2v, nv, d, k)
        } else {
            m
        }
    }
}

/// The scan's start: no seam bits, the streams' given states, no marks.
pub open spec fn seam_init(states: Seq<(int, Seq<u8>, int)>, nc: nat, nv: nat) -> SeamModel {
    SeamModel {
        bits: Seq::new(nc, |c: int| 0u8),
        states,
        marks: Seq::new(states.len(), |i: int| 0usize),
        has_start: Seq::new(states.len() * nv, |j: int| false),
        fans: Seq::new(states.len(), |i: int| 0usize),
        boundary: 0,
    }
}

/// The seams a full scan of `3 * num_faces` corners over the seam streams
/// in `states` gives: the seam bytes, and per stream whether any interior
/// edge is a seam (more marks than boundary corners), the marked corners
/// and the vertices with a sector start.
pub open spec fn seams_decoded(
    states: Seq<(int, Seq<u8>, int)>,
    opp: Seq<usize>,
    c2v: Seq<usize>,
    nv: nat,
    r: (Vec<u8>, Vec<SeamStats>),
) -> bool {
    let m = seam_scan(seam_init(states, opp.len(), nv), opp, c2v, nv, states.len(), opp.len());
    &&& r.0@ == m.bits
    &&& r.1@.len() == states.len()
    &&& forall|i: int|
        0 <= i < states.len() ==> (#[trigger] r.1@[i]).has_interior == (m.marks[i] > m.boundary) && r.1@[i].starts
            == m.marks[i] && r.1@[i].fans_with_starts == m.fans[i]
}

/// The seam-marking state of the scan: packed per-corner flags plus the
/// running statistics.
struct SeamAcc {
    seam_bits: Vec<u8>,
    starts: Vec<usize>,
    fans_with_starts: Vec<usize>,
    marks: Vec<usize>,
    has_start: Vec<bool>,
    num_vertices: usize,
}

impl SeamAcc {
    /// The shapes of the accumulator for `k` streams.
    spec fn wf(&self, k: nat, num_corners: nat) -> bool {
        &&& self.seam_bits@.len() == num_corners
        &&& self.starts@.len() == k
        &&& self.fans_with_starts@.len() == k
        &&& self.marks@.len() == k
        &&& self.has_start@.len() == k * self.num_vertices
        &&& self.starts@ == self.marks@
    }

    /// The accumulator as a seam model, with the stream states of `decs`.
    spec fn model(&self, decs: Seq<RabsDecoder<'_>>, boundary: nat) -> SeamModel {
        SeamModel {
            bits: self.seam_bits@,
            states: Seq::new(decs.len(), |i: int| rabs_view(decs[i])),
            marks: self.marks@,
            has_start: self.has_start@,
            fans: self.fans_with_starts@,
            boundary,
        }
    }

    fn new(num_streams: usize, num_corners: usize, num_vertices: usize) -> (r: Self)
        requires
            num_streams * num_vertices <= usize::MAX,
        ensures
            r.wf(num_streams as nat, num_corners as nat),
            r.num_vertices == num_vertices,
            forall|c: int| 0 <= c < num_corners ==> r.seam_bits@[c] == 0,
            forall|i: int| 0 <= i < num_streams ==> r.marks@[i] == 0,
            r.seam_bits@ == Seq::new(num_corners as nat, |c: int| 0u8),
            r.marks@ == Seq::new(num_streams as nat, |i: int| 0usize),
            r.fans_with_starts@ == Seq::new(num_streams as nat, |i: int| 0usize),
            r.has_start@ == Seq::new((num_streams * num_vertices) as nat, |j: int| false),
    {
        let mut seam_bits: Vec<u8> = Vec::new();
        let mut c: usize = 0;
        while c < num_corners
            invariant
                c <= num_corners,
                seam_bits@.len() == c,
                forall|j: int| 0 <= j < c ==> seam_bits@[j] == 0,
            decreases num_corners - c,
        {
            seam_bits.push(0);
            c += 1;
        }
        let mut starts: Vec<usize> = Vec::new();
        let mut fans: Vec<usize> = Vec::new();
        let mut marks: Vec<usize> = Vec::new();
        let mut i: usize = 0;
        while i < num_streams
            invariant
                i <= num_streams,
                starts@.len() == i,
                fans@.len() == i,
                marks@.len() == i,
                forall|j: int| 0 <= j < i ==> starts@[j] == 0 && marks@[j] == 0 && fans@[j] == 0,
            decreases num_streams - i,
        {
            starts.push(0);
            fans.push(0);
            marks.push(0);
            i += 1;
        }
        let total = num_streams * num_vertices;
        let mut has_start: Vec<bool> = Vec::new();
        let mut j: usize = 0;
        while j < total
            invariant
                j <= total,
                has_start@.len() == j,
                forall|q: int| 0 <= q < j ==> has_start@[q] == false,
            decreases total - j,
        {
            has_start.push(false);
            j += 1;
        }
        let r = SeamAcc { seam_bits, starts, fans_with_starts: fans, marks, has_start, num_vertices };
        proof {
            assert(r.seam_bits@ =~= Seq::new(num_corners as nat, |c: int| 0u8));
            assert(r.marks@ =~= Seq::new(num_streams as nat, |i: int| 0usize));
            assert(r.starts@ =~= r.marks@);
            assert(r.fans_with_starts@ =~= Seq::new(num_streams as nat, |i: int| 0usize));
            assert(r.has_start@ =~= Seq::new((num_streams * num_vertices) as nat, |j: int| false));
        }
        r
    }

    /// Counts the sector start of a seam mark at corner `c` for stream `i`.
    fn count_start(&mut self, i: usize, c: usize, c2v: &[usize], k: Ghost<nat>, nc: Ghost<nat>)
        requires
            old(self).wf(k@, nc@),
            i < k@,
            c < c2v@.len(),
            c < INVALID - 2,
            prev_spec(c as int) < c2v@.len(),
            c2v@[prev_spec(c as int)] < old(self).num_vertices,
            old(self).marks@[i as int] < usize::MAX,
        ensures
            final(self).wf(k@, nc@),
            final(self).seam_bits@ == old(self).seam_bits@,
            final(self).num_vertices == old(self).num_vertices,
            final(self).marks@ == old(self).marks@.update(i as int, (old(self).marks@[i as int] + 1) as usize),
            ({
                let slot = i * old(self).num_vertices + c2v@[prev_spec(c as int)];
                &&& final(self).has_start@ == old(self).has_start@.update(slot, true)
                &&& final(self).fans_with_starts@ == if old(self).has_start@[slot] || old(self).fans_with_starts@[i as int]
                    >= usize::MAX {
                    old(self).fans_with_starts@
                } else {
                    old(self).fans_with_starts@.update(i as int, (old(self).fans_with_starts@[i as int] + 1) as usize)
                }
            }),
    {
        self.starts.set(i, self.starts[i] + 1);
        self.marks.set(i, self.marks[i] + 1);
        let v = c2v[previous(c)];
        let hs_len = self.has_start.len();
        proof {
            assert(i * self.num_vertices + v < k@ * self.num_vertices) by (nonlinear_arith)
                requires
                    i < k@,
                    v < self.num_vertices,
            ;
            assert(i * self.num_vertices <= i * self.num_vertices + v);
        }
        let slot = i * self.num_vertices + v;
        if !self.has_start[slot] {
            self.has_start.set(slot, true);
            if self.fans_with_starts[i] < usize::MAX {
                self.fans_with_starts.set(i, self.fans_with_starts[i] + 1);
            }
        }
    }

    /// Turns the counters into per-stream statistics.
    fn finish(self, num_boundary_corners: usize, k: Ghost<nat>, nc: Ghost<nat>) -> (r: (Vec<u8>, Vec<SeamStats>))
        requires
            self.wf(k@, nc@),
        ensures
            r.0@ == self.seam_bits@,
            r.1@.len() == k@,
            forall|i: int| 0 <= i < k@ ==> (#[trigger] r.1@[i]).has_interior == (self.marks@[i] > num_boundary_corners)
                && r.1@[i].starts == self.marks@[i] && r.1@[i].fans_with_starts == self.fans_with_starts@[i],
    {
        let mut stats: Vec<SeamStats> = Vec::new();
        let mut i: usize = 0;
        while i < self.marks.len()
            invariant
                i <= self.marks@.len(),
                self.wf(k@, nc@),
                stats@.len() == i,
                forall|j: int| 0 <= j < i ==> (#[trigger] stats@[j]).has_interior == (self.marks@[j] > num_boundary_corners)
                    && stats@[j].starts == self.marks@[j] && stats@[j].fans_with_starts == self.fans_with_starts@[j],
            decreases self.marks.len() - i,
        {
            stats.push(SeamStats {
                has_interior: self.marks[i] > num_boundary_corners,
                starts: self.starts[i],
                fans_with_starts: self.fans_with_starts[i],
            });
            i += 1;
        }
        (self.seam_bits, stats)
    }
}

/// Every decoder in `decs` is consistent.
pub open spec fn all_wf(decs: Seq<RabsDecoder<'_>>) -> bool {
    forall|i: int| 0 <= i < decs.len() ==> (#[trigger] decs[i]).wf()
}

/// Marks stream `i`'s seam at `c` and counts its sector start.
fn mark(acc: &mut SeamAcc, i: usize, c: usize, c2v: &[usize], k: Ghost<nat>, nc: Ghost<nat>)
    requires
        old(acc).wf(k@, nc@),
        i < k@ <= 8,
        c < nc@,
        nc@ == c2v@.len(),
        nc@ % 3 == 0,
        nc@ < INVALID - 2,
        forall|d: int| 0 <= d < c2v@.len() ==> #[trigger] c2v@[d] < old(acc).num_vertices,
        old(acc).marks@[i as int] < usize::MAX,
    ensures
        final(acc).wf(k@, nc@),
        final(acc).num_vertices == old(acc).num_vertices,
        final(acc).seam_bits@ == old(acc).seam_bits@.update(c as int, old(acc).seam_bits@[c as int] | (1u8 << i)),
        final(acc).marks@ == old(acc).marks@.update(i as int, (old(acc).marks@[i as int] + 1) as usize),
        forall|d: Seq<RabsDecoder<'_>>, b: nat|
            #[trigger] final(acc).model(d, b) == seam_mark(old(acc).model(d, b), i as int, c as int, c2v@, old(acc).num_vertices as nat),
{
    let b = acc.seam_bits[c] | (1u8 << i as u8);
    acc.seam_bits.set(c, b);
    proof {
        lemma_corner_cycle(c as int);
        assert(prev_spec(c as int) / 3 == (c as int) / 3);
        assert(prev_spec(c as int) < nc@) by {
            assert((c as int) / 3 < nc@ / 3);
        }
    }
    acc.count_start(i, c, c2v, k, nc);
}

/// Decodes the seam edges over the final corner table, faces in id order: a
/// boundary edge is an automatic seam of every stream with no bit read; an
/// interior edge reads one bit per stream, once from its lower-id face, and a
/// set bit marks both of its corners. Returns the boundary corner count.
fn decode_seams(
    decs: &mut Vec<RabsDecoder<'_>>,
    opposite: &[usize],
    num_faces: usize,
    c2v: &[usize],
    acc: &mut SeamAcc,
) -> (num_boundary: usize)
    requires
        all_wf(old(decs)@),
        old(decs)@.len() <= 8,
        opposite@.len() == 3 * num_faces,
        c2v@.len() == 3 * num_faces,
        3 * num_faces < usize::MAX / 4,
        opposite_wf(opposite@),
        forall|d: int| 0 <= d < c2v@.len() ==> #[trigger] c2v@[d] < old(acc).num_vertices,
        old(acc).wf(old(decs)@.len() as nat, (3 * num_faces) as nat),
        forall|c: int| 0 <= c < 3 * num_faces ==> old(acc).seam_bits@[c] == 0,
        forall|i: int| 0 <= i < old(decs)@.len() ==> old(acc).marks@[i] == 0,
    ensures
        all_wf(final(decs)@),
        final(decs)@.len() == old(decs)@.len(),
        final(acc).wf(old(decs)@.len() as nat, (3 * num_faces) as nat),
        forall|c: int|
            0 <= c < 3 * num_faces ==> (opposite@[c] == INVALID ==> #[trigger] final(acc).seam_bits@[c]
                == full_mask(old(decs)@.len() as nat)) && (opposite@[c] != INVALID ==> final(acc).seam_bits@[c]
                == final(acc).seam_bits@[opposite@[c] as int]),
        final(acc).model(final(decs)@, num_boundary as nat) == seam_scan(
            old(acc).model(old(decs)@, 0),
            opposite@,
            c2v@,
            old(acc).num_vertices as nat,
            old(decs)@.len() as nat,
            (3 * num_faces) as nat,
        ),
{
    let ghost m0 = acc.model(decs@, 0);
    let ghost nv = acc.num_vertices as nat;
    let k = decs.len();
    let ghost kk = k as nat;
    let ghost nc = (3 * num_faces) as nat;
    proof {
        vstd::arithmetic::power2::lemma2_to64();
        if k < 9 {
            vstd::arithmetic::power2::lemma_pow2_strictly_increases(k as nat, 9);
        }
        vstd::bits::lemma_u32_shl_is_mul(1, k as u32);
    }
    let mask: u8 = ((1u32 << k as u32) - 1) as u8;
    proof {
        assert(mask == full_mask(kk));
    }
    let mut num_boundary: usize = 0;
    let mut c: usize = 0;
    while c < 3 * num_faces
        invariant
            c <= 3 * num_faces,
            k == decs@.len(),
            kk == k,
            k <= 8,
            nc == 3 * num_faces,
            mask == full_mask(kk),
            3 * num_faces < usize::MAX / 4,
            opposite@.len() == nc,
            c2v@.len() == nc,
            opposite_wf(opposite@),
            all_wf(decs@),
            acc.wf(kk, nc),
            acc.num_vertices == old(acc).num_vertices,
            forall|d: int| 0 <= d < c2v@.len() ==> #[trigger] c2v@[d] < acc.num_vertices,
            num_boundary <= c,
            nv == acc.num_vertices,
            acc.model(decs@, num_boundary as nat) == seam_scan(m0, opposite@, c2v@, nv, kk, c as nat),
            forall|i: int| 0 <= i < k ==> (#[trigger] acc.marks@[i]) <= 2 * c,
            forall|d: int|
                0 <= d < nc ==> (opposite@[d] == INVALID ==> #[trigger] acc.seam_bits@[d] == if d < c {
                    mask
                } else {
                    0u8
                }) && (opposite@[d] != INVALID ==> acc.seam_bits@[d] == acc.seam_bits@[opposite@[d] as int]),
        decreases 3 * num_faces - c,
    {
        let f = c / 3;
        let opp = opposite[c];
        if opp == INVALID {
            let ghost mprev = acc.model(decs@, num_boundary as nat);
            num_boundary += 1;
            acc.seam_bits.set(c, mask);
            let ghost snap = acc.seam_bits@;
            let ghost base = acc.model(decs@, num_boundary as nat);
            proof {
                assert(base =~= SeamModel { bits: mprev.bits.update(c as int, full_mask(kk)), boundary: mprev.boundary + 1, ..mprev });
            }
            let mut i: usize = 0;
            while i < k
                invariant
                    i <= k <= 8,
                    kk == k,
                    c < nc,
                    nc == 3 * num_faces,
                    3 * num_faces < usize::MAX / 4,
                    c2v@.len() == nc,
                    acc.wf(kk, nc),
                    acc.num_vertices == old(acc).num_vertices,
                    forall|d: int| 0 <= d < c2v@.len() ==> #[trigger] c2v@[d] < acc.num_vertices,
                    forall|j: int| 0 <= j < k ==> (#[trigger] acc.marks@[j]) <= 2 * c + if j < i { 1int } else { 0int },
                    acc.seam_bits@ == snap,
                    nv == acc.num_vertices,
                    opposite@.len() == nc,
                    opposite@[c as int] == INVALID,
                    k == decs@.len(),
                    acc.model(decs@, num_boundary as nat) == seam_corner(base, opposite@, c2v@, nv, c as int, i as nat),
                decreases k - i,
            {
                let ghost mi = acc.model(decs@, num_boundary as nat);
                proof {
                    lemma_corner_cycle(c as int);
                    assert(prev_spec(c as int) < nc) by {
                        assert((c as int) / 3 < nc / 3);
                    }
                }
                acc.count_start(i, c, c2v, Ghost(kk), Ghost(nc));
                proof {
                    assert(acc.model(decs@, num_boundary as nat) =~= seam_start(mi, i as int, c as int, c2v@, nv));
                }
                i += 1;
            }
        } else if opp / 3 >= f {
            let ghost snap = acc.seam_bits@;
            let ghost base = acc.model(decs@, num_boundary as nat);
            let mut i: usize = 0;
            while i < k
                invariant
                    i <= k <= 8,
                    k == decs@.len(),
                    kk == k,
                    c < nc,
                    opp < nc,
                    opp != c,
                    opposite@[opp as int] == c,
                    nc == 3 * num_faces,
                    3 * num_faces < usize::MAX / 4,
                    c2v@.len() == nc,
                    opposite@.len() == nc,
                    all_wf(decs@),
                    acc.wf(kk, nc),
                    acc.num_vertices == old(acc).num_vertices,
                    forall|d: int| 0 <= d < c2v@.len() ==> #[trigger] c2v@[d] < acc.num_vertices,
                    forall|j: int| 0 <= j < k ==> (#[trigger] acc.marks@[j]) <= 2 * c + if j < i { 2int } else { 0int },
                    acc.seam_bits@[c as int] == acc.seam_bits@[opp as int],
                    acc.seam_bits@.len() == nc,
                    snap.len() == nc,
                    forall|d: int| 0 <= d < nc && d != c && d != opp ==> #[trigger] acc.seam_bits@[d] == snap[d],
                    nv == acc.num_vertices,
                    opposite@[c as int] == opp,
                    acc.model(decs@, num_boundary as nat) == seam_corner(base, opposite@, c2v@, nv, c as int, i as nat),
                decreases k - i,
            {
                let ghost mi = acc.model(decs@, num_boundary as nat);
                let mut dec = decs[i];
                let bit = dec.decode_bit();
                decs.set(i, dec);
                let ghost m1 = acc.model(decs@, num_boundary as nat);
                proof {
                    let st = mi.states[i as int];
                    let (b, x, rest) = rabs_step(st.0, st.1, st.2);
                    assert(m1 =~= SeamModel { states: mi.states.update(i as int, (x, rest, st.2)), ..mi });
                }
                if bit {
                    mark(acc, i, c, c2v, Ghost(kk), Ghost(nc));
                    let ghost m2 = acc.model(decs@, num_boundary as nat);
                    mark(acc, i, opp, c2v, Ghost(kk), Ghost(nc));
                    proof {
                        assert(m2 == seam_mark(m1, i as int, c as int, c2v@, nv));
                        assert(acc.model(decs@, num_boundary as nat) == seam_mark(m2, i as int, opp as int, c2v@, nv));
                    }
                }
                i += 1;
            }
        }
        c += 1;
    }
    num_boundary
}

impl<'a> SharedStreams<'a> {
    /// Every stream decoder is consistent and there are at most eight seam
    /// streams.
    pub closed spec fn wf(&self) -> bool {
        &&& self.start_face.wf()
        &&& all_wf(self.seams@)
        &&& self.seams@.len() <= 8
    }

    /// The number of seam streams.
    pub closed spec fn num_streams(&self) -> nat {
        self.seams@.len()
    }

    /// The state of the start-face decoder.
    pub closed spec fn start_face_state(&self) -> (int, Seq<u8>, int) {
        rabs_view(self.start_face)
    }

    /// The state of each seam decoder.
    pub closed spec fn seam_states(&self) -> Seq<(int, Seq<u8>, int)> {
        Seq::new(self.seams@.len(), |i: int| rabs_view(self.seams@[i]))
    }

    /// Reads the start-face stream and one seam stream per attribute
    /// connectivity.
    pub fn read(reader: &mut Reader<'a>, num_attribute_data: usize) -> (r: Result<Self, DecodeError>)
        requires
            num_attribute_data <= 8,
        ensures
            match rabs_records(old(reader).rest(), (num_attribute_data + 1) as nat) {
                Err(e) => r == Err::<Self, DecodeError>(e),
                Ok((rs, k)) => (r matches Ok(sh) && sh.wf() && sh.num_streams() == num_attribute_data
                    && sh.start_face_state() == rs[0] && sh.seam_states() == rs.drop_first()
                    && k <= old(reader).rest().len() && final(reader).rest() == old(reader).rest().skip(k as int)),
            },
    {
        let ghost s0 = reader.rest();
        let ghost total = rabs_records(s0, (num_attribute_data + 1) as nat);
        let start_face = start_rabs(reader)?;
        let ghost k0 = rabs_record(s0)->Ok_0.3;
        let ghost first = rabs_view(start_face);
        let mut seams: Vec<RabsDecoder<'a>> = Vec::new();
        let ghost mut used: nat = k0;
        let mut i: usize = 0;
        proof {
            assert(reader.rest() == s0.skip(k0 as int));
            if let Ok((rs, k)) = rabs_records(reader.rest(), num_attribute_data as nat) {
                assert(Seq::new(0nat, |j: int| rabs_view(seams@[j])) + rs =~= rs);
            }
        }
        while i < num_attribute_data
            invariant
                i <= num_attribute_data <= 8,
                s0 == old(reader).rest(),
                total == rabs_records(s0, (num_attribute_data + 1) as nat),
                used <= s0.len(),
                reader.rest() == s0.skip(used as int),
                seams@.len() == i,
                all_wf(seams@),
                start_face.wf(),
                first == rabs_view(start_face),
                total == match rabs_records(reader.rest(), (num_attribute_data - i) as nat) {
                    Err(e) => Err(e),
                    Ok((rs, k)) => Ok::<(Seq<(int, Seq<u8>, int)>, nat), DecodeError>(
                        (seq![first] + (Seq::new(i as nat, |j: int| rabs_view(seams@[j])) + rs), used + k),
                    ),
                },
            decreases num_attribute_data - i,
        {
            let ghost cur = reader.rest();
            let d = match start_rabs(reader) {
                Ok(d) => d,
                Err(e) => {
                    return Err(e);
                },
            };
            let ghost k = rabs_record(cur)->Ok_0.3;
            proof {
                assert(s0.skip(used as int).skip(k as int) =~= s0.skip((used + k) as int));
                if let Ok((rs, k2)) = rabs_records(reader.rest(), (num_attribute_data - i - 1) as nat) {
                    assert(Seq::new((i + 1) as nat, |j: int| rabs_view(seams@.push(d)[j])) + rs =~= Seq::new(
                        i as nat,
                        |j: int| rabs_view(seams@[j]),
                    ) + (seq![rabs_view(d)] + rs));
                }
                used = used + k;
            }
            seams.push(d);
            i += 1;
        }
        let sh = Self { start_face, seams };
        proof {
            if let Ok((rs, k)) = total {
                assert(rs.drop_first() =~= sh.seam_states());
            }
        }
        Ok(sh)
    }

    /// Decodes one start-face configuration bit.
    pub fn decode_start_face_config(&mut self) -> (b: bool)
        requires
            old(self).wf(),
        ensures
            final(self).wf(),
            final(self).num_streams() == old(self).num_streams(),
            (b, final(self).start_face_state().0, final(self).start_face_state().1) == rabs_step(
                old(self).start_face_state().0,
                old(self).start_face_state().1,
                old(self).start_face_state().2,
            ),
            final(self).start_face_state().2 == old(self).start_face_state().2,
            final(self).seam_states() == old(self).seam_states(),
    {
        self.start_face.decode_bit()
    }

    /// Decodes the seam edges over the final corner table (see
    /// [`decode_seams`]) and gathers the per-stream statistics.
    pub fn decode_attribute_seams(
        &mut self,
        opposite: &[usize],
        num_faces: usize,
        c2v: &[usize],
        num_vertices: usize,
    ) -> (r: (Vec<u8>, Vec<SeamStats>))
        requires
            old(self).wf(),
            opposite@.len() == 3 * num_faces,
            c2v@.len() == 3 * num_faces,
            3 * num_faces < usize::MAX / 4,
            opposite_wf(opposite@),
            forall|d: int| 0 <= d < c2v@.len() ==> #[trigger] c2v@[d] < num_vertices,
            8 * num_vertices <= usize::MAX,
        ensures
            final(self).wf(),
            final(self).num_streams() == old(self).num_streams(),
            final(self).start_face_state() == old(self).start_face_state(),
            seams_decoded(old(self).seam_states(), opposite@, c2v@, num_vertices as nat, r),
            r.0@.len() == 3 * num_faces,
            r.1@.len() == old(self).num_streams(),
            forall|c: int|
                0 <= c < 3 * num_faces ==> (opposite@[c] == INVALID ==> #[trigger] r.0@[c] == full_mask(
                    old(self).num_streams(),
                )) && (opposite@[c] != INVALID ==> r.0@[c] == r.0@[opposite@[c] as int]),
    {
        let k = self.seams.len();
        assert(k * num_vertices <= usize::MAX) by (nonlinear_arith)
            requires
                k <= 8,
                8 * num_vertices <= usize::MAX,
        ;
        let mut acc = SeamAcc::new(k, 3 * num_faces, num_vertices);
        proof {
            assert(acc.model(self.seams@, 0) =~= seam_init(self.seam_states(), (3 * num_faces) as nat, num_vertices as nat));
        }
        let num_boundary = decode_seams(&mut self.seams, opposite, num_faces, c2v, &mut acc);
        let ghost m = acc.model(self.seams@, num_boundary as nat);
        let r = acc.finish(num_boundary, Ghost(k as nat), Ghost((3 * num_faces) as nat));
        proof {
            assert(m.boundary == num_boundary);
        }
        r
    }
}

/// One edgebreaker traversal variant: where the symbols come from, plus the
/// shared start-face and seam streams.
pub trait TraversalDecoder {
    /// The decoder's internal consistency.
    spec fn inv(&self) -> bool;

    /// The vertex ids the valence bookkeeping can hold.
    spec fn vertex_capacity(&self) -> nat;

    /// The number of seam streams.
    spec fn num_streams(&self) -> nat;

    /// The result the next [`Self::decode_symbol`] gives.
    spec fn next_symbol(&self) -> Result<Symbol, DecodeError>;

    /// What the decoder was started on, which no call changes.
    type Origin;

    /// The decoder's origin.
    spec fn origin(&self) -> Self::Origin;

    /// The states of the seam streams.
    spec fn seam_states(&self) -> Seq<(int, Seq<u8>, int)>;

    /// The result of each [`Self::decode_symbol`] call so far, in order.
    spec fn symbol_log(&self) -> Seq<Result<Symbol, DecodeError>>;

    /// The bit each [`Self::decode_start_face_config`] call gave so far, in
    /// order.
    spec fn config_log(&self) -> Seq<bool>;

    /// Decodes the next edgebreaker symbol.
    fn decode_symbol(&mut self) -> (r: Result<Symbol, DecodeError>)
        requires
            old(self).inv(),
        ensures
            final(self).inv(),
            final(self).origin() == old(self).origin(),
            final(self).seam_states() == old(self).seam_states(),
            r == old(self).next_symbol(),
            final(self).symbol_log() == old(self).symbol_log().push(r),
            final(self).config_log() == old(self).config_log(),
            final(self).vertex_capacity() == old(self).vertex_capacity(),
            final(self).num_streams() == old(self).num_streams(),
    ;

    /// Hook after each symbol's face, with the vertices of the new active
    /// corner.
    fn new_active_corner_reached(&mut self, v_corner: usize, v_next: usize, v_prev: usize)
        requires
            old(self).inv(),
            v_corner < old(self).vertex_capacity(),
            v_next < old(self).vertex_capacity(),
            v_prev < old(self).vertex_capacity(),
        ensures
            final(self).symbol_log() == old(self).symbol_log(),
            final(self).config_log() == old(self).config_log(),
            final(self).inv(),
            final(self).origin() == old(self).origin(),
            final(self).seam_states() == old(self).seam_states(),
            final(self).vertex_capacity() == old(self).vertex_capacity(),
            final(self).num_streams() == old(self).num_streams(),
    ;

    /// Hook for the S-symbol vertex merge.
    fn merge_vertices(&mut self, dest: usize, source: usize)
        requires
            old(self).inv(),
            dest < old(self).vertex_capacity(),
            source < old(self).vertex_capacity(),
        ensures
            final(self).symbol_log() == old(self).symbol_log(),
            final(self).config_log() == old(self).config_log(),
            final(self).inv(),
            final(self).origin() == old(self).origin(),
            final(self).seam_states() == old(self).seam_states(),
            final(self).vertex_capacity() == old(self).vertex_capacity(),
            final(self).num_streams() == old(self).num_streams(),
    ;

    /// Decodes one start-face configuration bit.
    fn decode_start_face_config(&mut self) -> (b: bool)
        requires
            old(self).inv(),
        ensures
            final(self).symbol_log() == old(self).symbol_log(),
            final(self).config_log() == old(self).config_log().push(b),
            final(self).inv(),
            final(self).origin() == old(self).origin(),
            final(self).seam_states() == old(self).seam_states(),
            final(self).vertex_capacity() == old(self).vertex_capacity(),
            final(self).num_streams() == old(self).num_streams(),
    ;

    /// Decodes the attribute seams over the final corner table.
    fn decode_attribute_seams(
        &mut self,
        opposite: &[usize],
        num_faces: usize,
        c2v: &[usize],
        num_vertices: usize,
    ) -> (r: (Vec<u8>, Vec<SeamStats>))
        requires
            old(self).inv(),
            opposite@.len() == 3 * num_faces,
            c2v@.len() == 3 * num_faces,
            3 * num_faces < usize::MAX / 4,
            opposite_wf(opposite@),
            forall|d: int| 0 <= d < c2v@.len() ==> #[trigger] c2v@[d] < num_vertices,
            8 * num_vertices <= usize::MAX,
        ensures
            final(self).inv(),
            final(self).origin() == old(self).origin(),
            seams_decoded(old(self).seam_states(), opposite@, c2v@, num_vertices as nat, r),
            final(self).symbol_log() == old(self).symbol_log(),
            final(self).config_log() == old(self).config_log(),
            r.0@.len() == 3 * num_faces,
            r.1@.len() == old(self).num_streams(),
            forall|c: int|
                0 <= c < 3 * num_faces ==> (opposite@[c] == INVALID ==> #[trigger] r.0@[c] == full_mask(
                    old(self).num_streams(),
                )) && (opposite@[c] != INVALID ==> r.0@[c] == r.0@[opposite@[c] as int]),
    ;
}

/// Standard traversal: symbols from a single prefix-coded bit stream.
pub struct StandardTraversalDecoder<'a> {
    symbols: BitSource<'a>,
    shared: SharedStreams<'a>,
    read: Ghost<Seq<Result<Symbol, DecodeError>>>,
    configs: Ghost<Seq<bool>>,
    first_face_state: Ghost<(int, Seq<u8>, int)>,
}

/// The streams a standard traversal starts with, at the start of `s`: a
/// LEB128 byte length and the symbol bytes, then the start-face record and
/// one seam record per attribute connectivity. Gives the symbol bytes, the
/// rabs states, and the bytes spanned.
pub open spec fn standard_start_parse(s: Seq<u8>, num_attribute_data: nat) -> Result<
    (Seq<u8>, Seq<(int, Seq<u8>, int)>, nat),
    DecodeError,
> {
    match leb_value(s) {
        Err(e) => Err(DecodeError::Reader(e)),
        Ok((v, n)) => {
            let len = (v as usize) as nat;
            if len > s.len() - n {
                Err(DecodeError::Reader(ReaderErr::NotEnoughData))
            } else {
                match rabs_records(s.skip((n + len) as int), num_attribute_data + 1) {
                    Err(e) => Err(e),
                    Ok((rs, k)) => Ok((s.subrange(n as int, (n + len) as int), rs, n + len + k)),
                }
            }
        },
    }
}

/// The symbol a standard traversal reads at bit `pos` of `bytes`: a clear
/// bit is `C`; otherwise the next two bits select `S`, `L`, `R` or `E`.
/// Gives the symbol and the bits read; an error where the bits run out.
pub open spec fn standard_symbol(bytes: Seq<u8>, pos: int) -> Result<(Symbol, int), DecodeError> {
    if pos + 1 > bytes.len() * 8 {
        Err(DecodeError::MalformedConnectivity("symbol stream ran out"))
    } else if bit_at(bytes, pos) == 0 {
        Ok((Symbol::C, 1))
    } else if pos + 3 > bytes.len() * 8 {
        Err(DecodeError::MalformedConnectivity("symbol stream ran out"))
    } else {
        let suffix = bits_lsb(bytes, pos + 1, 2);
        Ok(
            (
                if suffix == 0 {
                    Symbol::S
                } else if suffix == 1 {
                    Symbol::L
                } else if suffix == 2 {
                    Symbol::R
                } else {
                    Symbol::E
                },
                3,
            ),
        )
    }
}

/// The bits the encoder writes for each symbol of a standard traversal, in
/// stream order: `C` as a single clear bit, and `S`, `L`, `R`, `E` as the
/// codes 001, 011, 101, 111 written lowest bit first.
pub open spec fn standard_code(sym: Symbol) -> Seq<nat> {
    match sym {
        Symbol::C => seq![0nat],
        Symbol::S => seq![1nat, 0, 0],
        Symbol::L => seq![1nat, 1, 0],
        Symbol::R => seq![1nat, 0, 1],
        Symbol::E => seq![1nat, 1, 1],
    }
}

/// Reading a symbol where the encoder wrote the code of `sym` gives `sym`
/// back, and moves past exactly that code.
pub proof fn lemma_standard_symbol_reads_its_code(bytes: Seq<u8>, pos: int, sym: Symbol)
    requires
        0 <= pos,
        pos + standard_code(sym).len() <= bytes.len() * 8,
        forall|i: int| 0 <= i < standard_code(sym).len() ==> #[trigger] bit_at(bytes, pos + i) == standard_code(sym)[i],
    ensures
        standard_symbol(bytes, pos) == Ok::<(Symbol, int), DecodeError>((sym, standard_code(sym).len() as int)),
{
    let code = standard_code(sym);
    assert(bit_at(bytes, pos + 0) == code[0]);
    if code.len() == 3 {
        assert(bit_at(bytes, pos + 1) == code[1]);
        assert(bit_at(bytes, pos + 2) == code[2]);
        vstd::arithmetic::power2::lemma2_to64();
        assert(bits_lsb(bytes, pos + 1, 2) == code[1] + 2 * code[2]) by {
            assert(vstd::arithmetic::power2::pow2(0) == 1);
            assert(vstd::arithmetic::power2::pow2(1) == 2);
            assert(bits_lsb(bytes, pos + 1, 0) == 0);
            assert(bits_lsb(bytes, pos + 1, 1) == bits_lsb(bytes, pos + 1, 0) + bit_at(bytes, pos + 1)
                * vstd::arithmetic::power2::pow2(0));
            assert(bits_lsb(bytes, pos + 1, 2) == bits_lsb(bytes, pos + 1, 1) + bit_at(bytes, pos + 2)
                * vstd::arithmetic::power2::pow2(1));
        }
    }
}

/// The bit a standard traversal reads its next symbol from after `n`
/// answers from the start of `bytes`, none of them an error.
pub open spec fn std_pos(bytes: Seq<u8>, n: nat) -> int
    decreases n,
{
    if n == 0 {
        0
    } else {
        let p = std_pos(bytes, (n - 1) as nat);
        match standard_symbol(bytes, p) {
            Ok((_, k)) => p + k,
            Err(_) => p,
        }
    }
}

/// The answers a standard traversal gives to `n` symbol requests from the
/// start of `bytes`; the first error ends them.
pub open spec fn std_answers(bytes: Seq<u8>, n: nat) -> Seq<Result<Symbol, DecodeError>>
    decreases n,
{
    if n == 0 {
        Seq::empty()
    } else {
        let prev = std_answers(bytes, (n - 1) as nat);
        if prev.len() < n - 1 || (prev.len() > 0 && prev.last() is Err) {
            prev
        } else {
            prev.push(
                match standard_symbol(bytes, std_pos(bytes, (n - 1) as nat)) {
                    Ok((s, _)) => Ok(s),
                    Err(e) => Err(e),
                },
            )
        }
    }
}

/// The bits the encoder writes for the symbols `syms`, one code after the
/// other.
pub open spec fn standard_bits(syms: Seq<Symbol>) -> Seq<nat>
    decreases syms.len(),
{
    if syms.len() == 0 {
        Seq::empty()
    } else {
        standard_bits(syms.drop_last()) + standard_code(syms.last())
    }
}

/// Decoding the symbol stream the encoder writes for `syms` answers the
/// requests with `syms`, in order, and leaves the reading position just past
/// their codes.
pub proof fn lemma_standard_symbols_round_trip(bytes: Seq<u8>, syms: Seq<Symbol>)
    requires
        standard_bits(syms).len() <= bytes.len() * 8,
        forall|i: int| 0 <= i < standard_bits(syms).len() ==> #[trigger] bit_at(bytes, i) == standard_bits(syms)[i],
    ensures
        std_answers(bytes, syms.len()) == Seq::new(syms.len(), |i: int| Ok::<Symbol, DecodeError>(syms[i])),
        std_pos(bytes, syms.len()) == standard_bits(syms).len(),
    decreases syms.len(),
{
    if syms.len() > 0 {
        let pre = syms.drop_last();
        let all = standard_bits(syms);
        let bp = standard_bits(pre);
        let code = standard_code(syms.last());
        assert(all == bp + code);
        assert forall|i: int| 0 <= i < bp.len() implies #[trigger] bit_at(bytes, i) == bp[i] by {
            assert(all[i] == bp[i]);
        }
        lemma_standard_symbols_round_trip(bytes, pre);
        assert forall|i: int| 0 <= i < code.len() implies #[trigger] bit_at(bytes, bp.len() + i) == code[i] by {
            assert(all[bp.len() + i] == code[i]);
        }
        lemma_standard_symbol_reads_its_code(bytes, bp.len() as int, syms.last());
        let n = syms.len();
        let prev = std_answers(bytes, (n - 1) as nat);
        assert(prev == Seq::new((n - 1) as nat, |i: int| Ok::<Symbol, DecodeError>(pre[i])));
        assert(std_answers(bytes, n) =~= Seq::new(n, |i: int| Ok::<Symbol, DecodeError>(syms[i])));
    } else {
        assert(std_answers(bytes, 0) =~= Seq::new(0, |i: int| Ok::<Symbol, DecodeError>(syms[i])));
    }
}

/// The rabs state after `m` start-face bits from state `st`.
pub open spec fn rabs_state_after(st: (int, Seq<u8>, int), m: nat) -> (int, Seq<u8>, int)
    decreases m,
{
    if m == 0 {
        st
    } else {
        let s = rabs_state_after(st, (m - 1) as nat);
        let (_, x, rest) = rabs_step(s.0, s.1, s.2);
        (x, rest, s.2)
    }
}

/// The first `m` start-face bits from rabs state `st`.
pub open spec fn rabs_bits(st: (int, Seq<u8>, int), m: nat) -> Seq<bool>
    decreases m,
{
    if m == 0 {
        Seq::empty()
    } else {
        let s = rabs_state_after(st, (m - 1) as nat);
        rabs_bits(st, (m - 1) as nat).push(rabs_step(s.0, s.1, s.2).0)
    }
}

/// The standard answers run short only after an error.
pub proof fn lemma_std_answers_short(bytes: Seq<u8>, n: nat)
    ensures
        std_answers(bytes, n).len() <= n,
        std_answers(bytes, n).len() < n ==> std_answers(bytes, n).len() > 0 && std_answers(bytes, n).last() is Err,
    decreases n,
{
    if n > 0 {
        lemma_std_answers_short(bytes, (n - 1) as nat);
    }
}

impl<'a> StandardTraversalDecoder<'a> {
    /// The answers so far begin with the standard answers of the symbol
    /// bytes, and while none failed the next symbol is read where those
    /// answers leave off.
    pub closed spec fn answers_ok(&self) -> bool {
        let log = self.read@;
        let a = std_answers(self.symbols.bytes(), log.len());
        &&& a.len() <= log.len()
        &&& log.take(a.len() as int) == a
        &&& (a.len() == log.len() && (log.len() == 0 || log.last() is Ok)) ==> self.symbols.pos() == std_pos(
            self.symbols.bytes(),
            log.len(),
        )
    }

    /// The start-face state the decoder started with.
    pub closed spec fn first_face_state(&self) -> (int, Seq<u8>, int) {
        self.first_face_state@
    }

    /// What a consistent decoder has answered: the standard answers of its
    /// symbol bytes up to the first error, and the start-face bits its first
    /// start-face state gives.
    pub proof fn lemma_answers(&self)
        requires
            self.inv(),
        ensures
            std_answers(self.symbol_bytes(), self.symbol_log().len()).len() <= self.symbol_log().len(),
            self.symbol_log().take(std_answers(self.symbol_bytes(), self.symbol_log().len()).len() as int)
                == std_answers(self.symbol_bytes(), self.symbol_log().len()),
            self.config_log() == rabs_bits(self.first_face_state(), self.config_log().len()),
            self.origin() == (self.symbol_bytes(), self.first_face_state()),
    {
    }

    /// The symbol bytes.
    pub closed spec fn symbol_bytes(&self) -> Seq<u8> {
        self.symbols.bytes()
    }

    /// The index of the next symbol bit.
    pub closed spec fn symbol_pos(&self) -> int {
        self.symbols.pos()
    }

    /// The start-face and seam streams.
    pub closed spec fn streams(&self) -> SharedStreams<'a> {
        self.shared
    }

    /// Reads the symbol stream (a LEB128 byte length, then the bytes) and
    /// the shared streams.
    pub fn start(reader: &mut Reader<'a>, num_attribute_data: usize) -> (r: Result<Self, DecodeError>)
        requires
            num_attribute_data <= 8,
        ensures
            match standard_start_parse(old(reader).rest(), num_attribute_data as nat) {
                Err(e) => r == Err::<Self, DecodeError>(e),
                Ok((bytes, rs, k)) => (r matches Ok(d) && d.inv() && d.num_streams() == num_attribute_data
                    && d.vertex_capacity() == usize::MAX && d.symbol_bytes() == bytes && d.symbol_pos() == 0
                    && d.streams().start_face_state() == rs[0] && d.streams().seam_states() == rs.drop_first()
                    && d.seam_states() == rs.drop_first()
                    && d.first_face_state() == rs[0] && d.symbol_log().len() == 0 && d.config_log().len() == 0
                    && d.origin() == (bytes, rs[0])
                    && k <= old(reader).rest().len() && final(reader).rest() == old(reader).rest().skip(k as int)),
            },
    {
        let ghost s0 = reader.rest();
        let v = read_leb(reader)?;
        let symbol_len = #[verifier::truncate] (v as usize);
        let ghost n = leb_value(s0)->Ok_0.1;
        let ghost s1 = reader.rest();
        let bytes = match reader.read_bytes(symbol_len) {
            Ok(b) => b,
            Err(e) => return Err(DecodeError::Reader(e)),
        };
        proof {
            assert(s1 == s0.skip(n as int));
            assert(bytes@ =~= s0.subrange(n as int, n + symbol_len));
            assert(reader.rest() =~= s0.skip((n + symbol_len) as int));
        }
        let symbols = BitSource::new(bytes);
        let ghost s2 = reader.rest();
        let shared = SharedStreams::read(reader, num_attribute_data)?;
        proof {
            if let Ok((rs, k)) = rabs_records(s2, (num_attribute_data + 1) as nat) {
                assert(s2.skip(k as int) =~= s0.skip((n + symbol_len + k) as int));
            }
        }
        let d = Self {
            symbols,
            shared,
            read: Ghost(Seq::empty()),
            configs: Ghost(Seq::empty()),
            first_face_state: Ghost(shared.start_face_state()),
        };
        proof {
            assert(d.read@.take(0) =~= Seq::<Result<Symbol, DecodeError>>::empty());
            assert(d.configs@ =~= rabs_bits(d.first_face_state@, 0));
        }
        Ok(d)
    }
}

impl<'a> TraversalDecoder for StandardTraversalDecoder<'a> {
    type Origin = (Seq<u8>, (int, Seq<u8>, int));

    closed spec fn origin(&self) -> (Seq<u8>, (int, Seq<u8>, int)) {
        (self.symbols.bytes(), self.first_face_state@)
    }

    closed spec fn seam_states(&self) -> Seq<(int, Seq<u8>, int)> {
        self.shared.seam_states()
    }

    closed spec fn inv(&self) -> bool {
        &&& self.symbols.wf()
        &&& self.shared.wf()
        &&& self.answers_ok()
        &&& self.configs@ == rabs_bits(self.first_face_state@, self.configs@.len())
        &&& self.shared.start_face_state() == rabs_state_after(self.first_face_state@, self.configs@.len())
    }

    closed spec fn vertex_capacity(&self) -> nat {
        usize::MAX as nat
    }

    closed spec fn num_streams(&self) -> nat {
        self.shared.num_streams()
    }

    closed spec fn next_symbol(&self) -> Result<Symbol, DecodeError> {
        match standard_symbol(self.symbols.bytes(), self.symbols.pos()) {
            Ok((sym, _)) => Ok(sym),
            Err(e) => Err(e),
        }
    }

    closed spec fn symbol_log(&self) -> Seq<Result<Symbol, DecodeError>> {
        self.read@
    }

    closed spec fn config_log(&self) -> Seq<bool> {
        self.configs@
    }

    /// A clear bit is `C`; otherwise two more bits select `S`, `L`, `R` or
    /// `E`. Running out of symbol bits fails.
    fn decode_symbol(&mut self) -> (r: Result<Symbol, DecodeError>)
        ensures
            final(self).symbol_bytes() == old(self).symbol_bytes(),
            final(self).streams() == old(self).streams(),
            match standard_symbol(old(self).symbol_bytes(), old(self).symbol_pos()) {
                Err(e) => r == Err::<Symbol, DecodeError>(e),
                Ok((sym, k)) => r == Ok::<Symbol, DecodeError>(sym) && final(self).symbol_pos() == old(self).symbol_pos() + k,
            },
    {
        let ghost log0 = self.read@;
        let ghost pos0 = self.symbols.pos();
        let ghost bytes = self.symbols.bytes();
        let r = if !self.symbols.has_bits(1) {
            Err(DecodeError::MalformedConnectivity("symbol stream ran out"))
        } else if self.symbols.read_bit() == 0 {
            Ok(Symbol::C)
        } else if !self.symbols.has_bits(2) {
            Err(DecodeError::MalformedConnectivity("symbol stream ran out"))
        } else {
            let suffix = self.symbols.read_bits(2);
            Ok(
                if suffix == 0 {
                    Symbol::S
                } else if suffix == 1 {
                    Symbol::L
                } else if suffix == 2 {
                    Symbol::R
                } else {
                    Symbol::E
                },
            )
        };
        self.read = Ghost(self.read@.push(r));
        proof {
            let n = log0.len();
            let a0 = std_answers(bytes, n);
            let log1 = self.read@;
            assert(log1.take(n as int) =~= log0);
            if a0.len() == n && (n == 0 || log0.last() is Ok) {
                assert(log0.take(n as int) =~= log0);
                assert(pos0 == std_pos(bytes, n));
                assert(std_answers(bytes, n + 1) == a0.push(r));
                assert(log1 =~= a0.push(r));
                assert(log1.take((n + 1) as int) =~= log1);
            } else {
                assert(std_answers(bytes, n + 1) == a0);
                assert(log1.take(a0.len() as int) =~= log0.take(a0.len() as int));
            }
        }
        r
    }

    fn new_active_corner_reached(&mut self, v_corner: usize, v_next: usize, v_prev: usize) {
    }

    fn merge_vertices(&mut self, dest: usize, source: usize) {
    }

    fn decode_start_face_config(&mut self) -> (b: bool)
        ensures
            (b, final(self).streams().start_face_state().0, final(self).streams().start_face_state().1) == rabs_step(
                old(self).streams().start_face_state().0,
                old(self).streams().start_face_state().1,
                old(self).streams().start_face_state().2,
            ),
            final(self).streams().start_face_state().2 == old(self).streams().start_face_state().2,
            final(self).streams().seam_states() == old(self).streams().seam_states(),
            final(self).symbol_bytes() == old(self).symbol_bytes(),
            final(self).symbol_pos() == old(self).symbol_pos(),
    {
        let b = self.shared.decode_start_face_config();
        self.configs = Ghost(self.configs@.push(b));
        b
    }

    fn decode_attribute_seams(
        &mut self,
        opposite: &[usize],
        num_faces: usize,
        c2v: &[usize],
        num_vertices: usize,
    ) -> (r: (Vec<u8>, Vec<SeamStats>)) {
        self.shared.decode_attribute_seams(opposite, num_faces, c2v, num_vertices)
    }
}

/// The number of valence contexts.
pub const NUM_CONTEXTS: usize = 6;

/// Valence traversal: one symbol list per valence context, consumed from the
/// back, with vertex valences maintained to pick each symbol's context.
pub struct ValenceTraversalDecoder<'a> {
    context_symbols: Vec<Vec<u64>>,
    context_left: Vec<usize>,
    vertex_valences: Vec<usize>,
    last_symbol: Option<Symbol>,
    active_context: Option<usize>,
    shared: SharedStreams<'a>,
    read: Ghost<Seq<Result<Symbol, DecodeError>>>,
    configs: Ghost<Seq<bool>>,
}

impl<'a> ValenceTraversalDecoder<'a> {
    /// The valence of each vertex.
    pub closed spec fn valences(&self) -> Seq<usize> {
        self.vertex_valences@
    }

    /// The context the next symbol is read from, if any.
    pub closed spec fn context(&self) -> Option<usize> {
        self.active_context
    }

    /// The symbol ids of each valence context.
    pub closed spec fn context_lists(&self) -> Seq<Seq<u64>> {
        Seq::new(self.context_symbols@.len(), |j: int| self.context_symbols@[j]@)
    }

    /// How many symbols of each context are still unread (read from the
    /// back).
    pub closed spec fn unread(&self) -> Seq<usize> {
        self.context_left@
    }

    /// The last symbol decoded, if any.
    pub closed spec fn last(&self) -> Option<Symbol> {
        self.last_symbol
    }

    /// The start-face and seam streams.
    pub closed spec fn streams(&self) -> SharedStreams<'a> {
        self.shared
    }

    /// Reads the shared streams, then per valence context a LEB128 symbol
    /// count (at most the face count) and that many symbols.
    pub fn start(
        reader: &mut Reader<'a>,
        num_attribute_data: usize,
        max_num_vertices: usize,
        num_faces: usize,
    ) -> (r: Result<Self, DecodeError>)
        requires
            num_attribute_data <= 8,
        ensures
            match rabs_records(old(reader).rest(), (num_attribute_data + 1) as nat) {
                Err(e) => r == Err::<Self, DecodeError>(e),
                Ok((rs, k)) => match contexts_parse(old(reader).rest().skip(k as int), num_faces as nat, 0) {
                    None => r is Err,
                    Some(Err(e)) => r == Err::<Self, DecodeError>(e),
                    Some(Ok((lists, k2))) => (r matches Ok(d) && d.inv() && d.num_streams() == num_attribute_data
                        && d.vertex_capacity() == max_num_vertices && d.context() is None && d.last() is None
                        && (forall|v: int| 0 <= v < max_num_vertices ==> d.valences()[v] == 0)
                        && d.context_lists() == lists && (forall|j: int| 0 <= j < NUM_CONTEXTS ==> #[trigger] d.unread()[j] == lists[j].len())
                        && d.streams().start_face_state() == rs[0] && d.streams().seam_states() == rs.drop_first()
                    && d.seam_states() == rs.drop_first()
                    && d.symbol_log().len() == 0 && d.config_log().len() == 0
                        && k + k2 <= old(reader).rest().len() && final(reader).rest() == old(reader).rest().skip((k + k2) as int)),
                },
            },
    {
        let ghost s0 = reader.rest();
        let shared = SharedStreams::read(reader, num_attribute_data)?;
        let ghost k = rabs_records(s0, (num_attribute_data + 1) as nat)->Ok_0.1;
        let ghost s1 = reader.rest();
        let ghost total = contexts_parse(s1, num_faces as nat, 0);
        let mut context_symbols: Vec<Vec<u64>> = Vec::new();
        let mut context_left: Vec<usize> = Vec::new();
        let ghost mut used: nat = 0;
        let mut i: usize = 0;
        proof {
            assert(s1.skip(0) =~= s1);
            if let Some(Ok((ls, kk))) = total {
                assert(Seq::new(0nat, |j: int| context_symbols@[j]@) + ls =~= ls);
            }
        }
        while i < NUM_CONTEXTS
            invariant
                i <= NUM_CONTEXTS,
                s0 == old(reader).rest(),
                rabs_records(s0, (num_attribute_data + 1) as nat) is Ok,
                k == rabs_records(s0, (num_attribute_data + 1) as nat)->Ok_0.1,
                s1 == s0.skip(k as int),
                s1.len() >= used,
                reader.rest() == s1.skip(used as int),
                total == contexts_parse(s1, num_faces as nat, 0),
                context_symbols@.len() == i,
                context_left@.len() == i,
                forall|j: int| 0 <= j < i ==> #[trigger] context_left@[j] == context_symbols@[j]@.len(),
                total == match contexts_parse(reader.rest(), num_faces as nat, i as nat) {
                    None => None,
                    Some(Err(e)) => Some(Err(e)),
                    Some(Ok((ls, kk))) => Some(Ok::<(Seq<Seq<u64>>, nat), DecodeError>(
                        (Seq::new(i as nat, |j: int| context_symbols@[j]@) + ls, used + kk),
                    )),
                },
            decreases NUM_CONTEXTS - i,
        {
            let ghost cur = reader.rest();
            let v = match read_leb(reader) {
                Ok(v) => v,
                Err(e) => {
                    proof {
                        assert(contexts_parse(cur, num_faces as nat, i as nat) == Some(Err::<(Seq<Seq<u64>>, nat), DecodeError>(e)));
                    }
                    return Err(e);
                },
            };
            let num_symbols = #[verifier::truncate] (v as usize);
            let ghost n = leb_value(cur)->Ok_0.1;
            if num_symbols > num_faces {
                proof {
                    assert(contexts_parse(cur, num_faces as nat, i as nat) == Some(Err::<(Seq<Seq<u64>>, nat), DecodeError>(
                        DecodeError::MalformedConnectivity("valence context symbol count exceeds the face count"),
                    )));
                }
                return Err(DecodeError::MalformedConnectivity(
                    "valence context symbol count exceeds the face count",
                ));
            }
            let ghost after = reader.rest();
            let syms = if num_symbols > 0 {
                decode_symbols(reader, num_symbols, 1)?
            } else {
                Vec::new()
            };
            proof {
                let m: nat = if num_symbols > 0 {
                    let (sv, sk) = symbols_parse(after, num_symbols as nat, 1)->0;
                    sk
                } else {
                    0
                };
                assert(after == cur.skip(n as int));
                assert(s1.skip(used as int).skip((n + m) as int) =~= s1.skip((used + n + m) as int));
                assert(cur.skip(n as int).skip(m as int) =~= cur.skip((n + m) as int));
                if let Some(Ok((ls, kk))) = contexts_parse(reader.rest(), num_faces as nat, (i + 1) as nat) {
                    assert(Seq::new((i + 1) as nat, |j: int| context_symbols@.push(syms)[j]@) + ls =~= Seq::new(
                        i as nat,
                        |j: int| context_symbols@[j]@,
                    ) + (seq![syms@] + ls));
                }
                used = used + n + m;
            }
            context_left.push(syms.len());
            context_symbols.push(syms);
            i += 1;
        }
        let mut vertex_valences: Vec<usize> = Vec::new();
        let mut v: usize = 0;
        while v < max_num_vertices
            invariant
                v <= max_num_vertices,
                vertex_valences@.len() == v,
                forall|j: int| 0 <= j < v ==> vertex_valences@[j] == 0,
            decreases max_num_vertices - v,
        {
            vertex_valences.push(0);
            v += 1;
        }
        let d = Self {
            context_symbols,
            context_left,
            vertex_valences,
            last_symbol: None,
            active_context: None,
            shared,
            read: Ghost(Seq::empty()),
            configs: Ghost(Seq::empty()),
        };
        proof {
            if let Some(Ok((ls, kk))) = total {
                assert(d.context_lists() =~= ls);
                assert(s1 =~= s0.skip(k as int));
                assert(s1.skip(kk as int) =~= s0.skip((k + kk) as int));
            }
        }
        Ok(d)
    }
}

/// The symbol lists of valence contexts `i` on at the start of `s`: per
/// context a LEB128 count (at most `num_faces`) and, for a nonzero count,
/// a symbol stream of that many symbols. `None` where a symbol stream does
/// not parse.
pub open spec fn contexts_parse(s: Seq<u8>, num_faces: nat, i: nat) -> Option<Result<(Seq<Seq<u64>>, nat), DecodeError>>
    decreases NUM_CONTEXTS - i,
{
    if i >= NUM_CONTEXTS {
        Some(Ok((Seq::empty(), 0)))
    } else {
        match leb_value(s) {
            Err(e) => Some(Err(DecodeError::Reader(e))),
            Ok((v, n)) => {
                let count = (v as usize) as nat;
                if count > num_faces {
                    Some(Err(DecodeError::MalformedConnectivity("valence context symbol count exceeds the face count")))
                } else {
                    let parsed = if count > 0 {
                        symbols_parse(s.skip(n as int), count, 1)
                    } else {
                        Some((Seq::empty(), 0))
                    };
                    match parsed {
                        None => None,
                        Some((syms, m)) => match contexts_parse(s.skip((n + m) as int), num_faces, i + 1) {
                            None => None,
                            Some(Err(e)) => Some(Err(e)),
                            Some(Ok((ls, k))) => Some(Ok((seq![syms] + ls, n + m + k))),
                        },
                    }
                }
            },
        }
    }
}

/// The symbol a valence id names.
pub open spec fn symbol_of_id(id: u64) -> Option<Symbol> {
    if id == 0 {
        Some(Symbol::C)
    } else if id == 1 {
        Some(Symbol::S)
    } else if id == 2 {
        Some(Symbol::L)
    } else if id == 3 {
        Some(Symbol::R)
    } else if id == 4 {
        Some(Symbol::E)
    } else {
        None
    }
}

/// The valence the last symbol's face adds to the new active corner's
/// vertex, the next one and the previous one.
pub open spec fn valence_gain(last: Option<Symbol>) -> (usize, usize, usize) {
    match last {
        Some(Symbol::C) | Some(Symbol::S) => (0, 1, 1),
        Some(Symbol::R) => (1, 1, 2),
        Some(Symbol::L) => (1, 2, 1),
        Some(Symbol::E) => (2, 2, 2),
        None => (0, 0, 0),
    }
}

/// `a + b`, saturating at `usize::MAX`.
pub open spec fn sat_add(a: usize, b: usize) -> usize {
    if a + b > usize::MAX {
        usize::MAX
    } else {
        (a + b) as usize
    }
}

/// `v` clamped into the valence contexts, as a context index.
pub open spec fn context_of(v: usize) -> usize {
    if v < MIN_VALENCE {
        0
    } else if v > MAX_VALENCE {
        (MAX_VALENCE - MIN_VALENCE) as usize
    } else {
        (v - MIN_VALENCE) as usize
    }
}

impl<'a> TraversalDecoder for ValenceTraversalDecoder<'a> {
    type Origin = Seq<Seq<u64>>;

    closed spec fn origin(&self) -> Seq<Seq<u64>> {
        self.context_lists()
    }

    closed spec fn seam_states(&self) -> Seq<(int, Seq<u8>, int)> {
        self.shared.seam_states()
    }

    closed spec fn inv(&self) -> bool {
        &&& self.shared.wf()
        &&& self.context_symbols@.len() == NUM_CONTEXTS
        &&& self.context_left@.len() == NUM_CONTEXTS
        &&& forall|j: int| 0 <= j < NUM_CONTEXTS ==> #[trigger] self.context_left@[j] <= self.context_symbols@[j]@.len()
        &&& self.active_context matches Some(c) ==> c < NUM_CONTEXTS
    }

    closed spec fn vertex_capacity(&self) -> nat {
        self.vertex_valences@.len()
    }

    closed spec fn num_streams(&self) -> nat {
        self.shared.num_streams()
    }

    closed spec fn next_symbol(&self) -> Result<Symbol, DecodeError> {
        match self.context() {
            None => Ok(Symbol::E),
            Some(ctx) => {
                let left = self.unread()[ctx as int];
                if left == 0 {
                    Err(DecodeError::MalformedConnectivity("valence context ran out of symbols"))
                } else {
                    match symbol_of_id(self.context_lists()[ctx as int][left - 1]) {
                        Some(sym) => Ok(sym),
                        None => Err(DecodeError::MalformedConnectivity("invalid valence symbol id")),
                    }
                }
            },
        }
    }

    closed spec fn symbol_log(&self) -> Seq<Result<Symbol, DecodeError>> {
        self.read@
    }

    closed spec fn config_log(&self) -> Seq<bool> {
        self.configs@
    }

    /// Without an active context the symbol is `E`; otherwise the last
    /// unread symbol of the active context, by id `C S L R E`.
    fn decode_symbol(&mut self) -> (r: Result<Symbol, DecodeError>)
        ensures
            final(self).context_lists() == old(self).context_lists(),
            final(self).valences() == old(self).valences(),
            final(self).context() == old(self).context(),
            final(self).streams() == old(self).streams(),
            match old(self).context() {
                None => r == Ok::<Symbol, DecodeError>(Symbol::E) && final(self).last() == Some(Symbol::E)
                    && final(self).unread() == old(self).unread(),
                Some(ctx) => {
                    let left = old(self).unread()[ctx as int];
                    if left == 0 {
                        r == Err::<Symbol, DecodeError>(DecodeError::MalformedConnectivity("valence context ran out of symbols"))
                    } else {
                        final(self).unread() == old(self).unread().update(ctx as int, (left - 1) as usize)
                            && match symbol_of_id(old(self).context_lists()[ctx as int][left - 1]) {
                            Some(sym) => r == Ok::<Symbol, DecodeError>(sym) && final(self).last() == Some(sym),
                            None => r == Err::<Symbol, DecodeError>(DecodeError::MalformedConnectivity("invalid valence symbol id")),
                        }
                    }
                },
            },
    {
        let r = match self.active_context {
            None => Ok(Symbol::E),
            Some(ctx) => {
                let left = self.context_left[ctx];
                if left == 0 {
                    Err(DecodeError::MalformedConnectivity("valence context ran out of symbols"))
                } else {
                    let id = self.context_symbols[ctx][left - 1];
                    self.context_left.set(ctx, left - 1);
                    if id == 0 {
                        Ok(Symbol::C)
                    } else if id == 1 {
                        Ok(Symbol::S)
                    } else if id == 2 {
                        Ok(Symbol::L)
                    } else if id == 3 {
                        Ok(Symbol::R)
                    } else if id == 4 {
                        Ok(Symbol::E)
                    } else {
                        Err(DecodeError::MalformedConnectivity("invalid valence symbol id"))
                    }
                }
            },
        };
        if let Ok(symbol) = r {
            self.last_symbol = Some(symbol);
        }
        self.read = Ghost(self.read@.push(r));
        r
    }

    /// Adds the valence the last symbol's face gave its three vertices, then
    /// takes the context of the next vertex's valence. Valences saturate at
    /// `usize::MAX`.
    fn new_active_corner_reached(&mut self, v_corner: usize, v_next: usize, v_prev: usize)
        ensures
            ({
                let (dc, dn, dp) = valence_gain(old(self).last());
                let v0 = old(self).valences();
                let v1 = v0.update(v_corner as int, sat_add(v0[v_corner as int], dc));
                let v2 = v1.update(v_next as int, sat_add(v1[v_next as int], dn));
                let v3 = v2.update(v_prev as int, sat_add(v2[v_prev as int], dp));
                &&& final(self).valences() == v3
                &&& final(self).context() == Some(context_of(v3[v_next as int]))
            }),
            final(self).context_lists() == old(self).context_lists(),
            final(self).unread() == old(self).unread(),
            final(self).last() == old(self).last(),
            final(self).streams() == old(self).streams(),
    {
        let (dc, dn, dp): (usize, usize, usize) = match self.last_symbol {
            Some(Symbol::C) | Some(Symbol::S) => (0, 1, 1),
            Some(Symbol::R) => (1, 1, 2),
            Some(Symbol::L) => (1, 2, 1),
            Some(Symbol::E) => (2, 2, 2),
            None => (0, 0, 0),
        };
        let a = self.vertex_valences[v_corner].saturating_add(dc);
        self.vertex_valences.set(v_corner, a);
        let b = self.vertex_valences[v_next].saturating_add(dn);
        self.vertex_valences.set(v_next, b);
        let c = self.vertex_valences[v_prev].saturating_add(dp);
        self.vertex_valences.set(v_prev, c);
        let active_valence = self.vertex_valences[v_next];
        let clamped = if active_valence < MIN_VALENCE {
            MIN_VALENCE
        } else if active_valence > MAX_VALENCE {
            MAX_VALENCE
        } else {
            active_valence
        };
        self.active_context = Some(clamped - MIN_VALENCE);
    }

    /// Adds the merged vertex's valence to the surviving one (saturating).
    fn merge_vertices(&mut self, dest: usize, source: usize)
        ensures
            final(self).valences() == old(self).valences().update(
                dest as int,
                sat_add(old(self).valences()[dest as int], old(self).valences()[source as int]),
            ),
            final(self).context() == old(self).context(),
            final(self).context_lists() == old(self).context_lists(),
            final(self).unread() == old(self).unread(),
            final(self).last() == old(self).last(),
            final(self).streams() == old(self).streams(),
    {
        let v = self.vertex_valences[dest].saturating_add(self.vertex_valences[source]);
        self.vertex_valences.set(dest, v);
    }

    fn decode_start_face_config(&mut self) -> (b: bool)
        ensures
            (b, final(self).streams().start_face_state().0, final(self).streams().start_face_state().1) == rabs_step(
                old(self).streams().start_face_state().0,
                old(self).streams().start_face_state().1,
                old(self).streams().start_face_state().2,
            ),
            final(self).streams().start_face_state().2 == old(self).streams().start_face_state().2,
            final(self).streams().seam_states() == old(self).streams().seam_states(),
            final(self).valences() == old(self).valences(),
            final(self).context() == old(self).context(),
            final(self).context_lists() == old(self).context_lists(),
            final(self).unread() == old(self).unread(),
            final(self).last() == old(self).last(),
    {
        let b = self.shared.decode_start_face_config();
        self.configs = Ghost(self.configs@.push(b));
        b
    }

    fn decode_attribute_seams(
        &mut self,
        opposite: &[usize],
        num_faces: usize,
        c2v: &[usize],
        num_vertices: usize,
    ) -> (r: (Vec<u8>, Vec<SeamStats>)) {
        self.shared.decode_attribute_seams(opposite, num_faces, c2v, num_vertices)
    }
}

} // verus!
