//! Attribute-seam streams: how many seam bits a corner table calls for,
//! the length-prefixed rabs buffers that carry them, and the bits
//! themselves.

use vstd::prelude::*;
use crate::decode::corner_table::{DecoderCornerTable, NO_CORNER};
use crate::error::{DecodeError, ReaderErr};
use crate::rans::{rabs_step, state_init, RabsDecoder, L_RANS_BASE};
use crate::reader::{leb128_parse, leb128_read, lemma_leb128_len, Reader, RevReader};

verus! {

/// Whether corner `c` of face `f` carries a seam bit: its edge is interior
/// and the face across it comes later.
pub open spec fn carries_seam_bit(opp: Seq<usize>, f: int, c: int) -> bool {
    opp[c] != NO_CORNER && opp[c] / 3 > f
}

/// The seam bits carried by the corners of face `f`.
pub open spec fn face_seam_bits(opp: Seq<usize>, f: int) -> nat {
    (if carries_seam_bit(opp, f, 3 * f) { 1nat } else { 0nat })
        + (if carries_seam_bit(opp, f, 3 * f + 1) { 1nat } else { 0nat })
        + (if carries_seam_bit(opp, f, 3 * f + 2) { 1nat } else { 0nat })
}

/// The seam bits carried by the first `num_faces` faces.
pub open spec fn seam_bit_count_spec(opp: Seq<usize>, num_faces: nat) -> nat
    decreases num_faces,
{
    if num_faces == 0 {
        0
    } else {
        seam_bit_count_spec(opp, (num_faces - 1) as nat) + face_seam_bits(
            opp,
            num_faces - 1,
        )
    }
}

proof fn lemma_seam_bit_count_bound(opp: Seq<usize>, num_faces: nat)
    ensures
        seam_bit_count_spec(opp, num_faces) <= 3 * num_faces,
    decreases num_faces,
{
    if num_faces > 0 {
        lemma_seam_bit_count_bound(opp, (num_faces - 1) as nat);
    }
}

/// Counts the seam bits the encoder wrote for the first `num_faces` faces:
/// one per interior edge whose opposite face comes later.
pub fn compute_seam_bit_count(ct: &DecoderCornerTable, num_faces: usize) -> (count: usize)
    requires
        3 * num_faces <= ct.opposite@.len(),
    ensures
        count == seam_bit_count_spec(ct.opposite@, num_faces as nat),
{
    let ghost opp = ct.opposite@;
    let _num_corners = ct.opposite.len();
    let mut count: usize = 0;
    let mut f: usize = 0;
    while f < num_faces
        invariant
            f <= num_faces,
            3 * num_faces <= opp.len(),
            opp.len() <= usize::MAX,
            opp == ct.opposite@,
            count == seam_bit_count_spec(opp, f as nat),
        decreases num_faces - f,
    {
        proof {
            lemma_seam_bit_count_bound(opp, f as nat);
        }
        let base = 3 * f;
        let mut c = base;
        let ghost start = count;
        while c < base + 3
            invariant
                base == 3 * f,
                f < num_faces,
                3 * num_faces <= opp.len(),
                opp.len() <= usize::MAX,
                opp == ct.opposite@,
                base <= c <= base + 3,
                start == seam_bit_count_spec(opp, f as nat),
                start <= 3 * f,
                count == start + (if c > base && carries_seam_bit(opp, f as int, base as int) {
                    1int
                } else {
                    0int
                }) + (if c > base + 1 && carries_seam_bit(opp, f as int, base + 1) {
                    1int
                } else {
                    0int
                }) + (if c > base + 2 && carries_seam_bit(opp, f as int, base + 2) {
                    1int
                } else {
                    0int
                }),
            decreases base + 3 - c,
        {
            let opp_c = ct.opposite[c];
            if opp_c != NO_CORNER && opp_c / 3 > f {
                count = count + 1;
            }
            c = c + 1;
        }
        f = f + 1;
    }
    count
}

/// The bits of `n` rabs steps from `state` over the renormalization bytes
/// `s`, zero-bit probability `p0`.
pub open spec fn rabs_bits(state: int, s: Seq<u8>, p0: int, n: nat) -> Seq<bool>
    decreases n,
{
    if n == 0 {
        Seq::empty()
    } else {
        let (b, st, rest) = rabs_step(state, s, p0);
        seq![b] + rabs_bits(st, rest, p0, (n - 1) as nat)
    }
}

/// `n` rabs steps give `n` bits.
pub proof fn lemma_rabs_bits_len(state: int, s: Seq<u8>, p0: int, n: nat)
    ensures
        rabs_bits(state, s, p0, n).len() == n,
    decreases n,
{
    if n > 0 {
        let (b, st, rest) = rabs_step(state, s, p0);
        lemma_rabs_bits_len(st, rest, p0, (n - 1) as nat);
    }
}

/// Decodes `count` seam bits from the rabs buffer `buf` with zero-bit
/// probability `prob_zero`. An empty buffer, or no bits asked for, gives
/// `count` clear bits.
pub fn decode_rabs_seam_bits(prob_zero: u8, buf: &[u8], count: usize) -> (r: Result<
    Vec<bool>,
    DecodeError,
>)
    ensures
        count == 0 || buf@.len() == 0 ==> (r matches Ok(bits) && bits@ == Seq::new(
            count as nat,
            |i: int| false,
        )),
        count > 0 && buf@.len() > 0 ==> match state_init(buf@) {
            Some((v, k)) => (r matches Ok(bits) && bits@ == rabs_bits(
                v + L_RANS_BASE,
                buf@.take(buf@.len() - k),
                prob_zero as int,
                count as nat,
            )),
            None => r == Err::<Vec<bool>, DecodeError>(
                DecodeError::Reader(ReaderErr::NotEnoughData),
            ),
        },
{
    if count == 0 || buf.len() == 0 {
        let mut bits: Vec<bool> = Vec::new();
        let mut i: usize = 0;
        while i < count
            invariant
                i <= count,
                bits@ == Seq::new(i as nat, |j: int| false),
            decreases count - i,
        {
            bits.push(false);
            i = i + 1;
            assert(bits@ =~= Seq::new(i as nat, |j: int| false));
        }
        return Ok(bits);
    }
    let mut rabs = RabsDecoder::new(RevReader::new(buf), prob_zero)?;
    let ghost total = rabs_bits(rabs.state(), rabs.rest(), prob_zero as int, count as nat);
    let mut bits: Vec<bool> = Vec::new();
    let mut i: usize = 0;
    while i < count
        invariant
            i <= count,
            rabs.wf(),
            rabs.prob_zero() == prob_zero as int,
            bits@ + rabs_bits(rabs.state(), rabs.rest(), prob_zero as int, (count - i) as nat)
                == total,
        decreases count - i,
    {
        let ghost before = rabs;
        let b = rabs.decode_bit();
        proof {
            let tail = rabs_bits(rabs.state(), rabs.rest(), prob_zero as int, (count - i - 1) as nat);
            assert(rabs_bits(before.state(), before.rest(), prob_zero as int, (count - i) as nat)
                == seq![b] + tail);
            assert(bits@.push(b) + tail =~= bits@ + (seq![b] + tail));
        }
        bits.push(b);
        i = i + 1;
    }
    assert(bits@ =~= total);
    Ok(bits)
}

/// One `[prob_zero | LEB128 length | bytes]` record at the start of `s`,
/// with the number of bytes it spans.
pub open spec fn prob_buffer_parse(s: Seq<u8>) -> Result<((u8, Seq<u8>), nat), ReaderErr> {
    if s.len() == 0 {
        Err(ReaderErr::NotEnoughData)
    } else {
        match leb128_parse(s.skip(1)) {
            None => Err(ReaderErr::NotEnoughData),
            Some((n, v)) => if n > 10 || v > u64::MAX {
                Err(ReaderErr::VarintOverflow)
            } else if v > s.len() - 1 - n {
                Err(ReaderErr::NotEnoughData)
            } else {
                Ok(((s[0], s.skip(1 + n as int).take(v as int)), 1 + n + v))
            },
        }
    }
}

/// `n` consecutive records at the start of `s`, with the bytes they span;
/// the first failing record's error otherwise.
pub open spec fn prob_buffers_parse(s: Seq<u8>, n: nat) -> Result<
    (Seq<(u8, Seq<u8>)>, nat),
    ReaderErr,
>
    decreases n,
{
    if n == 0 {
        Ok((Seq::empty(), 0))
    } else {
        match prob_buffer_parse(s) {
            Err(e) => Err(e),
            Ok((rec, k)) => match prob_buffers_parse(s.skip(k as int), (n - 1) as nat) {
                Err(e) => Err(e),
                Ok((recs, k2)) => Ok((seq![rec] + recs, k + k2)),
            },
        }
    }
}

/// The records as plain values.
pub open spec fn records_view(v: Seq<(u8, Vec<u8>)>) -> Seq<(u8, Seq<u8>)> {
    v.map_values(|p: (u8, Vec<u8>)| (p.0, p.1@))
}

/// Reads one `[prob_zero | LEB128 length | bytes]` record.
fn read_buffer_with_prob(reader: &mut Reader<'_>) -> (r: Result<(u8, Vec<u8>), ReaderErr>)
    ensures
        match prob_buffer_parse(old(reader).rest()) {
            Ok((rec, k)) => (r matches Ok(p) && (p.0, p.1@) == rec && k <= old(reader).rest().len()
                && final(reader).rest() == old(reader).rest().skip(k as int)),
            Err(e) => r == Err::<(u8, Vec<u8>), ReaderErr>(e),
        },
{
    let ghost s0 = reader.rest();
    let prob_zero = reader.read_u8()?;
    let ghost s1 = reader.rest();
    proof {
        lemma_leb128_len(s1);
        assert(s0.skip(1) == s1);
    }
    let len = leb128_read(reader)?;
    let ghost s2 = reader.rest();
    if len > reader.remaining() as u64 {
        return Err(ReaderErr::NotEnoughData);
    }
    let bytes = reader.read_bytes(len as usize)?;
    proof {
        assert(s1 == s0.skip(1));
        let (n, v) = leb128_parse(s1)->0;
        assert(s2 == s1.skip(n as int));
        assert(s0.skip(1 + n as int) =~= s1.skip(n as int));
        assert(reader.rest() =~= s0.skip((1 + n + v) as int));
    }
    Ok((prob_zero, slice_to_vec_u8(bytes)))
}

/// Copies a byte slice into a vector.
fn slice_to_vec_u8(s: &[u8]) -> (v: Vec<u8>)
    ensures
        v@ == s@,
{
    let mut v: Vec<u8> = Vec::new();
    let mut i: usize = 0;
    while i < s.len()
        invariant
            i <= s@.len(),
            v@ == s@.take(i as int),
        decreases s.len() - i,
    {
        v.push(s[i]);
        i = i + 1;
        assert(v@ =~= s@.take(i as int));
    }
    assert(v@ =~= s@);
    v
}

/// Reads `n` seam-stream records, one per attribute.
pub fn read_attribute_seams(reader: &mut Reader<'_>, n: usize) -> (r: Result<
    Vec<(u8, Vec<u8>)>,
    DecodeError,
>)
    ensures
        match prob_buffers_parse(old(reader).rest(), n as nat) {
            Ok((recs, k)) => (r matches Ok(all) && records_view(all@) == recs
                && final(reader).rest() == old(reader).rest().skip(k as int)),
            Err(e) => r == Err::<Vec<(u8, Vec<u8>)>, DecodeError>(DecodeError::Reader(e)),
        },
{
    let ghost s0 = reader.rest();
    let ghost total = prob_buffers_parse(s0, n as nat);
    let mut all: Vec<(u8, Vec<u8>)> = Vec::new();
    let ghost mut used: nat = 0;
    let mut i: usize = 0;
    while i < n
        invariant
            i <= n,
            total == prob_buffers_parse(s0, n as nat),
            s0 == old(reader).rest(),
            used <= s0.len(),
            reader.rest() == s0.skip(used as int),
            match prob_buffers_parse(reader.rest(), (n - i) as nat) {
                Ok((recs, k)) => total == Ok::<(Seq<(u8, Seq<u8>)>, nat), ReaderErr>(
                    (records_view(all@) + recs, used + k),
                ),
                Err(e) => total == Err::<(Seq<(u8, Seq<u8>)>, nat), ReaderErr>(e),
            },
        decreases n - i,
    {
        let ghost cur = reader.rest();
        let rec = match read_buffer_with_prob(reader) {
            Ok(p) => p,
            Err(e) => {
                assert(prob_buffers_parse(cur, (n - i) as nat) == Err::<
                    (Seq<(u8, Seq<u8>)>, nat),
                    ReaderErr,
                >(e));
                return Err(DecodeError::Reader(e));
            },
        };
        proof {
            let (pr, k) = prob_buffer_parse(cur)->Ok_0;
            assert(cur.skip(k as int) =~= s0.skip((used + k) as int));
            assert(records_view(all@.push(rec)) =~= records_view(all@).push(pr));
            match prob_buffers_parse(cur.skip(k as int), (n - i - 1) as nat) {
                Ok((recs, k2)) => {
                    assert(records_view(all@).push(pr) + recs =~= records_view(all@) + (seq![pr]
                        + recs));
                },
                Err(e) => {},
            }
            used = used + k;
        }
        all.push(rec);
        i = i + 1;
    }
    proof {
        assert(records_view(all@) + Seq::<(u8, Seq<u8>)>::empty() =~= records_view(all@));
    }
    Ok(all)
}

} // verus!
