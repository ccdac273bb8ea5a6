//! Decode-side prediction metadata: scheme ids, normal flips, texture
//! coordinate orientations and parallelogram creases, each a rabs bit
//! stream.

use vstd::prelude::*;
use crate::decode::seams::{lemma_rabs_bits_len, rabs_bits};
use crate::error::{DecodeError, ReaderErr};
use crate::rans::{state_init, RabsDecoder, L_RANS_BASE};
use crate::reader::{le32, leb128_parse, leb128_read, lemma_leb128_len, Reader, RevReader};

verus! {

/// The most parallelograms a constrained multi-parallelogram prediction
/// combines; one crease context per count.
pub const MAX_PARALLELOGRAMS: usize = 4;

/// The prediction schemes of the attribute stream.
#[derive(Debug, Clone, Copy, PartialEq, Eq, Structural)]
pub enum PredictionSchemeType {
    DeltaPrediction,
    MeshParallelogramPrediction,
    MeshMultiParallelogramPrediction,
    MeshConstrainedMultiParallelogramPrediction,
    MeshPredictionForTextureCoordinates,
    MeshNormalPrediction,
    DerivativePrediction,
    NoPrediction,
}

/// The scheme that wire id `id` names.
pub open spec fn scheme_of(id: u8) -> Option<PredictionSchemeType> {
    if id == 0 {
        Some(PredictionSchemeType::DeltaPrediction)
    } else if id == 1 {
        Some(PredictionSchemeType::MeshParallelogramPrediction)
    } else if id == 2 {
        Some(PredictionSchemeType::MeshMultiParallelogramPrediction)
    } else if id == 4 {
        Some(PredictionSchemeType::MeshConstrainedMultiParallelogramPrediction)
    } else if id == 5 {
        Some(PredictionSchemeType::MeshPredictionForTextureCoordinates)
    } else if id == 6 {
        Some(PredictionSchemeType::MeshNormalPrediction)
    } else if id == 7 {
        Some(PredictionSchemeType::DerivativePrediction)
    } else if id == 0xFE {
        Some(PredictionSchemeType::NoPrediction)
    } else {
        None
    }
}

/// Parses the prediction scheme id byte.
pub fn read_scheme_id(reader: &mut Reader<'_>) -> (r: Result<PredictionSchemeType, DecodeError>)
    ensures
        old(reader).rest().len() == 0 ==> r == Err::<PredictionSchemeType, DecodeError>(
            DecodeError::Reader(ReaderErr::NotEnoughData),
        ),
        old(reader).rest().len() > 0 ==> match scheme_of(old(reader).rest()[0]) {
            Some(t) => r == Ok::<PredictionSchemeType, DecodeError>(t) && final(reader).rest()
                == old(reader).rest().skip(1),
            None => r == Err::<PredictionSchemeType, DecodeError>(
                DecodeError::MalformedAttribute("unknown prediction scheme id"),
            ),
        },
{
    let id = match reader.read_u8() {
        Ok(b) => b,
        Err(e) => return Err(DecodeError::Reader(e)),
    };
    match id {
        0 => Ok(PredictionSchemeType::DeltaPrediction),
        1 => Ok(PredictionSchemeType::MeshParallelogramPrediction),
        2 => Ok(PredictionSchemeType::MeshMultiParallelogramPrediction),
        4 => Ok(PredictionSchemeType::MeshConstrainedMultiParallelogramPrediction),
        5 => Ok(PredictionSchemeType::MeshPredictionForTextureCoordinates),
        6 => Ok(PredictionSchemeType::MeshNormalPrediction),
        7 => Ok(PredictionSchemeType::DerivativePrediction),
        0xFE => Ok(PredictionSchemeType::NoPrediction),
        _ => Err(DecodeError::MalformedAttribute("unknown prediction scheme id")),
    }
}

/// A `[LEB128 length | bytes]` sub-stream at the start of `s`: the bytes
/// and the bytes the record spans.
pub open spec fn substream_parse(s: Seq<u8>) -> Result<(Seq<u8>, nat), DecodeError> {
    match leb128_parse(s) {
        None => Err(DecodeError::Reader(ReaderErr::NotEnoughData)),
        Some((n, v)) => if n > 10 || v > u64::MAX {
            Err(DecodeError::Reader(ReaderErr::VarintOverflow))
        } else if v > s.len() - n {
            Err(DecodeError::Reader(ReaderErr::NotEnoughData))
        } else {
            Ok((s.skip(n as int).take(v as int), n + v))
        },
    }
}

/// A rabs decoder over the sub-stream at the start of `s` with zero-bit
/// probability `p0`: its initial state, its renormalization bytes, and the
/// bytes the sub-stream spans.
pub open spec fn rabs_start(s: Seq<u8>) -> Result<(int, Seq<u8>, nat), DecodeError> {
    match substream_parse(s) {
        Err(e) => Err(e),
        Ok((bytes, k)) => match state_init(bytes) {
            None => Err(DecodeError::Reader(ReaderErr::NotEnoughData)),
            Some((v, j)) => Ok((v + L_RANS_BASE, bytes.take(bytes.len() - j), k)),
        },
    }
}

/// Builds a rabs decoder over a `[LEB128 length | bytes]` sub-stream whose
/// probability byte the caller has read.
fn rabs_over_substream<'a>(reader: &mut Reader<'a>, prob_zero: u8) -> (r: Result<
    RabsDecoder<'a>,
    DecodeError,
>)
    ensures
        match rabs_start(old(reader).rest()) {
            Err(e) => r == Err::<RabsDecoder<'a>, DecodeError>(e),
            Ok((st, rest, k)) => (r matches Ok(d) && d.wf() && d.state() == st && d.rest() == rest
                && d.prob_zero() == prob_zero && k <= old(reader).rest().len() && final(reader).rest() == old(reader).rest().skip(k as int)),
        },
{
    let ghost s0 = reader.rest();
    proof {
        lemma_leb128_len(s0);
    }
    let len = match leb128_read(reader) {
        Ok(v) => v,
        Err(e) => return Err(DecodeError::Reader(e)),
    };
    if len > reader.remaining() as u64 {
        return Err(DecodeError::Reader(ReaderErr::NotEnoughData));
    }
    let bytes = match reader.read_bytes(len as usize) {
        Ok(b) => b,
        Err(e) => return Err(DecodeError::Reader(e)),
    };
    proof {
        let (n, v) = leb128_parse(s0)->0;
        assert(reader.rest() =~= s0.skip((n + v) as int));
    }
    RabsDecoder::new(RevReader::new(bytes), prob_zero)
}

/// A probability byte then a sub-stream at the start of `s`: the rabs
/// decoder's initial state, renormalization bytes and zero-bit
/// probability, and the bytes the record spans.
pub open spec fn rabs_record(s: Seq<u8>) -> Result<(int, Seq<u8>, int, nat), DecodeError> {
    if s.len() == 0 {
        Err(DecodeError::Reader(ReaderErr::NotEnoughData))
    } else {
        match rabs_start(s.skip(1)) {
            Err(e) => Err(e),
            Ok((st, rest, k)) => Ok((st, rest, s[0] as int, k + 1)),
        }
    }
}

/// Reads a probability byte and its sub-stream into a rabs decoder.
pub(crate) fn rabs_with_probability<'a>(reader: &mut Reader<'a>) -> (r: Result<RabsDecoder<'a>, DecodeError>)
    ensures
        match rabs_record(old(reader).rest()) {
            Err(e) => r == Err::<RabsDecoder<'a>, DecodeError>(e),
            Ok((st, rest, p0, k)) => (r matches Ok(d) && d.wf() && d.state() == st && d.rest()
                == rest && d.prob_zero() == p0 && k <= old(reader).rest().len() && final(reader).rest() == old(reader).rest().skip(k as int)),
        },
{
    let ghost s0 = reader.rest();
    let zero_prob = match reader.read_u8() {
        Ok(b) => b,
        Err(e) => return Err(DecodeError::Reader(e)),
    };
    let d = rabs_over_substream(reader, zero_prob);
    proof {
        if let Ok((st, rest, k)) = rabs_start(s0.skip(1)) {
            assert(s0.skip(1).skip(k as int) =~= s0.skip((k + 1) as int));
        }
    }
    d
}

/// Decodes `n` bits from a rabs decoder.
fn decode_bits(rabs: &mut RabsDecoder<'_>, n: usize) -> (bits: Vec<bool>)
    requires
        old(rabs).wf(),
    ensures
        bits@ == rabs_bits(old(rabs).state(), old(rabs).rest(), old(rabs).prob_zero(), n as nat),
{
    let ghost p0 = rabs.prob_zero();
    let ghost total = rabs_bits(rabs.state(), rabs.rest(), p0, n as nat);
    let mut bits: Vec<bool> = Vec::new();
    let mut i: usize = 0;
    while i < n
        invariant
            i <= n,
            rabs.wf(),
            rabs.prob_zero() == p0,
            bits@ + rabs_bits(rabs.state(), rabs.rest(), p0, (n - i) as nat) == total,
        decreases n - i,
    {
        let ghost before = *rabs;
        let b = rabs.decode_bit();
        proof {
            let tail = rabs_bits(rabs.state(), rabs.rest(), p0, (n - i - 1) as nat);
            assert(rabs_bits(before.state(), before.rest(), p0, (n - i) as nat) == seq![b] + tail);
            assert(bits@.push(b) + tail =~= bits@ + (seq![b] + tail));
        }
        bits.push(b);
        i = i + 1;
    }
    assert(bits@ =~= total);
    bits
}

/// Decodes the normal-prediction flip metadata: one bit per value.
pub fn decode_flip_metadata(reader: &mut Reader<'_>, num_values: usize) -> (r: Result<
    Vec<bool>,
    DecodeError,
>)
    ensures
        match rabs_record(old(reader).rest()) {
            Err(e) => r == Err::<Vec<bool>, DecodeError>(e),
            Ok((st, rest, p0, k)) => (r matches Ok(bits) && bits@ == rabs_bits(
                st,
                rest,
                p0,
                num_values as nat,
            ) && k <= old(reader).rest().len() && final(reader).rest() == old(reader).rest().skip(
                k as int,
            )),
        },
{
    let mut rabs = rabs_with_probability(reader)?;
    Ok(decode_bits(&mut rabs, num_values))
}

/// Running orientations from delta bits: a clear bit flips the running
/// value, which starts at `true`, and every bit records it.
pub open spec fn orientations(bits: Seq<bool>) -> Seq<bool>
    decreases bits.len(),
{
    if bits.len() == 0 {
        Seq::empty()
    } else {
        let prev = orientations(bits.drop_last());
        let last = if prev.len() == 0 {
            true
        } else {
            prev.last()
        };
        prev.push(if bits.last() { last } else { !last })
    }
}

proof fn lemma_orientations_len(bits: Seq<bool>)
    ensures
        orientations(bits).len() == bits.len(),
    decreases bits.len(),
{
    if bits.len() > 0 {
        lemma_orientations_len(bits.drop_last());
    }
}

/// Decodes the texture-coordinate orientation metadata: a u32 count, then
/// one delta-coded bit per orientation.
pub fn decode_orientation_metadata(reader: &mut Reader<'_>) -> (r: Result<Vec<bool>, DecodeError>)
    ensures
        old(reader).rest().len() < 4 ==> r == Err::<Vec<bool>, DecodeError>(
            DecodeError::Reader(ReaderErr::NotEnoughData),
        ),
        old(reader).rest().len() >= 4 ==> ({
            let s = old(reader).rest();
            let count = le32(s[0], s[1], s[2], s[3]);
            match rabs_record(s.skip(4)) {
                Err(e) => r == Err::<Vec<bool>, DecodeError>(e),
                Ok((st, rest, p0, k)) => (r matches Ok(o) && o@ == orientations(
                    rabs_bits(st, rest, p0, count as nat),
                ) && 4 + k <= s.len() && final(reader).rest() == s.skip((4 + k) as int)),
            }
        }),
{
    let ghost s0 = reader.rest();
    let count = match reader.read_u32() {
        Ok(v) => v as usize,
        Err(e) => return Err(DecodeError::Reader(e)),
    };
    let mut rabs = rabs_with_probability(reader)?;
    proof {
        let (st, rest, p0, k) = rabs_record(s0.skip(4))->Ok_0;
        assert(s0.skip(4).skip(k as int) =~= s0.skip((4 + k) as int));
    }
    let bits = decode_bits(&mut rabs, count);
    proof {
        let (st, rest, p0, k) = rabs_record(old(reader).rest().skip(4))->Ok_0;
        lemma_rabs_bits_len(st, rest, p0, count as nat);
    }
    let mut last = true;
    let mut out: Vec<bool> = Vec::new();
    let mut i: usize = 0;
    while i < count
        invariant
            i <= count,
            bits@.len() == count,
            out@ == orientations(bits@.take(i as int)),
            last == if i == 0 {
                true
            } else {
                out@.last()
            },
        decreases count - i,
    {
        proof {
            assert(bits@.take(i + 1).drop_last() =~= bits@.take(i as int));
            lemma_orientations_len(bits@.take(i as int));
        }
        if !bits[i] {
            last = !last;
        }
        out.push(last);
        i = i + 1;
    }
    proof {
        assert(bits@.take(count as int) =~= bits@);
    }
    Ok(out)
}

/// The crease contexts `i..MAX_PARALLELOGRAMS` at the start of `s`: each a
/// LEB128 bit count, at most `(i + 1)` bits per value, and when non-zero a
/// probability byte and a rabs sub-stream; with the bytes they span.
pub open spec fn crease_parse(s: Seq<u8>, num_values: nat, i: nat) -> Result<
    (Seq<Seq<bool>>, nat),
    DecodeError,
>
    decreases MAX_PARALLELOGRAMS - i,
{
    if i >= MAX_PARALLELOGRAMS {
        Ok((Seq::empty(), 0))
    } else {
        match leb128_parse(s) {
            None => Err(DecodeError::Reader(ReaderErr::NotEnoughData)),
            Some((n, count)) => if n > 10 || count > u64::MAX {
                Err(DecodeError::Reader(ReaderErr::VarintOverflow))
            } else if count > num_values * (i + 1) {
                Err(
                    DecodeError::MalformedAttribute(
                        "crease bit count exceeds the attribute's value count",
                    ),
                )
            } else if count == 0 {
                match crease_parse(s.skip(n as int), num_values, i + 1) {
                    Err(e) => Err(e),
                    Ok((rest, k)) => Ok((seq![Seq::<bool>::empty()] + rest, n + k)),
                }
            } else {
                match rabs_record(s.skip(n as int)) {
                    Err(e) => Err(e),
                    Ok((st, bytes, p0, k1)) => match crease_parse(
                        s.skip((n + k1) as int),
                        num_values,
                        i + 1,
                    ) {
                        Err(e) => Err(e),
                        Ok((rest, k2)) => Ok(
                            (seq![rabs_bits(st, bytes, p0, count)] + rest, n + k1 + k2),
                        ),
                    },
                }
            },
        }
    }
}

/// Decodes the constrained multi-parallelogram crease metadata: one rabs
/// bit stream per context, each prefixed by its LEB128 bit count.
#[verifier::rlimit(40)]
pub fn decode_crease_metadata(reader: &mut Reader<'_>, num_values: usize) -> (r: Result<
    Vec<Vec<bool>>,
    DecodeError,
>)
    requires
        num_values * MAX_PARALLELOGRAMS <= usize::MAX,
    ensures
        match crease_parse(old(reader).rest(), num_values as nat, 0) {
            Err(e) => r == Err::<Vec<Vec<bool>>, DecodeError>(e),
            Ok((ctx, k)) => (r matches Ok(out) && out@.len() == MAX_PARALLELOGRAMS && ctx.len()
                == MAX_PARALLELOGRAMS && (forall|i: int|
                0 <= i < MAX_PARALLELOGRAMS ==> (#[trigger] out@[i])@ == ctx[i]) && k <= old(reader).rest().len() && final(reader).rest() == old(reader).rest().skip(k as int)),
        },
{
    let ghost s0 = reader.rest();
    let ghost total = crease_parse(s0, num_values as nat, 0);
    let mut out: Vec<Vec<bool>> = Vec::new();
    let ghost mut used: nat = 0;
    let mut i: usize = 0;
    proof {
        assert(bit_views(out@) =~= Seq::<Seq<bool>>::empty());
        if let Ok((ctx, k)) = total {
            assert(Seq::<Seq<bool>>::empty() + ctx =~= ctx);
        }
    }
    while i < MAX_PARALLELOGRAMS
        invariant
            i <= MAX_PARALLELOGRAMS,
            num_values * MAX_PARALLELOGRAMS <= usize::MAX,
            s0 == old(reader).rest(),
            total == crease_parse(s0, num_values as nat, 0),
            used <= s0.len(),
            reader.rest() == s0.skip(used as int),
            out@.len() == i,
            total == prepend_views(bit_views(out@), used, crease_parse(
                reader.rest(),
                num_values as nat,
                i as nat,
            )),
        decreases MAX_PARALLELOGRAMS - i,
    {
        let ghost cur = reader.rest();
        proof {
            lemma_leb128_len(cur);
        }
        let count_raw = match leb128_read(reader) {
            Ok(v) => v,
            Err(e) => return Err(DecodeError::Reader(e)),
        };
        proof {
            assert((num_values * (i + 1)) <= num_values * MAX_PARALLELOGRAMS) by (nonlinear_arith)
                requires
                    i + 1 <= MAX_PARALLELOGRAMS,
            ;
        }
        let limit = num_values * (i + 1);
        if count_raw > limit as u64 {
            return Err(
                DecodeError::MalformedAttribute(
                    "crease bit count exceeds the attribute's value count",
                ),
            );
        }
        let count = count_raw as usize;
        let ghost (n, cv) = leb128_parse(cur)->0;
        let ghost after_leb = reader.rest();
        assert(after_leb == cur.skip(n as int));
        let bits: Vec<bool> = if count > 0 {
            let mut rabs = match rabs_with_probability(reader) {
                Ok(d) => d,
                Err(e) => return Err(e),
            };
            decode_bits(&mut rabs, count)
        } else {
            Vec::new()
        };
        let ghost next = reader.rest();
        proof {
            if count > 0 {
                let (st, bytes, p0, k1) = rabs_record(after_leb)->Ok_0;
                assert(next == after_leb.skip(k1 as int));
                assert(after_leb.skip(k1 as int) =~= cur.skip((n + k1) as int));
                assert(s0.skip(used as int).skip((n + k1) as int) =~= s0.skip((used + n + k1) as int));
                used = used + n + k1;
            } else {
                assert(bits@ =~= Seq::<bool>::empty());
                assert(s0.skip(used as int).skip(n as int) =~= s0.skip((used + n) as int));
                used = used + n;
            }
        }
        let ghost before = out@;
        out.push(bits);
        proof {
            assert(bit_views(out@) =~= bit_views(before).push(bits@));
            match crease_parse(next, num_values as nat, (i + 1) as nat) {
                Ok((rest, k)) => {
                    assert(bit_views(before).push(bits@) + rest =~= bit_views(before) + (seq![bits@]
                        + rest));
                },
                Err(e) => {},
            }
        }
        i = i + 1;
    }
    proof {
        assert(bit_views(out@) + Seq::<Seq<bool>>::empty() =~= bit_views(out@));
    }
    Ok(out)
}

/// The bit vectors as plain sequences.
pub open spec fn bit_views(v: Seq<Vec<bool>>) -> Seq<Seq<bool>> {
    v.map_values(|b: Vec<bool>| b@)
}

/// The contexts decoded so far, `done` spanning `used` bytes, in front of
/// the parse of the remaining contexts.
pub open spec fn prepend_views(
    done: Seq<Seq<bool>>,
    used: nat,
    rest: Result<(Seq<Seq<bool>>, nat), DecodeError>,
) -> Result<(Seq<Seq<bool>>, nat), DecodeError> {
    match rest {
        Ok((ctx, k)) => Ok((done + ctx, used + k)),
        Err(e) => Err(e),
    }
}

} // verus!
