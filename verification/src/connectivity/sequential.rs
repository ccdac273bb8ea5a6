//! Sequential connectivity: face indices stored directly, or as
//! entropy-coded deltas of the flattened index sequence.

use vstd::prelude::*;
use crate::entropy::{decode_symbols, symbols_parse};
use crate::error::{DecodeError, ReaderErr};
use crate::metadata::leb;
use crate::reader::{le16, le32, leb128_read, lemma_leb128_len, Reader};

verus! {

/// The index-storage method id of entropy-coded deltas.
pub const METHOD_COMPRESSED: u8 = 0;

/// The index-storage method id of verbatim indices.
pub const METHOD_DIRECT: u8 = 1;

/// The point count from which verbatim indices are 32-bit words rather than
/// LEB128 numbers.
pub const VARINT_THRESHOLD: usize = 0x20_0000;

/// Face indices over a flat point space.
pub struct SequentialConnectivity {
    /// The faces as point-index triples.
    pub faces: Vec<[usize; 3]>,
    /// The number of points the faces index into.
    pub num_points: usize,
}

/// The faces of `v` read three indices at a time.
pub open spec fn faces_of(v: Seq<usize>) -> Seq<[usize; 3]> {
    Seq::new(v.len() / 3, |f: int| [v[3 * f], v[3 * f + 1], v[3 * f + 2]])
}

/// One verbatim index at the start of `s`, in the width `num_points` calls
/// for, and the bytes it spans.
pub open spec fn direct_index(s: Seq<u8>, num_points: nat) -> Option<(usize, nat)> {
    if num_points < 256 {
        if s.len() < 1 {
            None
        } else {
            Some((s[0] as usize, 1))
        }
    } else if num_points < 0x1_0000 {
        if s.len() < 2 {
            None
        } else {
            Some((le16(s[0], s[1]) as usize, 2))
        }
    } else if num_points < VARINT_THRESHOLD {
        match leb(s) {
            Some((a, v)) => Some((v as usize, a)),
            None => None,
        }
    } else {
        if s.len() < 4 {
            None
        } else {
            Some((le32(s[0], s[1], s[2], s[3]) as usize, 4))
        }
    }
}

/// `n` verbatim indices at the start of `s`.
pub open spec fn direct_indices(s: Seq<u8>, n: nat, num_points: nat) -> Option<(Seq<usize>, nat)>
    decreases n,
{
    if n == 0 {
        Some((Seq::empty(), 0))
    } else {
        match direct_index(s, num_points) {
            Some((v, a)) => match direct_indices(s.skip(a as int), (n - 1) as nat, num_points) {
                Some((vs, b)) => Some((seq![v] + vs, a + b)),
                None => None,
            },
            None => None,
        }
    }
}

/// The signed delta coded by `e`: its upper bits as the magnitude, its low
/// bit as the sign.
pub open spec fn delta_of(e: u64) -> int {
    if e % 2 == 1 {
        -((e / 2) as int)
    } else {
        (e / 2) as int
    }
}

/// The running sums of the deltas coded by `v`, starting from `last`; `None`
/// as soon as a sum is negative.
pub open spec fn delta_sums(v: Seq<u64>, last: int) -> Option<Seq<int>>
    decreases v.len(),
{
    if v.len() == 0 {
        Some(Seq::empty())
    } else {
        let next = last + delta_of(v[0]);
        if next < 0 {
            None
        } else {
            match delta_sums(v.drop_first(), next) {
                Some(rest) => Some(seq![next] + rest),
                None => None,
            }
        }
    }
}

/// The code the encoder writes for index delta `d`: its magnitude shifted
/// up by one, with the low bit set for a negative delta.
pub open spec fn delta_code(d: int) -> u64 {
    if d < 0 {
        (-d * 2 + 1) as u64
    } else {
        (d * 2) as u64
    }
}

/// The codes of the deltas between consecutive indices of `idx`, the first
/// taken from `last`.
pub open spec fn delta_codes(idx: Seq<int>, last: int) -> Seq<u64> {
    Seq::new(idx.len(), |i: int| delta_code(idx[i] - (if i == 0 { last } else { idx[i - 1] })))
}

/// Coding the deltas of any sequence of face indices and accumulating them
/// again from `last` gives the indices back: each decoded index is the one
/// before it plus its delta.
pub proof fn lemma_delta_sums_decode_codes(idx: Seq<int>, last: int)
    requires
        0 <= last <= i64::MAX,
        forall|i: int| 0 <= i < idx.len() ==> 0 <= #[trigger] idx[i] <= i64::MAX,
    ensures
        delta_sums(delta_codes(idx, last), last) == Some(idx),
        delta_sums_fit(delta_codes(idx, last), last),
    decreases idx.len(),
{
    let v = delta_codes(idx, last);
    if idx.len() > 0 {
        let d = idx[0] - last;
        assert(v[0] == delta_code(d));
        assert(delta_of(delta_code(d)) == d);
        let rest = idx.drop_first();
        assert forall|i: int| 0 <= i < rest.len() implies 0 <= #[trigger] rest[i] <= i64::MAX by {
            assert(rest[i] == idx[i + 1]);
        }
        assert(v.drop_first() =~= delta_codes(rest, idx[0]));
        lemma_delta_sums_decode_codes(rest, idx[0]);
        assert(seq![idx[0]] + rest =~= idx);
    } else {
        assert(idx =~= Seq::<int>::empty());
    }
}

/// `v` with each value taken as a `usize`.
pub open spec fn usize_seq(v: Seq<int>) -> Seq<usize> {
    Seq::new(v.len(), |i: int| v[i] as usize)
}

/// Whether every running sum up to the first negative one fits in an `i64`.
pub open spec fn delta_sums_fit(v: Seq<u64>, last: int) -> bool
    decreases v.len(),
{
    v.len() == 0 || {
        let next = last + delta_of(v[0]);
        next <= i64::MAX && (next < 0 || delta_sums_fit(v.drop_first(), next))
    }
}

/// The section header of a sequential stream: face count, point count (each
/// a LEB128 number taken as `usize`) and the bytes they span.
pub open spec fn counts_parse(s: Seq<u8>) -> Option<(usize, usize, nat)> {
    match leb(s) {
        Some((a, nf)) => match leb(s.skip(a as int)) {
            Some((b, np)) => Some((nf as usize, np as usize, a + b)),
            None => None,
        },
        None => None,
    }
}

/// How a sequential connectivity section at the start of `s` decodes: the
/// flattened indices, the point count and the bytes read, or `None` when
/// the decoder fails.
pub open spec fn sequential_parse(s: Seq<u8>) -> Option<(Seq<usize>, usize, nat)> {
    match counts_parse(s) {
        Some((nf, np, a)) => {
            let rest = s.skip(a as int);
            if nf > rest.len() / 3 || rest.len() < 1 {
                None
            } else if rest[0] == METHOD_DIRECT {
                match direct_indices(rest.skip(1), (3 * nf) as nat, np as nat) {
                    Some((v, b)) => Some((v, np, a + 1 + b)),
                    None => None,
                }
            } else if rest[0] == METHOD_COMPRESSED {
                match symbols_parse(rest.skip(1), (3 * nf) as nat, 1) {
                    Some((v, b)) => match delta_sums(v, 0) {
                        Some(sums) => Some((usize_seq(sums), np, a + 1 + b)),
                        None => None,
                    },
                    None => None,
                }
            } else {
                None
            }
        },
        None => None,
    }
}

/// Whether decoding the section at the start of `s` keeps its running index
/// sums within `i64`.
pub open spec fn sequential_fits(s: Seq<u8>) -> bool {
    match counts_parse(s) {
        Some((nf, np, a)) => {
            let rest = s.skip(a as int);
            rest.len() >= 1 && rest[0] == METHOD_COMPRESSED && nf <= rest.len() / 3 ==> match symbols_parse(rest.skip(1), (3 * nf) as nat, 1) {
                Some((v, b)) => delta_sums_fit(v, 0),
                None => true,
            }
        },
        None => true,
    }
}

/// Skipping `a` then `b` bytes is skipping `a + b` bytes.
proof fn lemma_skip_skip(s: Seq<u8>, a: int, b: int)
    requires
        0 <= a,
        0 <= b,
        a + b <= s.len(),
    ensures
        s.skip(a).skip(b) == s.skip(a + b),
{
    assert(s.skip(a).skip(b) =~= s.skip(a + b));
}

/// Reads one verbatim index in the width the point count calls for.
fn read_direct_index(reader: &mut Reader<'_>, num_points: usize) -> (r: Result<usize, DecodeError>)
    ensures
        match direct_index(old(reader).rest(), num_points as nat) {
            Some((v, a)) => r == Ok::<usize, DecodeError>(v) && a <= old(reader).rest().len()
                && final(reader).rest() == old(reader).rest().skip(a as int),
            None => r is Err,
        },
{
    let ghost s0 = reader.rest();
    if num_points < 256 {
        match reader.read_u8() {
            Ok(b) => Ok(b as usize),
            Err(e) => Err(DecodeError::Reader(e)),
        }
    } else if num_points < 0x1_0000 {
        match reader.read_u16() {
            Ok(b) => Ok(b as usize),
            Err(e) => Err(DecodeError::Reader(e)),
        }
    } else if num_points < VARINT_THRESHOLD {
        match leb128_read(reader) {
            Ok(v) => {
                proof {
                    lemma_leb128_len(s0);
                }
                Ok(#[verifier::truncate] (v as usize))
            },
            Err(e) => Err(DecodeError::Reader(e)),
        }
    } else {
        match reader.read_u32() {
            Ok(b) => Ok(b as usize),
            Err(e) => Err(DecodeError::Reader(e)),
        }
    }
}

/// Reads `n` verbatim indices.
fn read_direct_indices(reader: &mut Reader<'_>, n: usize, num_points: usize) -> (r: Result<
    Vec<usize>,
    DecodeError,
>)
    ensures
        match direct_indices(old(reader).rest(), n as nat, num_points as nat) {
            Some((v, a)) => r matches Ok(out) && out@ == v && a <= old(reader).rest().len()
                && final(reader).rest() == old(reader).rest().skip(a as int),
            None => r is Err,
        },
{
    let ghost s0 = reader.rest();
    let ghost mut pos: int = 0;
    let mut out: Vec<usize> = Vec::new();
    let mut i: usize = 0;
    proof {
        assert(s0.skip(0) == s0);
    }
    while i < n
        invariant
            i <= n,
            s0 == old(reader).rest(),
            0 <= pos <= s0.len(),
            reader.rest() == s0.skip(pos),
            direct_indices(s0, n as nat, num_points as nat) == match direct_indices(
                reader.rest(),
                (n - i) as nat,
                num_points as nat,
            ) {
                Some((vs, b)) => Some((out@ + vs, (pos + b) as nat)),
                None => None::<(Seq<usize>, nat)>,
            },
        decreases n - i,
    {
        let ghost cur = reader.rest();
        let v = read_direct_index(reader, num_points)?;
        proof {
            let (_, a) = direct_index(cur, num_points as nat)->0;
            lemma_skip_skip(s0, pos, a as int);
            pos = pos + a;
        }
        let ghost before = out@;
        out.push(v);
        proof {
            let t = direct_indices(reader.rest(), (n - i - 1) as nat, num_points as nat);
            if let Some((vs, b)) = t {
                assert(before + (seq![v] + vs) =~= out@ + vs);
            }
        }
        i += 1;
    }
    proof {
        assert(out@ + Seq::<usize>::empty() =~= out@);
    }
    Ok(out)
}

/// Turns the coded deltas into running sums, failing on a negative sum or
/// on a sum past `i64`.
fn accumulate_deltas(v: &Vec<u64>) -> (r: Result<Vec<usize>, DecodeError>)
    ensures
        !delta_sums_fit(v@, 0) ==> r == Err::<Vec<usize>, DecodeError>(
            DecodeError::MalformedConnectivity("face index overflow"),
        ),
        delta_sums_fit(v@, 0) ==> match delta_sums(v@, 0) {
            Some(sums) => r matches Ok(out) && out@ == usize_seq(sums),
            None => r is Err,
        },
{
    let mut out: Vec<usize> = Vec::new();
    let mut last: i64 = 0;
    let mut i: usize = 0;
    let ghost mut acc: Seq<int> = Seq::empty();
    proof {
        assert(v@.skip(0) =~= v@);
        assert(acc + Seq::<int>::empty() =~= acc);
    }
    while i < v.len()
        invariant
            i <= v@.len(),
            last >= 0,
            out@ == usize_seq(acc),
            delta_sums_fit(v@, 0) == delta_sums_fit(v@.skip(i as int), last as int),
            delta_sums(v@, 0) == match delta_sums(v@.skip(i as int), last as int) {
                Some(rest) => Some(acc + rest),
                None => None::<Seq<int>>,
            },
        decreases v.len() - i,
    {
        let ghost tail = v@.skip(i as int);
        let encoded = v[i];
        let magnitude = (encoded / 2) as i64;
        proof {
            assert(tail[0] == encoded);
            assert(tail.drop_first() =~= v@.skip(i + 1));
        }
        if encoded % 2 == 1 {
            last = last - magnitude;
        } else {
            last = match last.checked_add(magnitude) {
                Some(x) => x,
                None => return Err(DecodeError::MalformedConnectivity("face index overflow")),
            };
        }
        if last < 0 {
            return Err(DecodeError::MalformedConnectivity("negative face index"));
        }
        let ghost before = acc;
        out.push(#[verifier::truncate] (last as usize));
        proof {
            acc = acc.push(last as int);
            assert(out@ =~= usize_seq(acc));
            if let Some(rest) = delta_sums(v@.skip(i + 1), last as int) {
                assert(before + (seq![last as int] + rest) =~= acc + rest);
            }
        }
        i += 1;
    }
    proof {
        assert(v@.skip(i as int).len() == 0);
        assert(acc + Seq::<int>::empty() =~= acc);
    }
    Ok(out)
}

/// Groups flattened indices into faces.
fn group_faces(v: &Vec<usize>) -> (faces: Vec<[usize; 3]>)
    ensures
        faces@ == faces_of(v@),
{
    let mut faces: Vec<[usize; 3]> = Vec::new();
    let len = v.len();
    let n = len / 3;
    let mut f: usize = 0;
    assert(3 * n <= v@.len()) by (nonlinear_arith)
        requires
            n == v@.len() / 3,
    ;
    while f < n
        invariant
            f <= n,
            n == v@.len() / 3,
            3 * n <= v@.len(),
            len == v@.len(),
            faces@ == faces_of(v@).take(f as int),
        decreases n - f,
    {
        let base = 3 * f;
        let a = v[base];
        let b = v[base + 1];
        let c = v[base + 2];
        faces.push([a, b, c]);
        proof {
            assert(faces@ =~= faces_of(v@).take(f + 1));
        }
        f += 1;
    }
    proof {
        assert(faces@ =~= faces_of(v@));
    }
    faces
}

/// Decodes sequential connectivity, leaving the reader at the attribute
/// section.
pub fn decode(reader: &mut Reader<'_>) -> (r: Result<SequentialConnectivity, DecodeError>)
    ensures
        !sequential_fits(old(reader).rest()) ==> r == Err::<SequentialConnectivity, DecodeError>(
            DecodeError::MalformedConnectivity("face index overflow"),
        ),
        sequential_fits(old(reader).rest()) ==> match sequential_parse(old(reader).rest()) {
            Some((v, np, k)) => r matches Ok(c) && c.faces@ == faces_of(v) && c.num_points == np
                && final(reader).rest() == old(reader).rest().skip(k as int),
            None => r is Err,
        },
{
    let ghost s0 = reader.rest();
    let num_faces = match leb128_read(reader) {
        Ok(v) => #[verifier::truncate] (v as usize),
        Err(e) => return Err(DecodeError::Reader(e)),
    };
    proof {
        lemma_leb128_len(s0);
    }
    let ghost s1 = reader.rest();
    let num_points = match leb128_read(reader) {
        Ok(v) => #[verifier::truncate] (v as usize),
        Err(e) => return Err(DecodeError::Reader(e)),
    };
    proof {
        lemma_leb128_len(s1);
        lemma_skip_skip(s0, s0.len() - s1.len(), s1.len() - reader.rest().len());
    }
    let ghost s2 = reader.rest();
    if num_faces > reader.remaining() / 3 {
        return Err(DecodeError::MalformedConnectivity("face count exceeds the stream"));
    }
    let method = match reader.read_u8() {
        Ok(m) => m,
        Err(e) => return Err(DecodeError::Reader(e)),
    };
    let ghost s3 = reader.rest();
    let indices = if method == METHOD_DIRECT {
        read_direct_indices(reader, num_faces * 3, num_points)?
    } else if method == METHOD_COMPRESSED {
        let symbols = decode_symbols(reader, num_faces * 3, 1)?;
        accumulate_deltas(&symbols)?
    } else {
        return Err(DecodeError::MalformedConnectivity("unknown sequential index storage method"));
    };
    proof {
        let k = s3.len() - reader.rest().len();
        lemma_skip_skip(s0, s0.len() - s3.len(), k);
    }
    let faces = group_faces(&indices);
    Ok(SequentialConnectivity { faces, num_points })
}

} // verus!
