//! Metadata section skipping. The section is fully parsed so the reader stays
//! in sync with the stream; the values are not materialized.

use vstd::prelude::*;
use crate::error::{DecodeError, ReaderErr};
use crate::attribute::{leb_value, read_leb};
use crate::reader::{leb128_ok, leb128_parse, lemma_leb128_len, Reader};

verus! {

/// The cap on sub-metadata nesting.
pub const MAX_SUBMETADATA_LEVEL: usize = 1000;

/// The LEB128 number at the start of `s` and its length, when it is a valid
/// 64-bit number.
pub open spec fn leb(s: Seq<u8>) -> Option<(nat, nat)> {
    if leb128_ok(s) {
        leb128_parse(s)
    } else {
        None
    }
}

/// `r` shifted by `p` bytes already consumed.
pub open spec fn res_add(p: int, r: Result<nat, DecodeError>) -> Result<nat, DecodeError> {
    match r {
        Ok(n) => Ok((p + n) as nat),
        Err(e) => Err(e),
    }
}

/// Length of a name at the start of `s`: a length byte, then that many bytes.
pub open spec fn name_len(s: Seq<u8>) -> Result<nat, DecodeError> {
    if s.len() < 1 || s.len() < 1 + s[0] {
        Err(DecodeError::Reader(ReaderErr::NotEnoughData))
    } else {
        Ok((1 + s[0]) as nat)
    }
}

/// Length of `e` name/value entries at the start of `s`, or the error
/// reading them gives; a value must not be empty.
pub open spec fn entries_len(s: Seq<u8>, e: nat) -> Result<nat, DecodeError>
    decreases s.len(),
{
    if e == 0 {
        Ok(0)
    } else {
        match name_len(s) {
            Ok(a) => match leb_value(s.skip(a as int)) {
                Ok((d, b)) => if b == 0 || a + b > s.len() {
                    Err(DecodeError::Reader(ReaderErr::NotEnoughData))
                } else if d == 0 {
                    Err(DecodeError::MalformedMetadata("metadata entry with empty value"))
                } else if d > s.len() - a - b {
                    Err(DecodeError::Reader(ReaderErr::NotEnoughData))
                } else {
                    res_add((a + b + d) as int, entries_len(s.skip((a + b + d) as int), (e - 1) as nat))
                },
                Err(x) => Err(DecodeError::Reader(x)),
            },
            Err(x) => Err(x),
        }
    }
}

/// Length of a metadata block at nesting `level`: a count of entries, the
/// entries, a count of named sub-blocks, the sub-blocks; or the error
/// reading it gives.
pub open spec fn block_len(s: Seq<u8>, level: nat) -> Result<nat, DecodeError>
    decreases s.len(), 1nat,
{
    if level > MAX_SUBMETADATA_LEVEL {
        Err(DecodeError::MalformedMetadata("sub-metadata nested too deeply"))
    } else {
        match leb_value(s) {
            Ok((e, a)) => if a == 0 || a > s.len() {
                Err(DecodeError::Reader(ReaderErr::NotEnoughData))
            } else {
                match entries_len(s.skip(a as int), e) {
                    Ok(b) => if a + b > s.len() {
                        Err(DecodeError::Reader(ReaderErr::NotEnoughData))
                    } else {
                        match leb_value(s.skip((a + b) as int)) {
                            Ok((m, c)) => if c == 0 || a + b + c > s.len() {
                                Err(DecodeError::Reader(ReaderErr::NotEnoughData))
                            } else {
                                res_add((a + b + c) as int, subs_len(s.skip((a + b + c) as int), m, level))
                            },
                            Err(x) => Err(DecodeError::Reader(x)),
                        }
                    },
                    Err(x) => Err(x),
                }
            },
            Err(x) => Err(DecodeError::Reader(x)),
        }
    }
}

/// Length of `m` named sub-blocks at nesting `level + 1`, or the error
/// reading them gives.
pub open spec fn subs_len(s: Seq<u8>, m: nat, level: nat) -> Result<nat, DecodeError>
    decreases s.len(), 0nat,
{
    if m == 0 {
        Ok(0)
    } else {
        match name_len(s) {
            Ok(a) => match block_len(s.skip(a as int), level + 1) {
                Ok(b) => if a + b > s.len() {
                    Err(DecodeError::Reader(ReaderErr::NotEnoughData))
                } else {
                    res_add((a + b) as int, subs_len(s.skip((a + b) as int), (m - 1) as nat, level))
                },
                Err(x) => Err(x),
            },
            Err(x) => Err(x),
        }
    }
}

/// Length of `k` per-attribute metadata blocks (each a LEB128 attribute id,
/// then a block at level 0) at the start of `s`, or the error reading them
/// gives.
pub open spec fn attr_blocks_len(s: Seq<u8>, k: nat) -> Result<nat, DecodeError>
    decreases k,
{
    if k == 0 {
        Ok(0)
    } else {
        match leb_value(s) {
            Ok((_id, a)) => if a > s.len() {
                Err(DecodeError::Reader(ReaderErr::NotEnoughData))
            } else {
                match block_len(s.skip(a as int), 0) {
                    Ok(b) => if a + b > s.len() {
                        Err(DecodeError::Reader(ReaderErr::NotEnoughData))
                    } else {
                        res_add((a + b) as int, attr_blocks_len(s.skip((a + b) as int), (k - 1) as nat))
                    },
                    Err(x) => Err(x),
                }
            },
            Err(x) => Err(DecodeError::Reader(x)),
        }
    }
}

/// Length of the whole geometry metadata section at the start of `s`: a
/// count of attribute blocks, those blocks, then the geometry block; or the
/// error reading it gives.
pub open spec fn section_len(s: Seq<u8>) -> Result<nat, DecodeError> {
    match leb_value(s) {
        Ok((k, a)) => if a > s.len() {
            Err(DecodeError::Reader(ReaderErr::NotEnoughData))
        } else {
            match attr_blocks_len(s.skip(a as int), k) {
                Ok(b) => if a + b > s.len() {
                    Err(DecodeError::Reader(ReaderErr::NotEnoughData))
                } else {
                    res_add((a + b) as int, block_len(s.skip((a + b) as int), 0))
                },
                Err(x) => Err(x),
            }
        },
        Err(x) => Err(DecodeError::Reader(x)),
    }
}

/// Skipping `a` then `b` bytes is skipping `a + b` bytes.
proof fn lemma_skip_skip(s: Seq<u8>, a: int, b: int)
    requires
        0 <= a,
        0 <= b,
        a + b <= s.len(),
    ensures
        s.skip(a).skip(b) == s.skip((a + b) as int),
{
    assert(s.skip(a).skip(b) =~= s.skip((a + b) as int));
}

/// Consumes the geometry metadata section: a LEB128 count of per-attribute
/// metadata blocks, each a LEB128 attribute unique id followed by a metadata
/// block, then the geometry-level metadata block.
pub fn decode_metadata(reader: &mut Reader<'_>) -> (r: Result<(), DecodeError>)
    ensures
        match section_len(old(reader).rest()) {
            Ok(n) => r is Ok && n <= old(reader).rest().len() && final(reader).rest() == old(reader).rest().skip(
                n as int,
            ),
            Err(e) => r == Err::<(), DecodeError>(e),
        },
{
    let ghost s0 = reader.rest();
    proof {
        lemma_leb128_len(s0);
    }
    let num_att_metadata = read_leb(reader)?;
    let ghost s1 = reader.rest();
    let ghost a: int = s0.len() - s1.len();
    skip_attr_blocks(reader, num_att_metadata)?;
    let ghost s2 = reader.rest();
    let ghost b: int = s1.len() - s2.len();
    proof {
        lemma_skip_skip(s0, a, b);
    }
    skip_metadata(reader, 0)?;
    proof {
        let c = block_len(s2, 0)->Ok_0;
        lemma_skip_skip(s0, a + b, c as int);
    }
    Ok(())
}

/// Consumes `k` per-attribute metadata blocks.
fn skip_attr_blocks(reader: &mut Reader<'_>, k: u64) -> (r: Result<(), DecodeError>)
    ensures
        match attr_blocks_len(old(reader).rest(), k as nat) {
            Ok(n) => r is Ok && n <= old(reader).rest().len() && final(reader).rest() == old(reader).rest().skip(
                n as int,
            ),
            Err(e) => r == Err::<(), DecodeError>(e),
        },
{
    let ghost s1 = reader.rest();
    let ghost mut pos: int = 0;
    let mut i: u64 = 0;
    proof {
        assert(s1.skip(0) == s1);
    }
    while i < k
        invariant
            i <= k,
            s1 == old(reader).rest(),
            0 <= pos <= s1.len(),
            reader.rest() == s1.skip(pos),
            attr_blocks_len(s1, k as nat) == res_add(pos, attr_blocks_len(reader.rest(), (k - i) as nat)),
        decreases k - i,
    {
        let ghost cur = reader.rest();
        proof {
            lemma_leb128_len(cur);
        }
        let _id = read_leb(reader)?;
        let ghost mid = reader.rest();
        let ghost a1: int = cur.len() - mid.len();
        skip_metadata(reader, 0)?;
        proof {
            let b1 = block_len(mid, 0)->Ok_0;
            lemma_skip_skip(cur, a1, b1 as int);
            lemma_skip_skip(s1, pos, a1 + b1);
            pos = pos + a1 + b1;
        }
        i = i + 1;
    }
    proof {
        assert(reader.rest() == s1.skip(pos));
    }
    Ok(())
}

/// Consumes one metadata block: a LEB128 count of name/value entries, then a
/// LEB128 count of named sub-metadata blocks, depth-first.
fn skip_metadata(reader: &mut Reader<'_>, level: usize) -> (r: Result<(), DecodeError>)
    ensures
        match block_len(old(reader).rest(), level as nat) {
            Ok(n) => r is Ok && n <= old(reader).rest().len() && final(reader).rest() == old(reader).rest().skip(
                n as int,
            ),
            Err(e) => r == Err::<(), DecodeError>(e),
        },
    decreases MAX_SUBMETADATA_LEVEL + 1 - level, 1nat,
{
    if level > MAX_SUBMETADATA_LEVEL {
        return Err(DecodeError::MalformedMetadata("sub-metadata nested too deeply"));
    }
    let ghost s0 = reader.rest();
    proof {
        lemma_leb128_len(s0);
    }
    let num_entries = read_leb(reader)?;
    let ghost s1 = reader.rest();
    let ghost a: int = s0.len() - s1.len();
    skip_entries(reader, num_entries)?;
    let ghost s2 = reader.rest();
    let ghost b: int = s1.len() - s2.len();
    proof {
        lemma_skip_skip(s0, a, b);
        lemma_leb128_len(s2);
    }
    let num_sub_metadata = read_leb(reader)?;
    let ghost s3 = reader.rest();
    let ghost c: int = s2.len() - s3.len();
    proof {
        lemma_skip_skip(s0, a + b, c);
    }
    skip_subs(reader, num_sub_metadata, level)?;
    proof {
        let d = subs_len(s3, num_sub_metadata as nat, level as nat)->Ok_0;
        lemma_skip_skip(s0, a + b + c, d as int);
    }
    Ok(())
}

/// Consumes `e` name/value entries.
fn skip_entries(reader: &mut Reader<'_>, e: u64) -> (r: Result<(), DecodeError>)
    ensures
        match entries_len(old(reader).rest(), e as nat) {
            Ok(n) => r is Ok && n <= old(reader).rest().len() && final(reader).rest() == old(reader).rest().skip(
                n as int,
            ),
            Err(x) => r == Err::<(), DecodeError>(x),
        },
{
    let ghost s1 = reader.rest();
    let ghost mut pos: int = 0;
    let mut i: u64 = 0;
    proof {
        assert(s1.skip(0) == s1);
    }
    while i < e
        invariant
            i <= e,
            s1 == old(reader).rest(),
            0 <= pos <= s1.len(),
            reader.rest() == s1.skip(pos),
            entries_len(s1, e as nat) == res_add(pos, entries_len(reader.rest(), (e - i) as nat)),
        decreases e - i,
    {
        let ghost cur = reader.rest();
        skip_name(reader)?;
        let ghost mid = reader.rest();
        let ghost na: int = cur.len() - mid.len();
        proof {
            lemma_leb128_len(mid);
        }
        let data_size = read_leb(reader)?;
        let ghost mid2 = reader.rest();
        let ghost nb: int = mid.len() - mid2.len();
        if data_size == 0 {
            return Err(DecodeError::MalformedMetadata("metadata entry with empty value"));
        }
        if data_size > reader.remaining() as u64 {
            return Err(DecodeError::Reader(ReaderErr::NotEnoughData));
        }
        let _ = reader.read_bytes(data_size as usize);
        proof {
            lemma_skip_skip(cur, na, nb);
            lemma_skip_skip(cur, na + nb, data_size as int);
            lemma_skip_skip(s1, pos, na + nb + data_size);
            pos = pos + na + nb + data_size;
        }
        i = i + 1;
    }
    Ok(())
}

/// Consumes `m` named sub-metadata blocks at nesting `level + 1`.
fn skip_subs(reader: &mut Reader<'_>, m: u64, level: usize) -> (r: Result<(), DecodeError>)
    requires
        level <= MAX_SUBMETADATA_LEVEL,
    ensures
        match subs_len(old(reader).rest(), m as nat, level as nat) {
            Ok(n) => r is Ok && n <= old(reader).rest().len() && final(reader).rest() == old(reader).rest().skip(
                n as int,
            ),
            Err(e) => r == Err::<(), DecodeError>(e),
        },
    decreases MAX_SUBMETADATA_LEVEL + 1 - level, 0nat,
{
    let ghost s1 = reader.rest();
    let ghost mut pos: int = 0;
    let mut j: u64 = 0;
    proof {
        assert(s1.skip(0) == s1);
    }
    while j < m
        invariant
            j <= m,
            s1 == old(reader).rest(),
            level <= MAX_SUBMETADATA_LEVEL,
            0 <= pos <= s1.len(),
            reader.rest() == s1.skip(pos),
            subs_len(s1, m as nat, level as nat) == res_add(pos, subs_len(reader.rest(), (m - j) as nat, level as nat)),
        decreases m - j,
    {
        let ghost cur = reader.rest();
        skip_name(reader)?;
        let ghost mid = reader.rest();
        let ghost na: int = cur.len() - mid.len();
        skip_metadata(reader, level + 1)?;
        proof {
            let nb = block_len(mid, (level + 1) as nat)->Ok_0;
            lemma_skip_skip(cur, na, nb as int);
            lemma_skip_skip(s1, pos, na + nb);
            pos = pos + na + nb;
        }
        j = j + 1;
    }
    Ok(())
}

/// Consumes a length-prefixed name: a byte length, then that many bytes.
fn skip_name(reader: &mut Reader<'_>) -> (r: Result<(), DecodeError>)
    ensures
        match name_len(old(reader).rest()) {
            Ok(n) => r is Ok && n <= old(reader).rest().len() && final(reader).rest() == old(reader).rest().skip(
                n as int,
            ),
            Err(e) => r == Err::<(), DecodeError>(e),
        },
{
    let ghost s0 = reader.rest();
    let len = match reader.read_u8() {
        Ok(v) => v,
        Err(e) => return Err(DecodeError::Reader(e)),
    };
    match reader.read_bytes(len as usize) {
        Ok(_) => {
            proof {
                lemma_skip_skip(s0, 1, len as int);
            }
            Ok(())
        },
        Err(e) => Err(DecodeError::Reader(e)),
    }
}

} // verus!
