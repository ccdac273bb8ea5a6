//! Metadata blocks read into owned key/value records.

use vstd::prelude::*;
use vstd::slice::slice_to_vec;
use crate::error::ReaderErr;
use crate::metadata::leb;
use crate::reader::{le32, leb128_read, lemma_leb128_len, Reader};

verus! {

/// Failure while reading metadata records.
#[derive(Debug, Clone, Copy, PartialEq, Eq)]
pub enum MetadataErr {
    /// The stream ended, or a LEB128 count overflowed.
    NotEnoughData(ReaderErr),
    /// A per-attribute record names an attribute id at or past the count.
    AttributeIdOutOfRange(u64),
}

/// A key/value pair nested under an attribute metadata record.
#[derive(Debug, Clone)]
pub struct SubMetadata {
    /// The key bytes.
    pub key: Vec<u8>,
    /// The value bytes.
    pub value: Vec<u8>,
}

/// One attribute metadata record: a key/value pair and its nested pairs.
#[derive(Debug, Clone)]
pub struct AttributeMetadata {
    /// The key bytes.
    pub key: Vec<u8>,
    /// The value bytes.
    pub value: Vec<u8>,
    /// The nested key/value pairs, in stream order.
    pub submetadata: Vec<SubMetadata>,
}

/// The decoded metadata section: one record per attribute id, then the
/// geometry-level record.
pub struct Metadata {
    /// The per-attribute records, indexed by attribute id.
    pub metadata: Vec<AttributeMetadata>,
    /// The geometry-level record.
    pub global_metadata: AttributeMetadata,
}

/// A key/value pair as plain sequences.
pub type PairView = (Seq<u8>, Seq<u8>);

/// An attribute metadata record as plain sequences.
pub type AttrView = (Seq<u8>, Seq<u8>, Seq<PairView>);

impl SubMetadata {
    /// The pair as plain sequences.
    pub open spec fn view_pair(&self) -> PairView {
        (self.key@, self.value@)
    }
}

impl AttributeMetadata {
    /// The record as plain sequences.
    pub open spec fn view_attr(&self) -> AttrView {
        (self.key@, self.value@, self.submetadata@.map_values(|m: SubMetadata| m.view_pair()))
    }
}

/// A byte-length-prefixed string at the start of `s`: its bytes and the
/// number of bytes it spans.
pub open spec fn short_string(s: Seq<u8>) -> Option<(Seq<u8>, nat)> {
    if s.len() < 1 || s.len() < 1 + s[0] {
        None
    } else {
        Some((s.subrange(1, 1 + s[0]), (1 + s[0]) as nat))
    }
}

/// A key/value pair at the start of `s` and the bytes it spans.
pub open spec fn pair_parse(s: Seq<u8>) -> Option<(PairView, nat)> {
    match short_string(s) {
        Some((k, a)) => match short_string(s.skip(a as int)) {
            Some((v, b)) => Some(((k, v), a + b)),
            None => None,
        },
        None => None,
    }
}

/// `m` consecutive key/value pairs at the start of `s`.
pub open spec fn pairs_parse(s: Seq<u8>, m: nat) -> Option<(Seq<PairView>, nat)>
    decreases m,
{
    if m == 0 {
        Some((Seq::empty(), 0))
    } else {
        match pair_parse(s) {
            Some((p, a)) => match pairs_parse(s.skip(a as int), (m - 1) as nat) {
                Some((ps, b)) => Some((seq![p] + ps, a + b)),
                None => None,
            },
            None => None,
        }
    }
}

/// An attribute metadata record at the start of `s`: a pair, a LEB128 count
/// of nested pairs (taken modulo 2^32), then the nested pairs.
pub open spec fn attr_parse(s: Seq<u8>) -> Option<(AttrView, nat)> {
    match pair_parse(s) {
        Some((p, a)) => match leb(s.skip(a as int)) {
            Some((b, m)) => match pairs_parse(s.skip((a + b) as int), m % 0x1_0000_0000) {
                Some((ps, c)) => Some(((p.0, p.1, ps), a + b + c)),
                None => None,
            },
            None => None,
        },
        None => None,
    }
}

/// Skipping `a` then `b` bytes is skipping `a + b` bytes.
proof fn lemma_skip_skip(s: Seq<u8>, a: int, b: int)
    requires
        0 <= a,
        0 <= b,
        a + b <= s.len(),
    ensures
        s.skip(a).skip(b) == s.skip(a + b),
{
    assert(s.skip(a).skip(b) =~= s.skip(a + b));
}

/// Reads a byte-length-prefixed string.
fn read_short_string(reader: &mut Reader<'_>) -> (r: Result<Vec<u8>, MetadataErr>)
    ensures
        r matches Err(e) ==> e matches MetadataErr::NotEnoughData(_),
        match r {
            Ok(v) => short_string(old(reader).rest()) matches Some((k, n)) && v@ == k && n
                <= old(reader).rest().len() && final(reader).rest() == old(reader).rest().skip(
                n as int,
            ),
            Err(_) => short_string(old(reader).rest()) is None,
        },
{
    let ghost s0 = reader.rest();
    let len = match reader.read_u8() {
        Ok(v) => v,
        Err(e) => return Err(MetadataErr::NotEnoughData(e)),
    };
    match reader.read_bytes(len as usize) {
        Ok(bytes) => {
            proof {
                lemma_skip_skip(s0, 1, len as int);
                assert(bytes@ == s0.subrange(1, 1 + len));
            }
            Ok(slice_to_vec(bytes))
        },
        Err(e) => Err(MetadataErr::NotEnoughData(e)),
    }
}

impl SubMetadata {
    /// Reads a key/value pair: each a byte length followed by that many
    /// bytes.
    pub fn read_from(reader: &mut Reader<'_>) -> (r: Result<Self, MetadataErr>)
        ensures
            r matches Err(e) ==> e matches MetadataErr::NotEnoughData(_),
            match r {
                Ok(m) => pair_parse(old(reader).rest()) matches Some((p, n)) && m.view_pair() == p
                    && n <= old(reader).rest().len() && final(reader).rest() == old(reader).rest().skip(
                    n as int,
                ),
                Err(_) => pair_parse(old(reader).rest()) is None,
            },
    {
        let ghost s0 = reader.rest();
        let key = read_short_string(reader)?;
        let ghost s1 = reader.rest();
        let value = read_short_string(reader)?;
        proof {
            let (_, a) = short_string(s0)->0;
            let (_, b) = short_string(s1)->0;
            lemma_skip_skip(s0, a as int, b as int);
        }
        Ok(SubMetadata { key, value })
    }
}

/// Reads `n` consecutive key/value pairs.
fn read_pairs(reader: &mut Reader<'_>, n: u32) -> (r: Result<Vec<SubMetadata>, MetadataErr>)
    ensures
        r matches Err(e) ==> e matches MetadataErr::NotEnoughData(_),
        match r {
            Ok(v) => pairs_parse(old(reader).rest(), n as nat) matches Some((ps, c)) && v@.map_values(
                |m: SubMetadata| m.view_pair(),
            ) == ps && c <= old(reader).rest().len() && final(reader).rest() == old(reader).rest().skip(c as int),
            Err(_) => pairs_parse(old(reader).rest(), n as nat) is None,
        },
{
    let ghost s3 = reader.rest();
        let mut submetadata: Vec<SubMetadata> = Vec::new();
        let mut i: u32 = 0;
        let ghost mut pos: int = 0;
        proof {
            assert(s3.skip(0) == s3);
        }
        while i < n
            invariant
                i <= n,
                0 <= pos <= s3.len(),
                reader.rest() == s3.skip(pos),
                submetadata@.len() == i,
                s3 == old(reader).rest(),
                pairs_parse(s3, n as nat) == match pairs_parse(reader.rest(), (n - i) as nat) {
                    Some((ps, c)) => Some((submetadata@.map_values(|m: SubMetadata| m.view_pair()) + ps, (pos + c) as nat)),
                    None => None::<(Seq<PairView>, nat)>,
                },
            decreases n - i,
        {
            let ghost cur = reader.rest();
            let sub = SubMetadata::read_from(reader)?;
            proof {
                let (_, a) = pair_parse(cur)->0;
                lemma_skip_skip(s3, pos, a as int);
                pos = pos + a;
            }
            let ghost old_views = submetadata@.map_values(|m: SubMetadata| m.view_pair());
            submetadata.push(sub);
            proof {
                assert(submetadata@.map_values(|m: SubMetadata| m.view_pair()) =~= old_views + seq![sub.view_pair()]);
                let ps = pairs_parse(reader.rest(), (n - i - 1) as nat);
                if let Some((pv, _)) = ps {
                    assert(old_views + (seq![sub.view_pair()] + pv) =~= (old_views + seq![sub.view_pair()]) + pv);
                }
            }
            i = i + 1;
        }
        proof {
            assert(reader.rest() == s3.skip(pos));
            let ps = pairs_parse(reader.rest(), 0);
            assert(submetadata@.map_values(|m: SubMetadata| m.view_pair()) + Seq::<PairView>::empty() =~= submetadata@.map_values(|m: SubMetadata| m.view_pair()));
        }
    Ok(submetadata)
}

impl AttributeMetadata {
    /// Reads an attribute metadata record: a key/value pair, a LEB128 count of
    /// nested pairs (kept modulo 2^32), then the nested pairs.
    pub fn read_from(reader: &mut Reader<'_>) -> (r: Result<Self, MetadataErr>)
        ensures
            r matches Err(e) ==> e matches MetadataErr::NotEnoughData(_),
            match r {
                Ok(m) => attr_parse(old(reader).rest()) matches Some((v, n)) && m.view_attr() == v
                    && n <= old(reader).rest().len() && final(reader).rest() == old(reader).rest().skip(
                    n as int,
                ),
                Err(_) => attr_parse(old(reader).rest()) is None,
            },
    {
        let ghost s0 = reader.rest();
        let key = read_short_string(reader)?;
        let ghost s1 = reader.rest();
        let value = read_short_string(reader)?;
        let ghost s2 = reader.rest();
        proof {
            let (_, a) = short_string(s0)->0;
            let (_, b) = short_string(s1)->0;
            lemma_skip_skip(s0, a as int, b as int);
        }
        let count = match leb128_read(reader) {
            Ok(v) => v,
            Err(e) => return Err(MetadataErr::NotEnoughData(e)),
        };
        proof {
            lemma_leb128_len(s2);
        }
        let ghost s3 = reader.rest();
        let num_submetadata = #[verifier::truncate] (count as u32);
        proof {
            assert(count as u32 == count % 0x1_0000_0000) by (bit_vector);
            lemma_skip_skip(s0, s0.len() - s2.len(), s2.len() - s3.len());
        }
        let submetadata = read_pairs(reader, num_submetadata)?;
        proof {
            let (_, c) = pairs_parse(s3, num_submetadata as nat)->0;
            lemma_skip_skip(s0, s0.len() - s3.len(), c as int);
        }
        Ok(AttributeMetadata { key, value, submetadata })
    }

    /// A record with empty key, value and nested pairs.
    pub fn empty_metadta() -> (r: Self)
        ensures
            r.key@ == Seq::<u8>::empty(),
            r.value@ == Seq::<u8>::empty(),
            r.submetadata@ == Seq::<SubMetadata>::empty(),
    {
        AttributeMetadata { key: Vec::new(), value: Vec::new(), submetadata: Vec::new() }
    }
}

/// The view of an empty record.
pub open spec fn empty_attr() -> AttrView {
    (Seq::empty(), Seq::empty(), Seq::empty())
}

/// A table of `n` empty records.
pub open spec fn empty_table(n: nat) -> Seq<AttrView> {
    Seq::new(n, |i: int| empty_attr())
}

/// `k` per-attribute entries (a LEB128 attribute id, then a record) at the
/// start of `s`, each record replacing slot `id` of `table`.
pub open spec fn entries_parse(s: Seq<u8>, k: nat, table: Seq<AttrView>) -> Option<
    (Seq<AttrView>, nat),
>
    decreases k,
{
    if k == 0 {
        Some((table, 0))
    } else {
        match leb(s) {
            Some((a, id)) => match attr_parse(s.skip(a as int)) {
                Some((v, b)) => if id >= table.len() {
                    None
                } else {
                    match entries_parse(s.skip((a + b) as int), (k - 1) as nat, table.update(id as int, v)) {
                        Some((t, c)) => Some((t, a + b + c)),
                        None => None,
                    }
                },
                None => None,
            },
            None => None,
        }
    }
}

/// Whether every entry that parses before the first failure names an
/// attribute id below `n`.
pub open spec fn ids_in_range(s: Seq<u8>, k: nat, n: nat) -> bool
    decreases k,
{
    k == 0 || match leb(s) {
        Some((a, id)) => match attr_parse(s.skip(a as int)) {
            Some((_v, b)) => id < n && ids_in_range(s.skip((a + b) as int), (k - 1) as nat, n),
            None => true,
        },
        None => true,
    }
}

/// The count of per-attribute entries at the start of a metadata section.
pub open spec fn entry_count(s: Seq<u8>) -> nat
    recommends
        s.len() >= 4,
{
    le32(s[0], s[1], s[2], s[3]) as nat
}

/// The metadata section at the start of `s`: a little-endian u32 count `n`,
/// `n` per-attribute entries over a table of `n` empty records, then the
/// geometry-level record.
pub open spec fn metadata_parse(s: Seq<u8>) -> Option<((Seq<AttrView>, AttrView), nat)> {
    if s.len() < 4 {
        None
    } else {
        let n = entry_count(s);
        match entries_parse(s.skip(4), n, empty_table(n)) {
            Some((t, b)) => match attr_parse(s.skip((4 + b) as int)) {
                Some((g, c)) => Some(((t, g), 4 + b + c)),
                None => None,
            },
            None => None,
        }
    }
}

/// Reads the metadata section into records. An entry's record replaces the
/// slot of its attribute id; an id at or past the declared count is refused.
#[verifier::rlimit(60)]
pub fn decode_metadata(reader: &mut Reader<'_>) -> (r: Result<Metadata, MetadataErr>)
    ensures
        (old(reader).rest().len() >= 4 && !ids_in_range(
            old(reader).rest().skip(4),
            entry_count(old(reader).rest()),
            entry_count(old(reader).rest()),
        )) ==> r matches Err(MetadataErr::AttributeIdOutOfRange(_)),
        match r {
            Ok(m) => metadata_parse(old(reader).rest()) matches Some((v, n)) && m.metadata@.map_values(
                |a: AttributeMetadata| a.view_attr(),
            ) == v.0 && m.global_metadata.view_attr() == v.1 && final(reader).rest() == old(reader).rest().skip(n as int),
            Err(MetadataErr::AttributeIdOutOfRange(_)) => !ids_in_range(
                old(reader).rest().skip(4),
                entry_count(old(reader).rest()),
                entry_count(old(reader).rest()),
            ),
            Err(_) => metadata_parse(old(reader).rest()) is None,
        },
{
    let ghost s0 = reader.rest();
    let num_metadata = match reader.read_u32() {
        Ok(v) => v,
        Err(e) => return Err(MetadataErr::NotEnoughData(e)),
    };
    let ghost s1 = reader.rest();
    let ghost n: nat = num_metadata as nat;
    let mut metadata: Vec<AttributeMetadata> = Vec::new();
    let mut j: u32 = 0;
    while j < num_metadata
        invariant
            j <= num_metadata,
            metadata@.len() == j,
            forall|t: int| 0 <= t < j ==> (#[trigger] metadata@[t]).view_attr() == empty_attr(),
        decreases num_metadata - j,
    {
        let e = AttributeMetadata::empty_metadta();
        proof {
            assert(e.submetadata@.map_values(|m: SubMetadata| m.view_pair()) =~= Seq::<PairView>::empty());
        }
        metadata.push(e);
        j = j + 1;
    }
    proof {
        assert(metadata@.map_values(|a: AttributeMetadata| a.view_attr()) =~= empty_table(n));
    }
    let ghost table0 = metadata@.map_values(|a: AttributeMetadata| a.view_attr());
    let ghost mut pos: int = 0;
    proof {
        assert(s1.skip(0) == s1);
    }
    let mut i: u32 = 0;
    while i < num_metadata
        invariant
            i <= num_metadata,
            s1 == s0.skip(4),
            s0 == old(reader).rest(),
            table0 == empty_table(num_metadata as nat),
            s0.len() >= 4,
            num_metadata == entry_count(s0),
            0 <= pos <= s1.len(),
            reader.rest() == s1.skip(pos),
            metadata@.len() == num_metadata,
            ids_in_range(s1, num_metadata as nat, num_metadata as nat) == ids_in_range(
                reader.rest(),
                (num_metadata - i) as nat,
                num_metadata as nat,
            ),
            entries_parse(s1, num_metadata as nat, table0) == match entries_parse(
                reader.rest(),
                (num_metadata - i) as nat,
                metadata@.map_values(|a: AttributeMetadata| a.view_attr()),
            ) {
                Some((t, c)) => Some((t, (pos + c) as nat)),
                None => None::<(Seq<AttrView>, nat)>,
            },
        decreases num_metadata - i,
    {
        let ghost cur = reader.rest();
        let id = match leb128_read(reader) {
            Ok(v) => v,
            Err(e) => return Err(MetadataErr::NotEnoughData(e)),
        };
        proof {
            lemma_leb128_len(cur);
        }
        let ghost mid = reader.rest();
        let ghost a: int = cur.len() - mid.len();
        let record = AttributeMetadata::read_from(reader)?;
        proof {
            let (_, b) = attr_parse(mid)->0;
            lemma_skip_skip(cur, a, b as int);
            lemma_skip_skip(s1, pos, a + b);
            assert(ids_in_range(cur, (num_metadata - i) as nat, num_metadata as nat) == (id < num_metadata
                && ids_in_range(cur.skip(a + b), (num_metadata - i - 1) as nat, num_metadata as nat)));
            pos = pos + a + b;
        }
        if id >= num_metadata as u64 {
            return Err(MetadataErr::AttributeIdOutOfRange(id));
        }
        let ghost before = metadata@.map_values(|x: AttributeMetadata| x.view_attr());
        let ghost rv = record.view_attr();
        metadata.set(id as usize, record);
        proof {
            assert(metadata@.map_values(|x: AttributeMetadata| x.view_attr()) =~= before.update(id as int, rv));
        }
        i = i + 1;
    }
    let ghost s2 = reader.rest();
    proof {
        lemma_skip_skip(s0, 4, pos);
    }
    let global_metadata = AttributeMetadata::read_from(reader)?;
    proof {
        let (_, c) = attr_parse(s2)->0;
        lemma_skip_skip(s0, 4 + pos, c as int);
    }
    Ok(Metadata { metadata, global_metadata })
}

} // verus!
