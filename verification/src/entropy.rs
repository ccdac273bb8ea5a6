//! Entropy decoding: symbol streams over the rANS decoders in
//! [`crate::rans`], plus the [`unzigzag`] inverse of the zigzag mapping.
//!
//! Two symbol streams exist on the wire. A DirectCoded stream rANS-codes the
//! values themselves. A LengthCoded stream rANS-codes one bit width per value
//! group and packs the values behind it as raw bit fields of that width.

use vstd::prelude::*;
use vstd::arithmetic::power2::{pow2, lemma_pow2_adds, lemma_pow2_pos, lemma2_to64};
use vstd::arithmetic::div_mod::{
    lemma_div_denominator, lemma_div_multiples_vanish_fancy, lemma_mod_breakdown, lemma_mod_mod,
    lemma_mod_multiples_vanish, lemma_small_mod,
};
use vstd::bits::{lemma_u64_shr_is_div, lemma_u64_shl_is_mul, lemma_u64_low_bits_mask_is_mod, low_bits_mask};
use crate::reader::{le_value, pow256, Reader};
use crate::error::{DecodeError, EntropyErr};
use crate::rans::{
    rans_run, rans_next, symbol_stream_init, lemma_symbol_stream_len, RansSymbolDecoder, RansSymbol, lemma_pow2_facts,
};

verus! {

/// The zigzag mapping of signed values onto the naturals: non-negative values
/// to even codes, negative values to odd codes.
pub open spec fn zigzag(n: int) -> int {
    if n >= 0 {
        2 * n
    } else {
        -2 * n - 1
    }
}

/// The inverse of [`zigzag`] on codes.
pub open spec fn unzigzag_spec(v: int) -> int {
    if v % 2 == 0 {
        v / 2
    } else {
        -(v / 2) - 1
    }
}

/// Inverse of the zigzag mapping: even codes to non-negative values, odd codes
/// to negative values.
pub fn unzigzag(val: u32) -> (r: i32)
    ensures
        r == unzigzag_spec(val as int),
{
    let half = (val / 2) as i32;
    if val % 2 == 0 {
        half
    } else {
        -half - 1
    }
}

/// Unzigzag undoes zigzag on every value whose code fits in 32 bits.
pub proof fn lemma_unzigzag_inverts_zigzag(n: int)
    requires
        i32::MIN <= n <= i32::MAX,
    ensures
        0 <= zigzag(n) <= u32::MAX,
        unzigzag_spec(zigzag(n)) == n,
{
}

/// Zigzag undoes unzigzag: every 32-bit code names exactly one value.
pub proof fn lemma_zigzag_inverts_unzigzag(v: int)
    requires
        0 <= v <= u32::MAX,
    ensures
        i32::MIN <= unzigzag_spec(v) <= i32::MAX,
        zigzag(unzigzag_spec(v)) == v,
{
}

/// The rANS precision for a DirectCoded stream's bit-length byte
/// (`clamp(3 * bit_length / 2, 12, 20)` as the encoder computes it).
pub open spec fn precision_for(bit_length: u8) -> Option<usize> {
    if 1 <= bit_length <= 18 {
        let p = 3 * bit_length / 2;
        Some(
            (if p < 12 {
                12
            } else if p > 20 {
                20
            } else {
                p
            }) as usize,
        )
    } else {
        None
    }
}

/// A DirectCoded stream is refused exactly where its bit-length byte lies
/// outside `1..=18`; otherwise its precision lies in `12..=20`, as close to
/// one and a half times the bit length (rounded down) as that range allows,
/// and grows with the bit length.
pub proof fn lemma_precision_is_clamped(bit_length: u8, longer: u8)
    ensures
        (precision_for(bit_length) is Some) <==> (1 <= bit_length <= 18),
        precision_for(bit_length) matches Some(p) ==> {
            let h = 3 * bit_length / 2;
            &&& 12 <= p <= 20
            &&& (p < h ==> p == 20)
            &&& (p > h ==> p == 12)
        },
        (precision_for(bit_length) is Some && precision_for(longer) is Some && bit_length <= longer)
            ==> precision_for(bit_length)->Some_0 <= precision_for(longer)->Some_0,
{
}

/// The rANS precision for a DirectCoded stream's bit-length byte.
fn precision_for_bit_length(bit_length: u8) -> (r: Result<usize, crate::error::DecodeError>)
    ensures
        match precision_for(bit_length) {
            Some(p) => r == Ok::<usize, crate::error::DecodeError>(p),
            None => r == Err::<usize, crate::error::DecodeError>(
                crate::error::DecodeError::InvalidBitLength(bit_length),
            ),
        },
{
    if 1 <= bit_length && bit_length <= 8 {
        Ok(12)
    } else if bit_length == 9 {
        Ok(13)
    } else if bit_length == 10 {
        Ok(15)
    } else if bit_length == 11 {
        Ok(16)
    } else if bit_length == 12 {
        Ok(18)
    } else if bit_length == 13 {
        Ok(19)
    } else if 14 <= bit_length && bit_length <= 18 {
        Ok(20)
    } else {
        Err(crate::error::DecodeError::InvalidBitLength(bit_length))
    }
}

/// The whole byte stream read as one little-endian integer.
pub open spec fn stream_value(data: Seq<u8>) -> nat {
    le_value(data, data.len())
}

/// The `size`-bit field at stream bit `pos`, bits numbered from the least
/// significant within each byte; bits past the end read as zero.
pub open spec fn bit_field(data: Seq<u8>, pos: nat, size: nat) -> nat {
    (stream_value(data) / pow2(pos)) % pow2(size)
}

/// An LSB-first cursor over a borrowed bit field: bit `i` of a value comes
/// from stream bit `pos + i`. Reads past the end yield zero bits, so decoding
/// a truncated stream produces garbage rather than failing.
pub struct BitCursor<'a> {
    data: &'a [u8],
    bit_pos: usize,
}

impl<'a> BitCursor<'a> {
    /// The bytes under the cursor.
    pub closed spec fn data(&self) -> Seq<u8> {
        self.data@
    }

    /// The stream bit the next read starts at.
    pub closed spec fn pos(&self) -> nat {
        self.bit_pos as nat
    }

    /// Creates a cursor at bit zero of `data`.
    pub fn new(data: &'a [u8]) -> (r: Self)
        ensures
            r.data() == data@,
            r.pos() == 0,
    {
        BitCursor { data, bit_pos: 0 }
    }

    /// Reads the next `size` bits, `size <= 32`. The position saturates at
    /// the largest `usize`.
    pub fn read_bits(&mut self, size: u8) -> (r: u32)
        requires
            size <= 32,
        ensures
            r == bit_field(old(self).data(), old(self).pos(), size as nat),
            final(self).data() == old(self).data(),
            final(self).pos() == if old(self).pos() + size <= usize::MAX {
                old(self).pos() + size
            } else {
                usize::MAX as int
            },
    {
        if size == 0 {
            proof {
                lemma2_to64();
            }
            return 0;
        }
        let byte = self.bit_pos / 8;
        let shift = self.bit_pos % 8;
        let window = window_at(self.data, byte);
        proof {
            lemma2_to64();
            if size < 32 {
                vstd::arithmetic::power2::lemma_pow2_strictly_increases(size as nat, 32);
            }
            lemma_u64_shr_is_div(window, shift as u64);
            lemma_u64_shl_is_mul(1, size as u64);
            lemma_u64_low_bits_mask_is_mod(window >> (shift as u64), size as nat);
            lemma_pow2_pos(size as nat);
            lemma_field_from_window(self.data@, byte as nat, shift as nat, size as nat);
        }
        let mask: u64 = (1u64 << (size as u64)) - 1;
        let value = (window >> (shift as u64)) & mask;
        proof {
            lemma2_to64();
            assert(pow2(32) == 0x1_0000_0000);
            if size < 32 {
                vstd::arithmetic::power2::lemma_pow2_strictly_increases(size as nat, 32);
            }
        }
        self.bit_pos = if self.bit_pos > usize::MAX - size as usize {
            usize::MAX
        } else {
            self.bit_pos + size as usize
        };
        value as u32
    }
}

/// The eight-byte little-endian window starting at byte `byte` of `data`,
/// zero past the end.
fn window_at(data: &[u8], byte: usize) -> (w: u64)
    ensures
        byte < data@.len() ==> w == le_value(data@.skip(byte as int), 8),
        byte >= data@.len() ==> w == 0,
{
    let n = data.len();
    if byte >= n {
        return 0;
    }
    let avail = n - byte;
    let m: usize = if avail < 8 {
        avail
    } else {
        8
    };
    let ghost s = data@.skip(byte as int);
    let mut w: u64 = 0;
    let mut j: usize = m;
    while j > 0
        invariant
            n == data@.len(),
            byte < n,
            s == data@.skip(byte as int),
            m <= 8,
            m <= s.len(),
            j <= m,
            w == le_value(s.skip(j as int), (m - j) as nat),
            w < pow256((m - j) as nat),
        decreases j,
    {
        let b = data[byte + j - 1];
        proof {
            let t = s.skip(j - 1);
            assert(t.drop_first() == s.skip(j as int));
            assert(t[0] == b);
            lemma_pow256_le8((m - j + 1) as nat);
        }
        w = w * 256 + b as u64;
        j -= 1;
    }
    proof {
        assert(s.skip(0) == s);
        lemma_le_value_min(s, 8);
    }
    w
}

proof fn lemma_pow256_le8(k: nat)
    requires
        k <= 8,
    ensures
        pow256(k) == 256 * pow256((k - 1) as nat) || k == 0,
        pow256(k) <= 0x1_0000_0000_0000_0000,
{
    reveal_with_fuel(pow256, 9);
}

/// Only the bytes that exist contribute to a little-endian value.
proof fn lemma_le_value_min(s: Seq<u8>, n: nat)
    ensures
        le_value(s, n) == le_value(s, if n < s.len() {
            n
        } else {
            s.len()
        }),
    decreases n,
{
    if n > 0 && s.len() > 0 {
        lemma_le_value_min(s.drop_first(), (n - 1) as nat);
    }
}

/// `256^k` is `2^(8k)`.
proof fn lemma_pow256_pow2(k: nat)
    ensures
        pow256(k) == pow2(8 * k),
    decreases k,
{
    if k == 0 {
        lemma2_to64();
    } else {
        lemma_pow256_pow2((k - 1) as nat);
        lemma_pow2_adds(8 * (k - 1) as nat, 8);
        lemma2_to64();
        assert(8 * k == 8 * (k - 1) as nat + 8);
    }
}

/// A little-endian value splits at any byte boundary.
proof fn lemma_le_split(d: Seq<u8>, b: nat)
    requires
        b <= d.len(),
    ensures
        le_value(d, d.len()) == le_value(d, b) + pow256(b) * le_value(d.skip(b as int), (
        d.len() - b) as nat),
        le_value(d, b) < pow256(b),
    decreases b,
{
    if b == 0 {
        assert(d.skip(0) == d);
        assert(pow256(0) == 1);
    } else {
        let d1 = d.drop_first();
        lemma_le_split(d1, (b - 1) as nat);
        assert(d1.skip(b - 1) == d.skip(b as int));
        assert(d1.len() == d.len() - 1);
        assert(le_value(d, d.len()) == d[0] + 256 * le_value(d1, d1.len()));
        assert(le_value(d, b) == d[0] + 256 * le_value(d1, (b - 1) as nat));
        let z = le_value(d.skip(b as int), (d.len() - b) as nat);
        assert(256 * (pow256((b - 1) as nat) * z) == pow256(b) * z) by (nonlinear_arith)
            requires
                pow256(b) == 256 * pow256((b - 1) as nat),
        ;
    }
}

/// A prefix of a little-endian value is the value modulo a power of 256.
proof fn lemma_le_prefix_mod(s: Seq<u8>, n: nat, m: nat)
    requires
        n <= m,
    ensures
        le_value(s, n) == le_value(s, m) % pow256(n),
    decreases n,
{
    if n == 0 {
        assert(pow256(0) == 1);
        assert(le_value(s, m) % 1 == 0);
        assert(le_value(s, n) == le_value(s, m) % pow256(n));
    } else if s.len() == 0 {
        lemma_pow256_pos(n);
        lemma_small_mod(0, pow256(n));
        assert(le_value(s, n) == le_value(s, m) % pow256(n));
    } else {
        let s1 = s.drop_first();
        lemma_le_prefix_mod(s1, (n - 1) as nat, (m - 1) as nat);
        let big_l = le_value(s1, (m - 1) as nat);
        let p = pow256((n - 1) as nat);
        lemma_pow256_pos((n - 1) as nat);
        let x = s[0] + 256 * big_l;
        assert(pow256(n) == 256 * p);
        assert(le_value(s, m) == x);
        assert(le_value(s, n) == s[0] + 256 * le_value(s1, (n - 1) as nat));
        lemma_mod_breakdown(x, 256, p as int);
        assert(x / 256 == big_l) by {
            lemma_div_multiples_vanish_fancy(big_l as int, s[0] as int, 256);
        }
        assert(x % 256 == s[0]) by {
            lemma_mod_multiples_vanish(big_l as int, s[0] as int, 256);
        }
        assert(x % (256 * p as int) == 256 * (big_l % p) + s[0]);
        assert(le_value(s, m) % pow256(n) == x % (256 * p as int));
        assert(le_value(s, n) == le_value(s, m) % pow256(n));
    }
}

proof fn lemma_pow256_pos(n: nat)
    ensures
        pow256(n) >= 1,
    decreases n,
{
    if n > 0 {
        lemma_pow256_pos((n - 1) as nat);
    }
}

/// The field read from the byte-aligned window equals the field of the
/// whole stream.
proof fn lemma_field_from_window(d: Seq<u8>, byte: nat, shift: nat, size: nat)
    requires
        shift < 8,
        1 <= size <= 32,
    ensures
        ({
            let w = if byte < d.len() {
                le_value(d.skip(byte as int), 8)
            } else {
                0
            };
            (w / pow2(shift)) % pow2(size) == bit_field(d, 8 * byte + shift, size)
        }),
{
    let x = stream_value(d);
    lemma_pow2_pos(shift);
    lemma_pow2_pos(size);
    lemma_pow256_pow2(byte);
    lemma_pow2_pos(8 * byte);
    lemma_pow2_adds(8 * byte, shift);
    lemma_div_denominator(x as int, pow2(8 * byte) as int, pow2(shift) as int);
    if byte < d.len() {
        lemma_le_split(d, byte);
        let y = le_value(d.skip(byte as int), (d.len() - byte) as nat);
        lemma_pow256_pos(byte);
        assert(x / pow256(byte) == y) by {
            lemma_div_multiples_vanish_fancy(y as int, le_value(d, byte) as int,
                pow256(byte) as int);
            assert(pow256(byte) * y + le_value(d, byte) == x);
        }
        let big_l = (d.len() - byte) as nat;
        let mx: nat = if big_l < 8 {
            8
        } else {
            big_l
        };
        lemma_le_value_min(d.skip(byte as int), mx);
        lemma_le_value_min(d.skip(byte as int), big_l);
        lemma_le_prefix_mod(d.skip(byte as int), 8, mx);
        lemma_pow256_pow2(8);
        let w = le_value(d.skip(byte as int), 8);
        assert(w == y % pow2(64));
        lemma_pow2_adds(shift, (64 - shift) as nat);
        lemma_pow2_pos((64 - shift) as nat);
        lemma_mod_breakdown(y as int, pow2(shift) as int, pow2((64 - shift) as nat) as int);
        let q = (y / pow2(shift)) % pow2((64 - shift) as nat);
        assert(w / pow2(shift) == q) by {
            lemma_div_multiples_vanish_fancy(q as int, (y % pow2(shift)) as int,
                pow2(shift) as int);
            assert(pow2(shift) * q + y % pow2(shift) == w);
        }
        lemma_pow2_adds(size, (64 - shift - size) as nat);
        lemma_pow2_pos((64 - shift - size) as nat);
        lemma_mod_mod((y / pow2(shift)) as int, pow2(size) as int,
            pow2((64 - shift - size) as nat) as int);
    } else {
        lemma_le_split(d, d.len());
        assert(d.skip(d.len() as int).len() == 0);
        lemma_pow256_pow2(d.len());
        lemma_pow2_adds(8 * d.len(), (8 * byte + shift - 8 * d.len()) as nat);
        lemma_pow2_pos((8 * byte + shift - 8 * d.len()) as nat);
        assert(x < pow2(8 * byte + shift)) by (nonlinear_arith)
            requires
                x < pow2(8 * d.len()),
                pow2(8 * byte + shift) == pow2(8 * d.len()) * pow2(
                    (8 * byte + shift - 8 * d.len()) as nat,
                ),
                pow2((8 * byte + shift - 8 * d.len()) as nat) >= 1,
        ;
        assert(x / pow2(8 * byte + shift) == 0) by {
            lemma_small_mod(x, pow2(8 * byte + shift));
            vstd::arithmetic::div_mod::lemma_basic_div(x as int, pow2(8 * byte + shift) as int);
        }
        assert(0nat / pow2(shift) == 0);
        lemma_small_mod(0, pow2(size));
    }
}

/// How a symbol stream is coded, from its leading method byte.
#[derive(Debug, Clone, Copy, PartialEq, Eq)]
pub enum SymbolEncodingMethod {
    /// Bit widths rANS-coded per value group, values packed as raw bit fields.
    LengthCoded,
    /// The values themselves rANS-coded.
    DirectCoded,
}

/// The method a method byte names: 0 is LengthCoded, 1 is DirectCoded.
pub open spec fn method_of(b: u8) -> Option<SymbolEncodingMethod> {
    if b == 0 {
        Some(SymbolEncodingMethod::LengthCoded)
    } else if b == 1 {
        Some(SymbolEncodingMethod::DirectCoded)
    } else {
        None
    }
}

impl SymbolEncodingMethod {
    /// Reads the method byte.
    pub fn read_from(reader: &mut Reader<'_>) -> (r: Result<Self, DecodeError>)
        ensures
            old(reader).rest().len() == 0 ==> r is Err,
            old(reader).rest().len() > 0 ==> match method_of(old(reader).rest()[0]) {
                Some(m) => r == Ok::<Self, DecodeError>(m) && final(reader).rest() == old(reader).rest().skip(1),
                None => r == Err::<Self, DecodeError>(
                    DecodeError::Entropy(EntropyErr::InvalidSymbolMethod(old(reader).rest()[0])),
                ),
            },
    {
        let b = match reader.read_u8() {
            Ok(b) => b,
            Err(e) => return Err(DecodeError::Reader(e)),
        };
        if b == 0 {
            Ok(SymbolEncodingMethod::LengthCoded)
        } else if b == 1 {
            Ok(SymbolEncodingMethod::DirectCoded)
        } else {
            Err(DecodeError::Entropy(EntropyErr::InvalidSymbolMethod(b)))
        }
    }
}

/// The rANS precision of a LengthCoded stream's tag alphabet.
const TAG_PRECISION: usize = 12;

/// The widest bit width a tag may name.
const MAX_TAG_BIT_LENGTH: u8 = 32;

/// Sum of the first `g` tags.
pub open spec fn tag_sum(tags: Seq<u8>, g: int) -> int
    decreases g,
{
    if g <= 0 {
        0
    } else {
        tag_sum(tags, g - 1) + tags[g - 1]
    }
}

/// The `j`-th value of a LengthCoded value field: values come in groups of
/// `nc`, each group's values packed back to back at its tag's bit width.
pub open spec fn tagged_value(tags: Seq<u8>, field: Seq<u8>, nc: nat, j: nat) -> nat {
    let g = j / nc;
    let width = if g < tags.len() {
        tags[g as int]
    } else {
        0u8
    };
    bit_field(field, (nc * tag_sum(tags, g as int) + (j % nc) * width) as nat, width as nat)
}

/// The first `n` values of a LengthCoded value field.
pub open spec fn tagged_values(tags: Seq<u8>, field: Seq<u8>, nc: nat, n: nat) -> Seq<u64> {
    Seq::new(n, |j: int| tagged_value(tags, field, nc, j as nat) as u64)
}

/// One pop of a LengthCoded decoder in cursor state `st` (stream bit, next
/// tag, values left in the group, group width): a group that is used up
/// opens the next tag's group; the value is the group width's bits at the
/// cursor.
pub open spec fn tagged_pop(tags: Seq<u8>, field: Seq<u8>, nc: nat, st: (nat, nat, nat, nat)) -> (
    nat,
    (nat, nat, nat, nat),
) {
    let (pos, nt, rem, w0) = st;
    let fresh = rem == 0;
    let w: nat = if fresh {
        if nt < tags.len() {
            tags[nt as int] as nat
        } else {
            0
        }
    } else {
        w0
    };
    let nt2: nat = if fresh {
        if nt < usize::MAX {
            nt + 1
        } else {
            nt
        }
    } else {
        nt
    };
    let rem2 = ((if fresh {
        nc
    } else {
        rem
    }) - 1) as nat;
    let pos2: nat = if pos + w <= usize::MAX {
        pos + w
    } else {
        usize::MAX as nat
    };
    (bit_field(field, pos, w), (pos2, nt2, rem2, w))
}

/// The values of `n` pops from cursor state `st`.
pub open spec fn tagged_pops(tags: Seq<u8>, field: Seq<u8>, nc: nat, st: (nat, nat, nat, nat), n: nat) -> Seq<nat>
    decreases n,
{
    if n == 0 {
        Seq::empty()
    } else {
        let (x, st2) = tagged_pop(tags, field, nc, st);
        seq![x] + tagged_pops(tags, field, nc, st2, (n - 1) as nat)
    }
}

/// The cursor state after `j` pops from a fresh decoder.
pub open spec fn tagged_state_after(tags: Seq<u8>, nc: nat, j: nat) -> (nat, nat, nat, nat) {
    let g = j / nc;
    let r = j % nc;
    if r == 0 {
        (
            (nc * tag_sum(tags, g as int)) as nat,
            g,
            0,
            if j == 0 {
                0
            } else {
                tags[g - 1] as nat
            },
        )
    } else {
        ((nc * tag_sum(tags, g as int) + r * tags[g as int]) as nat, g + 1, (nc - r) as nat, tags[g as int] as nat)
    }
}

proof fn lemma_tag_sum_le(tags: Seq<u8>, a: int, b: int)
    requires
        0 <= a <= b,
    ensures
        0 <= tag_sum(tags, a) <= tag_sum(tags, b),
    decreases b,
{
    if a < b {
        lemma_tag_sum_le(tags, a, b - 1);
    } else if b > 0 {
        lemma_tag_sum_le(tags, b - 1, b - 1);
    }
}

/// One pop from the state after `j` pops gives the `j`-th batch value and
/// the state after `j + 1` pops.
proof fn lemma_tagged_pop_step(tags: Seq<u8>, field: Seq<u8>, nc: nat, j: nat)
    requires
        nc >= 1,
        j < nc * tags.len(),
        tags.len() < usize::MAX,
        nc * tag_sum(tags, tags.len() as int) <= usize::MAX,
    ensures
        tagged_pop(tags, field, nc, tagged_state_after(tags, nc, j)) == (
            tagged_value(tags, field, nc, j),
            tagged_state_after(tags, nc, j + 1),
        ),
{
    let g: int = (j / nc) as int;
    let r: int = (j % nc) as int;
    vstd::arithmetic::div_mod::lemma_fundamental_div_mod(j as int, nc as int);
    assert(j == g * nc + r);
    assert(g < tags.len()) by (nonlinear_arith)
        requires
            j == g * nc + r,
            0 <= r,
            j < nc * tags.len(),
            nc >= 1,
    ;
    let w = tags[g] as nat;
    let ts = tag_sum(tags, g);
    lemma_tag_sum_le(tags, g + 1, tags.len() as int);
    lemma_tag_sum_le(tags, g, g + 1);
    assert(tag_sum(tags, g + 1) == ts + w);
    assert(nc * (ts + w) <= usize::MAX) by (nonlinear_arith)
        requires
            ts + w <= tag_sum(tags, tags.len() as int),
            nc * tag_sum(tags, tags.len() as int) <= usize::MAX,
            nc >= 1,
    ;
    assert(nc * (ts + w) == nc * ts + nc * w) by (nonlinear_arith);
    assert(r * w <= nc * w) by (nonlinear_arith)
        requires
            r < nc,
    ;
    assert((r + 1) * w == r * w + w) by (nonlinear_arith);
    assert((r + 1) * w <= nc * w) by (nonlinear_arith)
        requires
            r + 1 <= nc,
    ;
    if r + 1 == nc {
        assert((g + 1) * nc == g * nc + nc) by (nonlinear_arith);
        vstd::arithmetic::div_mod::lemma_fundamental_div_mod_converse((j + 1) as int, nc as int, g + 1, 0);
        assert(nc * w == (r + 1) * w);
    } else {
        vstd::arithmetic::div_mod::lemma_fundamental_div_mod_converse((j + 1) as int, nc as int, g, r + 1);
    }
    assert(tagged_value(tags, field, nc, j) == bit_field(field, (nc * ts + r * w) as nat, w));
    if r == 0 {
        assert(r * w == 0);
    }
}

/// Popping a LengthCoded decoder `n` times from a fresh state gives the
/// values the batch decode returns, in order.
pub proof fn lemma_tagged_pops_match_batch(tags: Seq<u8>, field: Seq<u8>, nc: nat, n: nat)
    requires
        nc >= 1,
        n <= nc * tags.len(),
        tags.len() < usize::MAX,
        nc * tag_sum(tags, tags.len() as int) <= usize::MAX,
    ensures
        tagged_pops(tags, field, nc, (0, 0, 0, 0), n) == Seq::new(
            n,
            |j: int| tagged_value(tags, field, nc, j as nat),
        ),
{
    assert(tagged_state_after(tags, nc, 0) == (0nat, 0nat, 0nat, 0nat)) by {
        vstd::arithmetic::div_mod::lemma_fundamental_div_mod_converse(0, nc as int, 0, 0);
        assert(nc * tag_sum(tags, 0) == 0) by (nonlinear_arith)
            requires
                tag_sum(tags, 0) == 0,
        ;
    }
    lemma_tagged_pops_from(tags, field, nc, 0, n);
    assert(Seq::new((n - 0) as nat, |i: int| tagged_value(tags, field, nc, (0 + i) as nat)) =~= Seq::new(
        n,
        |j: int| tagged_value(tags, field, nc, j as nat),
    ));
}

proof fn lemma_tagged_pops_from(tags: Seq<u8>, field: Seq<u8>, nc: nat, j: nat, n: nat)
    requires
        nc >= 1,
        j <= n <= nc * tags.len(),
        tags.len() < usize::MAX,
        nc * tag_sum(tags, tags.len() as int) <= usize::MAX,
    ensures
        tagged_pops(tags, field, nc, tagged_state_after(tags, nc, j), (n - j) as nat) == Seq::new(
            (n - j) as nat,
            |i: int| tagged_value(tags, field, nc, (j + i) as nat),
        ),
    decreases n - j,
{
    if j < n {
        lemma_tagged_pop_step(tags, field, nc, j);
        lemma_tagged_pops_from(tags, field, nc, j + 1, n);
        let rest = Seq::new((n - j - 1) as nat, |i: int| tagged_value(tags, field, nc, (j + 1 + i) as nat));
        assert(seq![tagged_value(tags, field, nc, j)] + rest =~= Seq::new(
            (n - j) as nat,
            |i: int| tagged_value(tags, field, nc, (j + i) as nat),
        ));
    } else {
        assert(Seq::new((n - j) as nat, |i: int| tagged_value(tags, field, nc, (j + i) as nat)) =~= Seq::<nat>::empty());
    }
}

/// A live LengthCoded symbol decoder. The tags are decoded up front (their
/// sum locates the end of the value field, which carries no length prefix of
/// its own); the values stay in the buffer and are read on demand.
pub struct TaggedSymbolDecoder<'a> {
    tags: Vec<u8>,
    values: BitCursor<'a>,
    num_components: u8,
    next_tag: usize,
    remaining: u8,
    width: u8,
}

impl<'a> TaggedSymbolDecoder<'a> {
    /// Bit width of each value group, in group order.
    pub closed spec fn tags(&self) -> Seq<u8> {
        self.tags@
    }

    /// The value field.
    pub closed spec fn field(&self) -> Seq<u8> {
        self.values.data()
    }

    /// Stream bit of the next value.
    pub closed spec fn pos(&self) -> nat {
        self.values.pos()
    }

    /// Values per group.
    pub closed spec fn num_components(&self) -> nat {
        self.num_components as nat
    }

    /// Index of the next group's tag.
    pub closed spec fn next_tag(&self) -> nat {
        self.next_tag as nat
    }

    /// Values still to emit from the current group.
    pub closed spec fn remaining(&self) -> nat {
        self.remaining as nat
    }

    /// Bit width of the current group.
    pub closed spec fn width(&self) -> nat {
        self.width as nat
    }

    /// The cursor state: stream bit, next tag, values left in the group, and
    /// the group's width.
    pub open spec fn tagged_state(&self) -> (nat, nat, nat, nat) {
        (self.pos(), self.next_tag(), self.remaining(), self.width())
    }

    /// Internal consistency: non-empty groups and widths of at most 32 bits.
    pub closed spec fn wf(&self) -> bool {
        &&& self.num_components >= 1
        &&& self.remaining <= self.num_components
        &&& self.width <= 32
        &&& forall|i: int| 0 <= i < self.tags@.len() ==> self.tags@[i] <= 32
    }

    /// Decodes the next symbol.
    pub fn decode(&mut self) -> (symbol: usize)
        requires
            old(self).wf(),
        ensures
            final(self).wf(),
            final(self).tags() == old(self).tags(),
            final(self).field() == old(self).field(),
            final(self).num_components() == old(self).num_components(),
            ({
                let o = old(self);
                let fresh = o.remaining() == 0;
                let w = if fresh {
                    if o.next_tag() < o.tags().len() {
                        o.tags()[o.next_tag() as int] as nat
                    } else {
                        0
                    }
                } else {
                    o.width()
                };
                &&& symbol == bit_field(o.field(), o.pos(), w)
                &&& final(self).width() == w
                &&& final(self).next_tag() == if fresh {
                    if o.next_tag() < usize::MAX {
                        o.next_tag() + 1
                    } else {
                        o.next_tag()
                    }
                } else {
                    o.next_tag()
                }
                &&& final(self).remaining() == (if fresh {
                    o.num_components()
                } else {
                    o.remaining()
                }) - 1
                &&& final(self).pos() == if o.pos() + w <= usize::MAX {
                    o.pos() + w
                } else {
                    usize::MAX as nat
                }
            }),
            (symbol as nat, final(self).tagged_state()) == tagged_pop(
                old(self).tags(),
                old(self).field(),
                old(self).num_components(),
                old(self).tagged_state(),
            ),
    {
        if self.remaining == 0 {
            self.width = if self.next_tag < self.tags.len() {
                self.tags[self.next_tag]
            } else {
                0
            };
            if self.next_tag < usize::MAX {
                self.next_tag += 1;
            }
            self.remaining = self.num_components;
        }
        self.remaining -= 1;
        self.values.read_bits(self.width) as usize
    }
}

/// Decoded tags narrowed to bytes.
pub open spec fn tags_of(raw: Seq<int>) -> Seq<u8> {
    Seq::new(raw.len(), |i: int| raw[i] as u8)
}

/// Decoded symbols widened to `u64`.
pub open spec fn symbols_of(raw: Seq<int>) -> Seq<u64> {
    Seq::new(raw.len(), |i: int| raw[i] as u64)
}

/// Whether every decoded tag names a width of at most 32 bits.
pub open spec fn tags_ok(raw: Seq<int>) -> bool {
    forall|i: int| 0 <= i < raw.len() ==> raw[i] <= 32
}

/// The parse of a LengthCoded stream body (after its method byte) for
/// `num_symbols` values in groups of `num_components`: the per-group bit
/// widths, the value field, the effective group size and the number of
/// bytes the body spans.
pub open spec fn tagged_stream_parse(s: Seq<u8>, num_symbols: nat, num_components: nat) -> Option<
    (Seq<u8>, Seq<u8>, nat, nat),
> {
    let nc: nat = if num_components < 1 {
        1
    } else {
        num_components
    };
    if nc > 255 {
        None
    } else {
        let num_tags = (num_symbols + nc - 1) / (nc as int);
        match symbol_stream_init(s, num_tags as nat, 12) {
            Some((t, br, st, rest, k)) => {
                let raw = rans_run(t, 12, (4 * crate::rans::pow2(12)) as int, br, st, rest, num_tags as nat);
                if !tags_ok(raw) {
                    None
                } else {
                    let tags = tags_of(raw);
                    let total_bits = nc * tag_sum(tags, tags.len() as int);
                    let nbytes = (total_bits + 7) / 8;
                    if total_bits > usize::MAX || nbytes > s.len() - k {
                        None
                    } else {
                        Some((tags, s.subrange(k as int, k + nbytes), nc, k + nbytes as nat))
                    }
                }
            },
            None => None,
        }
    }
}

/// Splitting a rANS run after its first step.
proof fn lemma_rans_run_step(
    t: Seq<RansSymbol>,
    precision: nat,
    l_base: int,
    branchless: bool,
    state: int,
    rest: Seq<u8>,
    n: nat,
)
    requires
        n >= 1,
    ensures
        ({
            let (sym, st, r) = rans_next(t, precision, l_base, branchless, state, rest);
            rans_run(t, precision, l_base, branchless, state, rest, n) == seq![sym] + rans_run(
                t,
                precision,
                l_base,
                branchless,
                st,
                r,
                (n - 1) as nat,
            )
        }),
{
}

proof fn lemma_tag_sum_mono(tags: Seq<u8>, a: int, b: int)
    requires
        0 <= a <= b <= tags.len(),
    ensures
        tag_sum(tags, a) <= tag_sum(tags, b),
    decreases b - a,
{
    if a < b {
        lemma_tag_sum_mono(tags, a, b - 1);
    }
}

/// Parses a LengthCoded stream: the tag alphabet and its rANS payload, then
/// the bit field holding the values. Leaves `reader` immediately after the
/// field.
fn start_tagged_decoder<'a>(reader: &mut Reader<'a>, num_symbols: usize, num_components: usize) -> (r:
    Result<TaggedSymbolDecoder<'a>, DecodeError>)
    ensures
        match tagged_stream_parse(
            old(reader).rest(),
            num_symbols as nat,
            num_components as nat,
        ) {
            Some((tags, field, nc, k)) => r matches Ok(d) && d.wf() && d.tags() == tags
                && d.field() == field && d.num_components() == nc && d.pos() == 0 && d.next_tag()
                == 0 && d.remaining() == 0 && d.width() == 0 && final(reader).rest() == old(reader).rest().skip(
                k as int,
            ),
            None => r is Err,
        },
{
    let ghost s0 = reader.rest();
    let nc = if num_components < 1 {
        1
    } else {
        num_components
    };
    if nc > 255 {
        return Err(DecodeError::MalformedAttribute("component count exceeds 255"));
    }
    proof {
        assert(num_symbols % nc != 0 ==> nc >= 2);
        assert(nc >= 2 ==> num_symbols / nc <= num_symbols / 2) by (nonlinear_arith)
            requires nc >= 1,
        ;
    }
    let num_tags = num_symbols / nc + if num_symbols % nc != 0 {
        1usize
    } else {
        0usize
    };
    proof {
        assert(num_tags == (num_symbols + nc - 1) / nc as int) by (nonlinear_arith)
            requires
                nc >= 1,
                num_tags == num_symbols / nc + if num_symbols % nc
                    != 0 {
                    1int
                } else {
                    0int
                },
        ;
    }
    let mut tag_decoder = RansSymbolDecoder::new(reader, num_tags, TAG_PRECISION)?;
    let ghost s1 = reader.rest();
    let ghost (t, br, st0, rest0, k) = symbol_stream_init(s0, num_tags as nat, 12)->0;
    let ghost raw = rans_run(t, 12, (4 * crate::rans::pow2(12)) as int, br, st0, rest0, num_tags as nat);
    proof {
        lemma_rans_run_len(t, 12, (4 * crate::rans::pow2(12)) as int, br, st0, rest0, num_tags as nat);
        lemma_symbol_stream_len(s0, num_tags as nat, 12);
    }
    let mut tags: Vec<u8> = Vec::new();
    let mut total_bits: usize = 0;
    let mut i: usize = 0;
    while i < num_tags
        invariant
            1 <= nc <= 255,
            i <= num_tags,
            reader.rest() == s1,
            s0 == old(reader).rest(),
            num_tags == (num_symbols + nc - 1) / nc as int,
            nc == if num_components < 1 {
                1
            } else {
                num_components
            },
            symbol_stream_init(s0, num_tags as nat, 12) == Some((t, br, st0, rest0, k)),
            raw == rans_run(t, 12, (4 * crate::rans::pow2(12)) as int, br, st0, rest0, num_tags as nat),
            s1 == s0.skip(k as int),
            k <= s0.len(),
            tag_decoder.decoder().wf(),
            tag_decoder.decoder().symbols() == t,
            tag_decoder.decoder().precision() == 12,
            tag_decoder.decoder().l_base() == (4 * crate::rans::pow2(12)) as int,
            tag_decoder.decoder().branchless() == br,
            raw.len() == num_tags,
            raw == Seq::new(i as nat, |q: int| tags@[q] as int) + rans_run(
                t,
                12,
                (4 * crate::rans::pow2(12)) as int,
                br,
                tag_decoder.decoder().state(),
                tag_decoder.decoder().rest(),
                (num_tags - i) as nat,
            ),
            tags@.len() == i,
            forall|q: int| 0 <= q < i ==> tags@[q] <= 32,
            total_bits == nc * tag_sum(tags@, i as int),
        decreases num_tags - i,
    {
        let ghost pre = Seq::new(i as nat, |q: int| tags@[q] as int);
        proof {
            lemma_rans_run_step(
                t,
                12,
                (4 * crate::rans::pow2(12)) as int,
                br,
                tag_decoder.decoder().state(),
                tag_decoder.decoder().rest(),
                (num_tags - i) as nat,
            );
        }
        let tag = tag_decoder.decode();
        if tag > MAX_TAG_BIT_LENGTH as usize {
            proof {
                assert(raw[i as int] == tag);
                assert(0 <= i < raw.len() && raw[i as int] > 32);
                let ncs: nat = if num_components < 1 {
                    1
                } else {
                    num_components as nat
                };
                assert(ncs == nc);
                assert((num_symbols + ncs - 1) / (ncs as int) == num_tags);
                let ntags = (num_symbols + ncs - 1) / (ncs as int);
                assert(symbol_stream_init(s0, ntags as nat, 12) == Some((t, br, st0, rest0, k)));
                let raw2 = rans_run(t, 12, (4 * crate::rans::pow2(12)) as int, br, st0, rest0, ntags as nat);
                assert(raw2 == raw);
                assert(0 <= i < raw2.len() && raw2[i as int] > 32);
                assert(!(ncs > 255));
                assert(tagged_stream_parse(s0, num_symbols as nat, num_components as nat) is None);
            }
            return Err(DecodeError::InvalidBitLength(#[verifier::truncate] (tag as u8)));
        }
        assert(tag * nc <= 32 * 255) by (nonlinear_arith)
            requires
                tag <= 32,
                nc <= 255,
        ;
        let add = tag * nc;
        if total_bits > usize::MAX - add {
            proof {
                let all = tags_of(raw);
                assert(raw[i as int] == tag);
                assert forall|q: int| 0 <= q < i implies raw[q] == tags@[q] as int by {
                    assert(raw[q] == pre[q]);
                }
                if tags_ok(raw) {
                    let pushed = tags@.push(tag as u8);
                    assert forall|q: int| 0 <= q < i + 1 implies all[q] == pushed[q] by {
                        if q < i {
                            assert(raw[q] == tags@[q] as int);
                        }
                    }
                    lemma_tag_sum_prefix(all, pushed, i + 1);
                    lemma_tag_sum_prefix(pushed, tags@, i as int);
                    assert(tag_sum(pushed, i + 1) == tag_sum(pushed, i as int) + tag);
                    lemma_tag_sum_mono(all, i + 1, all.len() as int);
                    assert(nc * tag_sum(all, i + 1) <= nc * tag_sum(all, all.len() as int))
                        by (nonlinear_arith)
                        requires
                            tag_sum(all, i + 1) <= tag_sum(all, all.len() as int),
                            nc >= 1,
                    ;
                    assert(nc * tag_sum(all, i + 1) == total_bits + add) by (nonlinear_arith)
                        requires
                            tag_sum(all, i + 1) == tag_sum(tags@, i as int) + tag,
                            total_bits == nc * tag_sum(tags@, i as int),
                            add == tag * nc,
                    ;
                    let ncs: nat = if num_components < 1 {
                        1
                    } else {
                        num_components as nat
                    };
                    assert(ncs == nc);
                    let ntags = (num_symbols + ncs - 1) / (ncs as int);
                    assert(ntags == num_tags);
                    assert(symbol_stream_init(s0, ntags as nat, 12) == Some((t, br, st0, rest0, k)));
                }
                assert(tagged_stream_parse(s0, num_symbols as nat, num_components as nat) is None);
            }
            return Err(DecodeError::AllocationTooLarge("value field"));
        }
        let ghost old_tags = tags@;
        tags.push(tag as u8);
        total_bits = total_bits + add;
        proof {
            assert(tag_sum(tags@, i + 1) == tag_sum(tags@, i as int) + tag);
            lemma_tag_sum_prefix(tags@, old_tags, i as int);
            assert(nc * tag_sum(tags@, i + 1) == nc * tag_sum(
                old_tags,
                i as int,
            ) + tag * nc) by (nonlinear_arith)
                requires
                    tag_sum(tags@, i + 1) == tag_sum(old_tags, i as int) + tag,
            ;
            assert(Seq::new((i + 1) as nat, |q: int| tags@[q] as int) =~= pre.push(tag as int));
        }
        i += 1;
    }
    proof {
        let all = tags_of(raw);
        assert(all =~= tags@);
        assert(tags_ok(raw));
    }
    let nbytes = total_bits / 8 + if total_bits % 8 != 0 {
        1usize
    } else {
        0usize
    };
    let values = match reader.read_bytes(nbytes) {
        Ok(v) => v,
        Err(e) => return Err(DecodeError::Reader(e)),
    };
    proof {
        assert(values@ =~= s0.subrange(k as int, k + nbytes));
        assert(reader.rest() =~= s0.skip(k + nbytes));
    }
    Ok(TaggedSymbolDecoder {
        tags,
        values: BitCursor::new(values),
        num_components: nc as u8,
        next_tag: 0,
        remaining: 0,
        width: 0,
    })
}

proof fn lemma_rans_run_len(
    t: Seq<RansSymbol>,
    precision: nat,
    l_base: int,
    branchless: bool,
    state: int,
    rest: Seq<u8>,
    n: nat,
)
    ensures
        rans_run(t, precision, l_base, branchless, state, rest, n).len() == n,
    decreases n,
{
    if n > 0 {
        let (sym, st, r) = rans_next(t, precision, l_base, branchless, state, rest);
        lemma_rans_run_len(t, precision, l_base, branchless, st, r, (n - 1) as nat);
    }
}

/// Tag sums only look at the tags they cover.
proof fn lemma_tag_sum_prefix(a: Seq<u8>, b: Seq<u8>, g: int)
    requires
        0 <= g <= a.len(),
        g <= b.len(),
        forall|q: int| 0 <= q < g ==> a[q] == b[q],
    ensures
        tag_sum(a, g) == tag_sum(b, g),
    decreases g,
{
    if g > 0 {
        lemma_tag_sum_prefix(a, b, g - 1);
    }
}

/// The rANS decoder parameters of precision `p`: its threshold `4 << p`.
pub open spec fn l_base_of(p: nat) -> int {
    (4 * crate::rans::pow2(p)) as int
}

/// The parse of a DirectCoded stream body (after its method byte) for
/// `num_symbols` symbols: the decoded symbols and the bytes the body spans.
pub open spec fn direct_stream_parse(s: Seq<u8>, num_symbols: nat) -> Option<(Seq<u64>, nat)> {
    if s.len() < 1 {
        None
    } else {
        match precision_for(s[0]) {
            Some(p) => match symbol_stream_init(s.skip(1), num_symbols, p as nat) {
                Some((t, br, st, rest, k)) => {
                    let raw = rans_run(t, p as nat, l_base_of(p as nat), br, st, rest, num_symbols);
                    Some((symbols_of(raw), k + 1))
                },
                None => None,
            },
            None => None,
        }
    }
}

/// The parse of a symbol stream for `num_symbols` symbols in groups of
/// `num_components`: the decoded symbols and the bytes the stream spans.
#[verifier::opaque]
pub open spec fn symbols_parse(s: Seq<u8>, num_symbols: nat, num_components: nat) -> Option<
    (Seq<u64>, nat),
> {
    if s.len() < 1 {
        None
    } else {
        match method_of(s[0]) {
            Some(SymbolEncodingMethod::DirectCoded) => match direct_stream_parse(
                s.skip(1),
                num_symbols,
            ) {
                Some((v, k)) => Some((v, k + 1)),
                None => None,
            },
            Some(SymbolEncodingMethod::LengthCoded) => match tagged_stream_parse(
                s.skip(1),
                num_symbols,
                num_components,
            ) {
                Some((tags, field, nc, k)) => Some(
                    (tagged_values(tags, field, nc, num_symbols), k + 1),
                ),
                None => None,
            },
            None => None,
        }
    }
}

/// A LengthCoded symbol stream `s` read for `n` values in groups of
/// `num_components`: popping the tagged decoder that
/// [`start_symbol_decoder`] makes of it `n` times from its start gives, in
/// order, the values that [`decode_symbols`] gives of the same stream.
pub proof fn lemma_tagged_stream_pops_match_batch(s: Seq<u8>, n: nat, num_components: nat)
    requires
        s.len() >= 1,
        method_of(s[0]) == Some(SymbolEncodingMethod::LengthCoded),
        tagged_stream_parse(s.skip(1), n, num_components) is Some,
        n < usize::MAX,
    ensures
        match tagged_stream_parse(s.skip(1), n, num_components) {
            Some((tags, field, nc, _)) => symbols_parse(s, n, num_components) matches Some((batch, _))
                && batch.len() == n && tagged_pops(tags, field, nc, (0, 0, 0, 0), n).len() == n
                && forall|j: int|
                0 <= j < n ==> (#[trigger] tagged_pops(tags, field, nc, (0, 0, 0, 0), n)[j]) as u64 == batch[j],
            None => false,
        },
{
    reveal(symbols_parse);
    let (tags, field, nc, k) = tagged_stream_parse(s.skip(1), n, num_components)->Some_0;
    let num_tags = (n + nc - 1) / (nc as int);
    let (t, br, st, rest, k0) = symbol_stream_init(s.skip(1), num_tags as nat, 12)->Some_0;
    lemma_rans_run_len(t, 12, (4 * crate::rans::pow2(12)) as int, br, st, rest, num_tags as nat);
    assert(tags.len() == num_tags);
    assert(n <= nc * tags.len()) by (nonlinear_arith)
        requires
            nc >= 1,
            num_tags == (n + nc - 1) / (nc as int),
            tags.len() == num_tags,
    ;
    assert(num_tags <= n) by (nonlinear_arith)
        requires
            nc >= 1,
            num_tags == (n + nc - 1) / (nc as int),
    ;
    lemma_tagged_pops_match_batch(tags, field, nc, n);
}

/// Unfolds [`symbols_parse`] by the method byte.
pub proof fn lemma_symbols_parse_unfold(s: Seq<u8>, num_symbols: nat, num_components: nat)
    ensures
        s.len() < 1 ==> symbols_parse(s, num_symbols, num_components) is None,
        s.len() >= 1 && method_of(s[0]) is None ==> symbols_parse(
            s,
            num_symbols,
            num_components,
        ) is None,
        s.len() >= 1 && method_of(s[0]) == Some(SymbolEncodingMethod::DirectCoded) ==> symbols_parse(
            s,
            num_symbols,
            num_components,
        ) == match direct_stream_parse(s.skip(1), num_symbols) {
            Some((v, k)) => Some((v, k + 1)),
            None => None,
        },
        s.len() >= 1 && method_of(s[0]) == Some(SymbolEncodingMethod::LengthCoded) ==> symbols_parse(
            s,
            num_symbols,
            num_components,
        ) == match tagged_stream_parse(s.skip(1), num_symbols, num_components) {
            Some((tags, field, nc, k)) => Some((tagged_values(tags, field, nc, num_symbols), k + 1)),
            None => None,
        },
{
    reveal(symbols_parse);
}

/// Decodes `num_symbols` DirectCoded symbols.
fn decode_symbols_direct(reader: &mut Reader<'_>, num_symbols: usize) -> (r: Result<
    Vec<u64>,
    DecodeError,
>)
    ensures
        match direct_stream_parse(old(reader).rest(), num_symbols as nat) {
            Some((v, k)) => r matches Ok(out) && out@ == v && final(reader).rest() == old(reader).rest().skip(k as int),
            None => r is Err,
        },
{
    let ghost s0 = reader.rest();
    let bit_length = match reader.read_u8() {
        Ok(b) => b,
        Err(e) => return Err(DecodeError::Reader(e)),
    };
    let precision = precision_for_bit_length(bit_length)?;
    let ghost s1 = reader.rest();
    let mut decoder = RansSymbolDecoder::new(reader, num_symbols, precision)?;
    let ghost (t, br, st0, rest0, k) = symbol_stream_init(s1, num_symbols as nat, precision as nat)->0;
    let ghost raw = rans_run(t, precision as nat, l_base_of(precision as nat), br, st0, rest0, num_symbols as nat);
    proof {
        lemma_rans_run_len(t, precision as nat, l_base_of(precision as nat), br, st0, rest0, num_symbols as nat);
        lemma_symbol_stream_len(s1, num_symbols as nat, precision as nat);
        assert(s1 == s0.skip(1));
    }
    let mut out: Vec<u64> = Vec::new();
    let mut i: usize = 0;
    while i < num_symbols
        invariant
            i <= num_symbols,
            decoder.decoder().wf(),
            decoder.decoder().symbols() == t,
            decoder.decoder().precision() == precision,
            decoder.decoder().l_base() == l_base_of(precision as nat),
            decoder.decoder().branchless() == br,
            raw.len() == num_symbols,
            raw == Seq::new(i as nat, |q: int| out@[q] as int) + rans_run(
                t,
                precision as nat,
                l_base_of(precision as nat),
                br,
                decoder.decoder().state(),
                decoder.decoder().rest(),
                (num_symbols - i) as nat,
            ),
            out@.len() == i,
        decreases num_symbols - i,
    {
        let ghost pre = Seq::new(i as nat, |q: int| out@[q] as int);
        proof {
            lemma_rans_run_step(
                t,
                precision as nat,
                l_base_of(precision as nat),
                br,
                decoder.decoder().state(),
                decoder.decoder().rest(),
                (num_symbols - i) as nat,
            );
        }
        let sym = decoder.decode();
        out.push(sym as u64);
        proof {
            assert(Seq::new((i + 1) as nat, |q: int| out@[q] as int) =~= pre.push(sym as int));
        }
        i += 1;
    }
    proof {
        assert(out@ =~= symbols_of(raw));
        assert(reader.rest() =~= s0.skip((k + 1) as int));
    }
    Ok(out)
}

/// `j / nc` and `j % nc` of `g * nc + c`.
proof fn lemma_div_mod_split(g: int, c: int, nc: int)
    requires
        0 <= g,
        0 <= c < nc,
    ensures
        (g * nc + c) / nc == g,
        (g * nc + c) % nc == c,
{
    lemma_div_multiples_vanish_fancy(g, c, nc);
    lemma_mod_multiples_vanish(g, c, nc);
    lemma_small_mod(c as nat, nc as nat);
    assert(nc * g == g * nc) by (nonlinear_arith);
}

/// Pops `n` values from a fresh LengthCoded decoder.
fn drain_tagged(decoder: &mut TaggedSymbolDecoder<'_>, n: usize) -> (out: Vec<u64>)
    requires
        old(decoder).wf(),
        old(decoder).pos() == 0,
        old(decoder).next_tag() == 0,
        old(decoder).remaining() == 0,
        old(decoder).tags().len() * old(decoder).num_components() >= n,
        old(decoder).num_components() * tag_sum(old(decoder).tags(), old(decoder).tags().len() as int)
            <= usize::MAX,
    ensures
        out@ == tagged_values(
            old(decoder).tags(),
            old(decoder).field(),
            old(decoder).num_components(),
            n as nat,
        ),
{
    let ghost tags = decoder.tags();
    let ghost field = decoder.field();
    let ghost nc = decoder.num_components();
    let ghost len = tags.len();
    let mut out: Vec<u64> = Vec::new();
    let mut j: usize = 0;
    let ghost mut g: nat = 0;
    let ghost mut c: nat = 0;
    while j < n
        invariant
            decoder.wf(),
            decoder.tags() == tags,
            decoder.field() == field,
            decoder.num_components() == nc,
            nc >= 1,
            len == tags.len(),
            len * nc >= n,
            nc * tag_sum(tags, len as int) <= usize::MAX,
            j <= n,
            j == g * nc + c,
            c < nc,
            g <= len,
            c > 0 ==> g < len,
            out@ =~= tagged_values(tags, field, nc, j as nat),
            c == 0 ==> decoder.remaining() == 0 && decoder.next_tag() == g && decoder.pos() == nc
                * tag_sum(tags, g as int),
            c > 0 ==> decoder.remaining() == nc - c && decoder.next_tag() == g + 1
                && decoder.width() == tags[g as int] && decoder.pos() == nc * tag_sum(
                tags,
                g as int,
            ) + c * tags[g as int],
        decreases n - j,
    {
        proof {
            lemma_div_mod_split(g as int, c as int, nc as int);
            assert(g < len) by (nonlinear_arith)
                requires
                    j == g * nc + c,
                    j < n,
                    len * nc >= n,
                    nc >= 1,
            ;
            lemma_tag_sum_mono(tags, (g + 1) as int, len as int);
            assert(nc * tag_sum(tags, g as int) + (c + 1) * tags[g as int] <= nc * tag_sum(
                tags,
                (g + 1) as int,
            )) by (nonlinear_arith)
                requires
                    c + 1 <= nc,
                    tag_sum(tags, (g + 1) as int) == tag_sum(tags, g as int) + tags[g as int],
                    tags[g as int] >= 0,
            ;
            assert(nc * tag_sum(tags, (g + 1) as int) <= nc * tag_sum(tags, len as int))
                by (nonlinear_arith)
                requires
                    tag_sum(tags, (g + 1) as int) <= tag_sum(tags, len as int),
                    nc >= 1,
            ;
        }
        let v = decoder.decode();
        proof {
            assert((c + 1) * tags[g as int] == c * tags[g as int] + tags[g as int])
                by (nonlinear_arith);
            assert(decoder.pos() == nc * tag_sum(tags, g as int) + (c + 1) * tags[g as int]);
            assert(decoder.width() == tags[g as int]);
            assert(decoder.next_tag() == g + 1);
            assert(decoder.remaining() == nc - c - 1);
        }
        let ghost old_out = out@;
        out.push(v as u64);
        proof {
            assert(v == tagged_value(tags, field, nc, j as nat));
            assert(out@ =~= tagged_values(tags, field, nc, (j + 1) as nat));
            if c + 1 == nc {
                assert(nc * tag_sum(tags, g as int) + nc * tags[g as int] == nc * tag_sum(
                    tags,
                    (g + 1) as int,
                )) by (nonlinear_arith)
                    requires
                        tag_sum(tags, (g + 1) as int) == tag_sum(tags, g as int) + tags[g as int],
                ;
                assert(j + 1 == (g + 1) * nc + 0) by (nonlinear_arith)
                    requires
                        j == g * nc + c,
                        c + 1 == nc,
                ;
                g = g + 1;
                c = 0;
            } else {
                c = c + 1;
            }
        }
        j += 1;
    }
    out
}

/// Decodes `num_values * num_components` symbols from `reader`: reads the
/// encoding-method byte and dispatches. `num_components` sizes the value
/// groups a LengthCoded stream shares a bit width across.
pub fn decode_symbols(reader: &mut Reader<'_>, num_values: usize, num_components: usize) -> (r:
    Result<Vec<u64>, DecodeError>)
    requires
        num_values * num_components <= usize::MAX,
    ensures
        match symbols_parse(
            old(reader).rest(),
            (num_values * num_components) as nat,
            num_components as nat,
        ) {
            Some((v, k)) => r matches Ok(out) && out@ == v && k <= old(reader).rest().len() && final(reader).rest() == old(reader).rest().skip(k as int),
            None => r is Err,
        },
{
    decode_symbol_values(reader, num_values * num_components, num_components)
}

/// Decodes `num_symbols` symbols from `reader` (in groups of
/// `num_components` for a LengthCoded stream).
pub fn decode_symbol_values(reader: &mut Reader<'_>, num_symbols: usize, num_components: usize) -> (r:
    Result<Vec<u64>, DecodeError>)
    ensures
        match symbols_parse(old(reader).rest(), num_symbols as nat, num_components as nat) {
            Some((v, k)) => r matches Ok(out) && out@ == v && k <= old(reader).rest().len() && final(reader).rest() == old(reader).rest().skip(k as int),
            None => r is Err,
        },
{
    let ghost s0 = reader.rest();
    proof {
        lemma_symbols_parse_unfold(s0, num_symbols as nat, num_components as nat);
    }
    let method = SymbolEncodingMethod::read_from(reader)?;
    proof {
        assert(reader.rest() == s0.skip(1));
        lemma_stream_bodies_len(s0.skip(1), num_symbols as nat, num_components as nat);
    }
    match method {
        SymbolEncodingMethod::DirectCoded => {
            let out = decode_symbols_direct(reader, num_symbols)?;
            proof {
                if let Some((v, k)) = direct_stream_parse(s0.skip(1), num_symbols as nat) {
                    assert(s0.skip(1).skip(k as int) =~= s0.skip((k + 1) as int));
                }
            }
            Ok(out)
        },
        SymbolEncodingMethod::LengthCoded => {
            let mut decoder = start_tagged_decoder(reader, num_symbols, num_components)?;
            proof {
                let (tags, field, nc, k) = tagged_stream_parse(
                    s0.skip(1),
                    num_symbols as nat,
                    num_components as nat,
                )->0;
                assert(s0.skip(1).skip(k as int) =~= s0.skip((k + 1) as int));
                lemma_tagged_counts(s0.skip(1), num_symbols as nat, num_components as nat);
            }
            let out = drain_tagged(&mut decoder, num_symbols);
            Ok(out)
        },
    }
}

/// A parsed symbol stream holds exactly the symbols asked for.
pub proof fn lemma_symbols_parse_len(s: Seq<u8>, num_symbols: nat, num_components: nat)
    ensures
        symbols_parse(s, num_symbols, num_components) matches Some((v, k)) ==> v.len()
            == num_symbols,
{
    reveal(symbols_parse);
    if s.len() >= 1 {
        let d = s.skip(1);
        if let Some(SymbolEncodingMethod::DirectCoded) = method_of(s[0]) {
            if d.len() >= 1 {
                if let Some(p) = precision_for(d[0]) {
                    if let Some((t, br, st, rest, k)) = symbol_stream_init(d.skip(1), num_symbols, p as nat) {
                        lemma_rans_run_len(t, p as nat, l_base_of(p as nat), br, st, rest, num_symbols);
                        let raw = rans_run(t, p as nat, l_base_of(p as nat), br, st, rest, num_symbols);
                        assert(symbols_of(raw).len() == num_symbols);
                        assert(direct_stream_parse(d, num_symbols) == Some((symbols_of(raw), k + 1)));
                    }
                }
            }
        } else if let Some(SymbolEncodingMethod::LengthCoded) = method_of(s[0]) {
            if let Some((tags, field, nc, k)) = tagged_stream_parse(d, num_symbols, num_components) {
                assert(tagged_values(tags, field, nc, num_symbols).len() == num_symbols);
            }
        }
    }
}

/// Symbol stream bodies lie within their input.
proof fn lemma_stream_bodies_len(s: Seq<u8>, num_symbols: nat, num_components: nat)
    ensures
        direct_stream_parse(s, num_symbols) matches Some((v, k)) ==> k <= s.len(),
        tagged_stream_parse(s, num_symbols, num_components) matches Some((tags, field, nc, k))
            ==> k <= s.len(),
{
    if s.len() >= 1 {
        if let Some(p) = precision_for(s[0]) {
            lemma_symbol_stream_len(s.skip(1), num_symbols, p as nat);
        }
    }
    let nc: nat = if num_components < 1 {
        1
    } else {
        num_components
    };
    let ntags = (num_symbols + nc - 1) / (nc as int);
    lemma_symbol_stream_len(s, ntags as nat, 12);
    if let Some((tags, field, nc2, k)) = tagged_stream_parse(s, num_symbols, num_components) {
        assert(nc <= 255);
        assert(symbol_stream_init(s, ntags as nat, 12) is Some);
        let (t, br, st, rest, kk) = symbol_stream_init(s, ntags as nat, 12)->0;
        assert(symbol_stream_init(s, ntags as nat, 12) == Some((t, br, st, rest, kk)));
        assert(kk <= s.len());
        let raw = rans_run(t, 12, (4 * crate::rans::pow2(12)) as int, br, st, rest, ntags as nat);
        let tg = tags_of(raw);
        lemma_tag_sum_mono(tg, 0, tg.len() as int);
        let total_bits = nc * tag_sum(tg, tg.len() as int);
        let nbytes = (total_bits + 7) / 8;
        assert(nbytes <= s.len() - kk);
        assert(nc <= 255);
        assert(tags_ok(raw));
        assert(total_bits <= usize::MAX);
        assert(tagged_stream_parse(s, num_symbols, num_components) == Some(
            (tg, s.subrange(kk as int, kk + nbytes), nc, (kk + nbytes) as nat),
        ));
        assert(k == kk + nbytes);
    }
}

/// A LengthCoded body has enough groups for its symbols and a value field
/// whose bit count fits in a `usize`.
proof fn lemma_tagged_counts(s: Seq<u8>, num_symbols: nat, num_components: nat)
    ensures
        tagged_stream_parse(s, num_symbols, num_components) matches Some((tags, field, nc, k))
            ==> tags.len() * nc >= num_symbols && nc * tag_sum(tags, tags.len() as int)
            <= usize::MAX && nc >= 1,
{
    if let Some((tags, field, nc, k)) = tagged_stream_parse(s, num_symbols, num_components) {
        let ntags = (num_symbols + nc - 1) / (nc as int);
        let (t, br, st, rest, kk) = symbol_stream_init(s, ntags as nat, 12)->0;
        lemma_rans_run_len(t, 12, (4 * crate::rans::pow2(12)) as int, br, st, rest, ntags as nat);
        assert(ntags * nc >= num_symbols) by (nonlinear_arith)
            requires
                ntags == (num_symbols + nc - 1) / (nc as int),
                nc >= 1,
        ;
    }
}

/// A live symbol decoder over either stream kind, for consumers that pop
/// symbols one at a time instead of batch-decoding. Symbols come out in the
/// same order [`decode_symbols`] returns them.
pub enum AnySymbolDecoder<'a> {
    /// A DirectCoded stream.
    Direct(RansSymbolDecoder<'a>),
    /// A LengthCoded stream.
    Tagged(TaggedSymbolDecoder<'a>),
}

/// Parses a symbol stream's framing and frequency table, returning a live
/// decoder positioned before the first symbol. The reader is left
/// immediately after the stream's payload.
pub fn start_symbol_decoder<'a>(
    reader: &mut Reader<'a>,
    num_symbols: usize,
    num_components: usize,
) -> (r: Result<AnySymbolDecoder<'a>, DecodeError>)
    ensures
        ({
            let s = old(reader).rest();
            &&& s.len() < 1 ==> r is Err
            &&& s.len() >= 1 && method_of(s[0]) is None ==> r is Err
            &&& s.len() >= 1 && method_of(s[0]) == Some(SymbolEncodingMethod::DirectCoded) ==> {
                let b = s.skip(1);
                match (if b.len() < 1 {
                    None
                } else {
                    precision_for(b[0])
                }) {
                    Some(p) => match symbol_stream_init(b.skip(1), num_symbols as nat, p as nat) {
                        Some((t, br, st, rest, k)) => r matches Ok(AnySymbolDecoder::Direct(d))
                            && d.decoder().wf() && d.decoder().symbols() == t
                            && d.decoder().precision() == p && d.decoder().l_base() == l_base_of(
                            p as nat,
                        ) && d.decoder().branchless() == br && d.decoder().state() == st
                            && d.decoder().rest() == rest && final(reader).rest() == s.skip(
                            (k + 2) as int,
                        ),
                        None => r is Err,
                    },
                    None => r is Err,
                }
            }
            &&& s.len() >= 1 && method_of(s[0]) == Some(SymbolEncodingMethod::LengthCoded) ==> {
                match tagged_stream_parse(s.skip(1), num_symbols as nat, num_components as nat) {
                    Some((tags, field, nc, k)) => r matches Ok(AnySymbolDecoder::Tagged(d))
                        && d.wf() && d.tags() == tags && d.field() == field && d.num_components()
                        == nc && d.pos() == 0 && d.next_tag() == 0 && d.remaining() == 0 && d.width() == 0 && final(reader).rest() == s.skip((k + 1) as int),
                    None => r is Err,
                }
            }
        }),
{
    let ghost s0 = reader.rest();
    let method = SymbolEncodingMethod::read_from(reader)?;
    proof {
        assert(reader.rest() == s0.skip(1));
    }
    match method {
        SymbolEncodingMethod::DirectCoded => {
            let ghost s1 = reader.rest();
            let bit_length = match reader.read_u8() {
                Ok(b) => b,
                Err(e) => return Err(DecodeError::Reader(e)),
            };
            let precision = precision_for_bit_length(bit_length)?;
            let ghost s2 = reader.rest();
            let d = RansSymbolDecoder::new(reader, num_symbols, precision)?;
            proof {
                lemma_symbol_stream_len(s2, num_symbols as nat, precision as nat);
                assert(s2 == s1.skip(1));
                assert(s1 == s0.skip(1));
                if let Some((t, br, st, rest, k)) = symbol_stream_init(
                    s2,
                    num_symbols as nat,
                    precision as nat,
                ) {
                    assert(s2.skip(k as int) =~= s0.skip((k + 2) as int));
                }
            }
            Ok(AnySymbolDecoder::Direct(d))
        },
        SymbolEncodingMethod::LengthCoded => {
            let d = start_tagged_decoder(reader, num_symbols, num_components)?;
            proof {
                lemma_stream_bodies_len(s0.skip(1), num_symbols as nat, num_components as nat);
                if let Some((tags, field, nc, k)) = tagged_stream_parse(
                    s0.skip(1),
                    num_symbols as nat,
                    num_components as nat,
                ) {
                    assert(s0.skip(1).skip(k as int) =~= s0.skip((k + 1) as int));
                }
            }
            Ok(AnySymbolDecoder::Tagged(d))
        },
    }
}

} // verus!
