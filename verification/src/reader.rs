//! Byte cursors over a borrowed stream: a forward reader for the framing of
//! every section, and a reverse reader that consumes the renormalization
//! bytes of the rANS/rabs decoders back-to-front from the tail of a
//! sub-stream. Multi-byte values are little-endian in both directions.

use vstd::prelude::*;
use vstd::slice::slice_subrange;
use crate::error::ReaderErr;

verus! {

/// Little-endian value of two bytes.
pub open spec fn le16(b0: u8, b1: u8) -> int {
    b0 + 256 * b1
}

/// Little-endian value of three bytes.
pub open spec fn le24(b0: u8, b1: u8, b2: u8) -> int {
    b0 + 256 * b1 + 65536 * b2
}

/// Little-endian value of four bytes.
pub open spec fn le32(b0: u8, b1: u8, b2: u8, b3: u8) -> int {
    b0 + 256 * b1 + 65536 * b2 + 16777216 * b3
}

/// Little-endian value of the first `n` bytes of `s`.
pub open spec fn le_value(s: Seq<u8>, n: nat) -> nat
    decreases n,
{
    if n == 0 || s.len() == 0 {
        0
    } else {
        (s[0] + 256 * le_value(s.drop_first(), (n - 1) as nat)) as nat
    }
}

/// The parse of an unsigned LEB128 number at the start of `s`: the number of
/// bytes it spans and its value. `None` when the stream ends before a byte
/// with a clear high bit.
pub open spec fn leb128_parse(s: Seq<u8>) -> Option<(nat, nat)>
    decreases s.len(),
{
    if s.len() == 0 {
        None
    } else if s[0] < 128 {
        Some((1nat, s[0] as nat))
    } else {
        match leb128_parse(s.drop_first()) {
            Some((n, v)) => Some((n + 1, ((s[0] - 128) + 128 * v) as nat)),
            None => None,
        }
    }
}

/// Whether `s` starts with an LEB128 number of at most ten bytes whose value
/// fits in 64 bits.
pub open spec fn leb128_ok(s: Seq<u8>) -> bool {
    match leb128_parse(s) {
        Some((n, v)) => n <= 10 && v <= u64::MAX,
        None => false,
    }
}

/// A forward cursor over a borrowed byte slice.
pub struct Reader<'a> {
    data: &'a [u8],
}

impl<'a> Reader<'a> {
    /// The bytes not yet consumed.
    pub closed spec fn rest(&self) -> Seq<u8> {
        self.data@
    }

    /// Creates a cursor at the start of `data`.
    pub fn new(data: &'a [u8]) -> (r: Self)
        ensures
            r.rest() == data@,
    {
        Reader { data }
    }

    /// Number of bytes left.
    pub fn remaining(&self) -> (n: usize)
        ensures
            n == self.rest().len(),
    {
        self.data.len()
    }

    /// Whether every byte has been consumed.
    pub fn is_empty(&self) -> (b: bool)
        ensures
            b <==> self.rest().len() == 0,
    {
        self.data.len() == 0
    }

    /// Reads one byte.
    pub fn read_u8(&mut self) -> (r: Result<u8, ReaderErr>)
        ensures
            old(self).rest().len() >= 1 ==> r == Ok::<u8, ReaderErr>(old(self).rest()[0])
                && final(self).rest() == old(self).rest().skip(1),
            old(self).rest().len() < 1 ==> r == Err::<u8, ReaderErr>(ReaderErr::NotEnoughData)
                && final(self).rest() == old(self).rest(),
    {
        if self.data.len() == 0 {
            return Err(ReaderErr::NotEnoughData);
        }
        let b = self.data[0];
        self.data = slice_subrange(self.data, 1, self.data.len());
        Ok(b)
    }

    /// Reads a little-endian u16.
    pub fn read_u16(&mut self) -> (r: Result<u16, ReaderErr>)
        ensures
            old(self).rest().len() >= 2 ==> (r matches Ok(v) && v == le16(
                old(self).rest()[0],
                old(self).rest()[1],
            ) && final(self).rest() == old(self).rest().skip(2)),
            old(self).rest().len() < 2 ==> r == Err::<u16, ReaderErr>(ReaderErr::NotEnoughData)
                && final(self).rest() == old(self).rest(),
    {
        if self.data.len() < 2 {
            return Err(ReaderErr::NotEnoughData);
        }
        let v = self.data[0] as u16 + 256 * (self.data[1] as u16);
        self.data = slice_subrange(self.data, 2, self.data.len());
        Ok(v)
    }

    /// Reads a little-endian u32.
    pub fn read_u32(&mut self) -> (r: Result<u32, ReaderErr>)
        ensures
            old(self).rest().len() >= 4 ==> (r matches Ok(v) && v == le32(
                old(self).rest()[0],
                old(self).rest()[1],
                old(self).rest()[2],
                old(self).rest()[3],
            ) && final(self).rest() == old(self).rest().skip(4)),
            old(self).rest().len() < 4 ==> r == Err::<u32, ReaderErr>(ReaderErr::NotEnoughData)
                && final(self).rest() == old(self).rest(),
    {
        if self.data.len() < 4 {
            return Err(ReaderErr::NotEnoughData);
        }
        let v = self.data[0] as u32 + 256 * (self.data[1] as u32) + 65536 * (self.data[2] as u32)
            + 16777216 * (self.data[3] as u32);
        self.data = slice_subrange(self.data, 4, self.data.len());
        Ok(v)
    }

    /// Borrows the next `n` bytes and moves past them.
    pub fn read_bytes(&mut self, n: usize) -> (r: Result<&'a [u8], ReaderErr>)
        ensures
            n <= old(self).rest().len() ==> (r matches Ok(s) && s@ == old(self).rest().take(
                n as int,
            ) && final(self).rest() == old(self).rest().skip(n as int)),
            n > old(self).rest().len() ==> r == Err::<&'a [u8], ReaderErr>(
                ReaderErr::NotEnoughData,
            ) && final(self).rest() == old(self).rest(),
    {
        if n > self.data.len() {
            return Err(ReaderErr::NotEnoughData);
        }
        let head = slice_subrange(self.data, 0, n);
        self.data = slice_subrange(self.data, n, self.data.len());
        Ok(head)
    }
}

/// Parses an LEB128 number at the start of `data`, allowing at most `budget`
/// bytes. Returns the byte count and the value.
fn leb128_prefix(data: &[u8], budget: usize) -> (r: Option<(usize, u64)>)
    requires
        budget <= 10,
    ensures
        match r {
            Some((n, v)) => leb128_parse(data@) == Some((n as nat, v as nat)) && n <= budget,
            None => match leb128_parse(data@) {
                Some((n, v)) => n > budget || v > u64::MAX,
                None => true,
            },
        },
    decreases budget,
{
    if data.len() == 0 || budget == 0 {
        return None;
    }
    let b = data[0];
    if b < 128 {
        return Some((1, b as u64));
    }
    let tail = slice_subrange(data, 1, data.len());
    proof {
        assert(tail@ == data@.drop_first());
    }
    match leb128_prefix(tail, budget - 1) {
        Some((n, v)) => {
            let low = (b - 128) as u64;
            if v > (u64::MAX - low) / 128 {
                None
            } else {
                Some((n + 1, low + 128 * v))
            }
        },
        None => None,
    }
}

/// Reads an unsigned LEB128 number of at most ten bytes.
pub fn leb128_read(reader: &mut Reader<'_>) -> (r: Result<u64, ReaderErr>)
    ensures
        match r {
            Ok(v) => leb128_parse(old(reader).rest()) matches Some((n, val)) && val == v && n
                <= 10 && final(reader).rest() == old(reader).rest().skip(n as int),
            Err(e) => !leb128_ok(old(reader).rest()) && final(reader).rest() == old(reader).rest() && (e == ReaderErr::NotEnoughData <==> leb128_parse(old(reader).rest())
                is None),
        },
{
    match leb128_prefix(reader.data, 10) {
        Some((n, v)) => {
            proof {
                lemma_leb128_len(reader.data@);
            }
            reader.data = slice_subrange(reader.data, n, reader.data.len());
            Ok(v)
        },
        None => {
            if leb128_terminates(reader.data) {
                Err(ReaderErr::VarintOverflow)
            } else {
                Err(ReaderErr::NotEnoughData)
            }
        },
    }
}

/// Whether `data` holds a byte with a clear high bit.
fn leb128_terminates(data: &[u8]) -> (b: bool)
    ensures
        b <==> leb128_parse(data@) is Some,
{
    let mut i: usize = 0;
    while i < data.len()
        invariant
            i <= data@.len(),
            forall|j: int| 0 <= j < i ==> data@[j] >= 128,
        decreases data.len() - i,
    {
        if data[i] < 128 {
            proof {
                lemma_leb128_skip(data@, i as nat);
                assert(data@.skip(i as int)[0] == data@[i as int]);
            }
            return true;
        }
        i += 1;
    }
    proof {
        lemma_leb128_skip(data@, i as nat);
    }
    false
}

/// An LEB128 parse spans at least one byte and never more than the input.
pub proof fn lemma_leb128_len(s: Seq<u8>)
    ensures
        leb128_parse(s) matches Some((n, v)) ==> 1 <= n <= s.len(),
    decreases s.len(),
{
    if s.len() > 0 && s[0] >= 128 {
        lemma_leb128_len(s.drop_first());
    }
}

/// Skipping a run of continuation bytes does not change whether a parse
/// succeeds.
proof fn lemma_leb128_skip(s: Seq<u8>, i: nat)
    requires
        i <= s.len(),
        forall|j: int| 0 <= j < i ==> s[j] >= 128,
    ensures
        (leb128_parse(s) is Some) <==> (leb128_parse(s.skip(i as int)) is Some),
    decreases i,
{
    if i > 0 {
        assert(s[0] >= 128);
        lemma_leb128_skip(s.drop_first(), (i - 1) as nat);
        assert(s.drop_first().skip(i - 1) == s.skip(i as int));
    } else {
        assert(s.skip(0) == s);
    }
}

/// Reads a borrowed byte slice back-to-front. Multi-byte reads reproduce the
/// little-endian value as if the bytes had been read forward.
#[derive(Clone, Copy)]
pub struct RevReader<'a> {
    data: &'a [u8],
}

/// `state` after folding in the last `k` bytes of `s`, last byte first.
pub open spec fn pull_back(state: int, s: Seq<u8>, k: nat) -> int
    decreases k,
{
    if k == 0 || s.len() == 0 {
        state
    } else {
        pull_back(state * 256 + s.last(), s.drop_last(), (k - 1) as nat)
    }
}

/// The byte-at-a-time rANS renormalization: folds tail bytes into `state`
/// until it reaches `l_base` or the bytes run out. Returns the new state and
/// the bytes left.
pub open spec fn refill_loop(state: int, s: Seq<u8>, l_base: int) -> (int, Seq<u8>)
    decreases s.len(),
{
    if state >= l_base || s.len() == 0 {
        (state, s)
    } else {
        refill_loop(state * 256 + s.last(), s.drop_last(), l_base)
    }
}

/// The smallest `k` with `s * 256^k >= l_base`, for `s >= 1`.
pub open spec fn bytes_needed(s: int, l_base: int) -> nat
    decreases (if l_base > s { l_base - s } else { 0 }),
{
    if s <= 0 || s >= l_base {
        0
    } else {
        1 + bytes_needed(s * 256, l_base)
    }
}

impl<'a> RevReader<'a> {
    /// The bytes not yet consumed; reading proceeds from the end.
    pub closed spec fn rest(&self) -> Seq<u8> {
        self.data@
    }

    /// Creates a reverse cursor over `data`.
    pub fn new(data: &'a [u8]) -> (r: Self)
        ensures
            r.rest() == data@,
    {
        RevReader { data }
    }

    /// Number of bytes left.
    pub fn remaining(&self) -> (n: usize)
        ensures
            n == self.rest().len(),
    {
        self.data.len()
    }

    /// Reads the last byte.
    pub fn read_u8_back(&mut self) -> (r: Result<u8, ReaderErr>)
        ensures
            old(self).rest().len() >= 1 ==> r == Ok::<u8, ReaderErr>(old(self).rest().last())
                && final(self).rest() == old(self).rest().drop_last(),
            old(self).rest().len() == 0 ==> r == Err::<u8, ReaderErr>(ReaderErr::NotEnoughData)
                && final(self).rest() == old(self).rest(),
    {
        let n = self.data.len();
        if n == 0 {
            return Err(ReaderErr::NotEnoughData);
        }
        let last = self.data[n - 1];
        self.data = slice_subrange(self.data, 0, n - 1);
        Ok(last)
    }

    /// Reads the last two bytes as a little-endian u16.
    pub fn read_u16_back(&mut self) -> (r: Result<u16, ReaderErr>)
        ensures
            ({
                let s = old(self).rest();
                let n = s.len() as int;
                &&& n >= 2 ==> (r matches Ok(v) && v == le16(s[n - 2], s[n - 1]) && final(self).rest() == s.take(n - 2))
                &&& n < 2 ==> r == Err::<u16, ReaderErr>(ReaderErr::NotEnoughData) && final(self).rest().len() == 0
            }),
    {
        let n = self.data.len();
        if n < 2 {
            let _ = self.read_u8_back();
            return Err(ReaderErr::NotEnoughData);
        }
        let hi = self.read_u8_back();
        let lo = self.read_u8_back();
        match (hi, lo) {
            (Ok(hi), Ok(lo)) => Ok(lo as u16 + 256 * (hi as u16)),
            _ => Err(ReaderErr::NotEnoughData),
        }
    }

    /// Reads the last three bytes as a little-endian 24-bit value.
    pub fn read_u24_back(&mut self) -> (r: Result<u32, ReaderErr>)
        ensures
            ({
                let s = old(self).rest();
                let n = s.len() as int;
                &&& n >= 3 ==> (r matches Ok(v) && v == le24(s[n - 3], s[n - 2], s[n - 1])
                    && final(self).rest() == s.take(n - 3))
                &&& n < 3 ==> r == Err::<u32, ReaderErr>(ReaderErr::NotEnoughData) && final(self).rest().len() == 0
            }),
    {
        let n = self.data.len();
        if n < 3 {
            self.data = slice_subrange(self.data, 0, 0);
            return Err(ReaderErr::NotEnoughData);
        }
        let b2 = self.data[n - 1];
        let b1 = self.data[n - 2];
        let b0 = self.data[n - 3];
        self.data = slice_subrange(self.data, 0, n - 3);
        Ok(b0 as u32 + 256 * (b1 as u32) + 65536 * (b2 as u32))
    }

    /// Reads the last four bytes as a little-endian u32.
    pub fn read_u32_back(&mut self) -> (r: Result<u32, ReaderErr>)
        ensures
            ({
                let s = old(self).rest();
                let n = s.len() as int;
                &&& n >= 4 ==> (r matches Ok(v) && v == le32(s[n - 4], s[n - 3], s[n - 2], s[n - 1])
                    && final(self).rest() == s.take(n - 4))
                &&& n < 4 ==> r == Err::<u32, ReaderErr>(ReaderErr::NotEnoughData) && final(self).rest().len() == 0
            }),
    {
        let n = self.data.len();
        if n < 4 {
            self.data = slice_subrange(self.data, 0, 0);
            return Err(ReaderErr::NotEnoughData);
        }
        let b3 = self.data[n - 1];
        let b2 = self.data[n - 2];
        let b1 = self.data[n - 3];
        let b0 = self.data[n - 4];
        self.data = slice_subrange(self.data, 0, n - 4);
        Ok(b0 as u32 + 256 * (b1 as u32) + 65536 * (b2 as u32) + 16777216 * (b3 as u32))
    }

    /// Renormalizes a rANS state: folds in tail bytes until `state >= l_base`
    /// or the bytes run out, exactly as repeated [`Self::read_u8_back`] calls
    /// would. `l_base` must be a power of two. With at least four bytes left
    /// at most four bytes may be needed, and a zero state counts as one when
    /// the byte count is fixed (zero states only arise from malformed
    /// streams). The refilled state must fit a `usize`.
    pub fn rans_refill(&mut self, state: usize, l_base: usize) -> (r: usize)
        requires
            is_pow2(l_base as int),
            (state >= 1 || old(self).rest().len() < 4) ==> refill_loop(state as int, old(self).rest(), l_base as int).0
                <= usize::MAX,
            old(self).rest().len() >= 4 ==> bytes_needed(
                if state == 0 {
                    1int
                } else {
                    state as int
                },
                l_base as int,
            ) <= 4,
        ensures
            state < l_base ==> r < 256 * l_base,
            state >= l_base ==> r == state,
            (state >= 1 || old(self).rest().len() < 4) ==> (r as int, final(self).rest())
                == refill_loop(state as int, old(self).rest(), l_base as int),
            (state == 0 && old(self).rest().len() >= 4) ==> ({
                let k = bytes_needed(1, l_base as int);
                &&& r == pull_back(0, old(self).rest(), k)
                &&& final(self).rest() == old(self).rest().take(old(self).rest().len() - k)
            }),
    {
        let n = self.data.len();
        let ghost s0 = self.data@;
        proof {
            lemma_pow2_pos_int(l_base as int);
        }
        if state == 0 && n >= 4 {
            let ghost big_k = bytes_needed(1, l_base as int);
            proof {
                assert(s0.take(n as int) == s0);
            }
            let mut t: u64 = 1;
            let mut st: usize = 0;
            let mut k: usize = 0;
            while t < l_base as u64
                invariant
                    n == s0.len(),
                    n >= 4,
                    self.data@ == s0,
                    1 <= l_base,
                    t < 256 * l_base,
                    t == pow256(k as nat),
                    st < t,
                    big_k <= 4,
                    k <= big_k,
                    big_k == k + bytes_needed(t as int, l_base as int),
                    pull_back(0, s0, big_k) == pull_back(st as int, s0.take(n - k), (big_k - k) as nat),
                decreases big_k - k,
            {
                proof {
                    lemma_bytes_needed_bound(t as int, l_base as int);
                    assert(k < 4);
                    lemma_pow256_step(k as nat);
                    assert(pow256(k as nat) <= pow256(3)) by {
                        reveal_with_fuel(pow256, 4);
                    }
                    assert(st * 256 + 255 <= 0xFFFF_FFFF) by (nonlinear_arith)
                        requires
                            st < t,
                            t <= 0x100_0000,
                    ;
                }
                let b = self.data[n - 1 - k];
                proof {
                    let cur = s0.take(n - k);
                    assert(cur.drop_last() == s0.take(n - k - 1));
                    assert(cur.last() == b);
                }
                st = st * 256 + b as usize;
                t = t * 256;
                k += 1;
            }
            self.data = slice_subrange(self.data, 0, n - k);
            proof {
                assert(s0.take(n - k) == self.data@);
            }
            st
        } else {
            let mut st = state;
            while st < l_base && self.data.len() > 0
                invariant
                    1 <= l_base,
                    refill_loop(state as int, s0, l_base as int).0 <= usize::MAX,
                    refill_loop(state as int, s0, l_base as int) == refill_loop(
                        st as int,
                        self.data@,
                        l_base as int,
                    ),
                decreases self.data@.len(),
            {
                let m = self.data.len();
                let byte = self.data[m - 1];
                proof {
                    lemma_refill_grows(st as int * 256 + byte, self.data@.drop_last(), l_base as int);
                }
                self.data = slice_subrange(self.data, 0, m - 1);
                st = st * 256 + byte as usize;
            }
            proof {
                lemma_refill_bound(state as int, s0, l_base as int);
            }
            st
        }
    }

    /// Reads the last eight bytes as a little-endian u64.
    pub fn read_u64_back(&mut self) -> (r: Result<u64, ReaderErr>)
        ensures
            ({
                let s = old(self).rest();
                let n = s.len() as int;
                &&& n >= 8 ==> (r matches Ok(v) && v == le_value(s.skip(n - 8), 8) && final(self).rest() == s.take(n - 8))
                &&& n < 8 ==> r == Err::<u64, ReaderErr>(ReaderErr::NotEnoughData) && final(self).rest().len() == 0
            }),
    {
        let n = self.data.len();
        if n < 8 {
            self.data = slice_subrange(self.data, 0, 0);
            return Err(ReaderErr::NotEnoughData);
        }
        let ghost s = self.data@;
        let mut v: u64 = 0;
        let mut i: usize = 0;
        while i < 8
            invariant
                n == s.len(),
                n >= 8,
                self.data@ == s,
                i <= 8,
                v as nat == le_value(s.skip(n - i), i as nat),
                v < pow256(i as nat),
            decreases 8 - i,
        {
            let b = self.data[n - 1 - i];
            proof {
                lemma_le_value_prepend(s, n as int, i as nat);
                lemma_pow256_step(i as nat);
            }
            v = v * 256 + b as u64;
            i += 1;
        }
        self.data = slice_subrange(self.data, 0, n - 8);
        Ok(v)
    }
}

/// Whether `n` is a power of two.
pub open spec fn is_pow2(n: int) -> bool
    decreases n,
{
    if n <= 0 {
        false
    } else if n == 1 {
        true
    } else {
        n % 2 == 0 && is_pow2(n / 2)
    }
}

/// A smaller power of two divides a larger one.
pub proof fn lemma_pow2_divides(g: int, l: int)
    requires
        is_pow2(g),
        is_pow2(l),
        g <= l,
    ensures
        l % g == 0,
    decreases l,
{
    if g == 1 {
    } else if g == l {
    } else {
        assert(g >= 2 && g % 2 == 0);
        assert(l >= 2 && l % 2 == 0);
        lemma_pow2_divides(g / 2, l / 2);
        let q = (l / 2) / (g / 2);
        assert(l / 2 == q * (g / 2)) by (nonlinear_arith)
            requires
                (l / 2) % (g / 2) == 0,
                g / 2 >= 1,
                q == (l / 2) / (g / 2),
        ;
        assert(l == q * g) by (nonlinear_arith)
            requires
                l / 2 == q * (g / 2),
                l % 2 == 0,
                g % 2 == 0,
        ;
        assert(l % g == 0) by (nonlinear_arith)
            requires
                l == q * g,
                g >= 1,
        ;
    }
}

/// A power of two is positive.
proof fn lemma_pow2_pos_int(n: int)
    requires
        is_pow2(n),
    ensures
        n >= 1,
{
}

/// The byte-at-a-time renormalization leaves a state at or past the
/// threshold alone, and lifts one below it to less than `256 * l`.
pub proof fn lemma_refill_bound(x: int, s: Seq<u8>, l: int)
    requires
        0 <= x,
        1 <= l,
    ensures
        x >= l ==> refill_loop(x, s, l).0 == x,
        x < l ==> refill_loop(x, s, l).0 < 256 * l,
        refill_loop(x, s, l).0 >= 0,
    decreases s.len(),
{
    if x < l && s.len() > 0 {
        lemma_refill_bound(x * 256 + s.last(), s.drop_last(), l);
    }
}

/// The byte-at-a-time renormalization never lowers the state.
proof fn lemma_refill_grows(x: int, s: Seq<u8>, l: int)
    requires
        x >= 0,
    ensures
        refill_loop(x, s, l).0 >= x,
    decreases s.len(),
{
    if x < l && s.len() > 0 {
        lemma_refill_grows(x * 256 + s.last(), s.drop_last(), l);
    }
}

proof fn lemma_bytes_needed_bound(t: int, l_base: int)
    requires
        1 <= t < l_base,
    ensures
        bytes_needed(t, l_base) == 1 + bytes_needed(t * 256, l_base),
{
}

pub proof fn lemma_bytes_needed_le3(s: int, l_base: int)
    requires
        1 <= s,
        l_base <= 0x40_0000,
    ensures
        bytes_needed(s, l_base) <= 3,
{
    reveal_with_fuel(bytes_needed, 4);
}

/// `256^k`.
pub open spec fn pow256(k: nat) -> nat
    decreases k,
{
    if k == 0 {
        1
    } else {
        256 * pow256((k - 1) as nat)
    }
}

proof fn lemma_pow256_step(i: nat)
    requires
        i < 8,
    ensures
        pow256(i + 1) == 256 * pow256(i),
        pow256(i + 1) <= pow256(8),
        pow256(8) == 0x1_0000_0000_0000_0000,
{
    reveal_with_fuel(pow256, 9);
    if i < 7 {
        lemma_pow256_mono(i + 1, 8);
    }
}

proof fn lemma_pow256_mono(a: nat, b: nat)
    requires
        a <= b,
    ensures
        pow256(a) <= pow256(b),
    decreases b,
{
    if a < b {
        lemma_pow256_mono(a, (b - 1) as nat);
    }
}

/// Extending a little-endian suffix by the byte before it.
proof fn lemma_le_value_prepend(s: Seq<u8>, n: int, i: nat)
    requires
        n == s.len(),
        i < n,
    ensures
        le_value(s.skip(n - (i + 1)), i + 1) == s[n - 1 - i] + 256 * le_value(s.skip(n - i), i),
{
    let t = s.skip(n - (i + 1));
    assert(t.drop_first() == s.skip(n - i));
}

} // verus!
