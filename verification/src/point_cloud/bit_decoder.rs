//! Bit decoders backing the kd-tree point decoder. `decode_lsb32` takes
//! `nbits` in `1..=32` and returns them most significant bit first.

use vstd::prelude::*;
use vstd::arithmetic::power2::{lemma_pow2_adds, lemma_pow2_pos, pow2};
use crate::decode::seams::rabs_bits;
use crate::error::{DecodeError, ReaderErr};
use crate::rans::{rabs_step, state_init, RabsDecoder, L_RANS_BASE};
use crate::reader::{le32, leb128_parse, leb128_read, lemma_leb128_len, Reader, RevReader};

verus! {

/// Bit `i` (0 = most significant) of `w`.
pub open spec fn word_bit(w: u32, i: int) -> bool {
    (w as int / pow2((31 - i) as nat) as int) % 2 == 1
}

/// The `n` bits of `words` that start at bit `k` (32 bits per word, most
/// significant first), read as a number; at most one word boundary is
/// crossed.
pub open spec fn next_bits(words: Seq<u32>, k: int, n: int) -> int {
    let p = k / 32;
    let u = k % 32;
    if u + n <= 32 {
        (words[p] as int / pow2((32 - u - n) as nat) as int) % pow2(n as nat) as int
    } else {
        let r = 32 - u;
        (words[p] as int % pow2(r as nat) as int) * pow2((n - r) as nat) as int + words[p + 1] as int
            / pow2((32 - (n - r)) as nat) as int
    }
}

/// The words of a direct bit stream at the start of `s`: a little-endian
/// byte size, non-zero, a multiple of four and within the stream, then the
/// little-endian words; with the bytes it spans.
pub open spec fn direct_parse(s: Seq<u8>) -> Result<(Seq<u32>, nat), DecodeError> {
    if s.len() < 4 {
        Err(DecodeError::Reader(ReaderErr::NotEnoughData))
    } else {
        let size = le32(s[0], s[1], s[2], s[3]);
        if size == 0 || size % 4 != 0 || size > s.len() - 4 {
            Err(DecodeError::MalformedAttribute("invalid direct bit stream size"))
        } else {
            Ok(
                (
                    Seq::new(
                        (size / 4) as nat,
                        |i: int|
                            le32(s[4 + 4 * i], s[5 + 4 * i], s[6 + 4 * i], s[7 + 4 * i]) as u32,
                    ),
                    (4 + size) as nat,
                ),
            )
        }
    }
}

/// `((w << u) >> (32 - n))` takes the `n` bits of `w` after its top `u`.
proof fn lemma_take_bits(w: u32, u: u32, n: u32)
    requires
        u < 32,
        1 <= n,
        u + n <= 32,
    ensures
        ((w << u) >> ((32 - n) as u32)) as int == (w as int / pow2((32 - u - n) as nat) as int)
            % pow2(n as nat) as int,
{
    let k: u32 = (32 - u - n) as u32;
    let m: u32 = (w << u) >> u;
    assert((w << u) >> ((32 - n) as u32) == ((w << u) >> u) >> k) by (bit_vector)
        requires
            u < 32,
            1 <= n,
            u + n <= 32,
            k == 32 - u - n,
    ;
    lemma_pow2_pos((32 - u) as nat);
    lemma_pow2_pos(k as nat);
    lemma_pow2_pos(n as nat);
    if u == 0 {
        assert(m == w) by (bit_vector)
            requires
                u == 0,
                m == (w << u) >> u,
        ;
        vstd::arithmetic::power2::lemma2_to64();
        assert(w as int % pow2(32) as int == w as int);
    } else {
        let mask: u32 = ((1u32 << ((32 - u) as u32)) - 1) as u32;
        assert(m == w & mask) by (bit_vector)
            requires
                0 < u < 32,
                m == (w << u) >> u,
                mask == ((1u32 << ((32 - u) as u32)) - 1) as u32,
        ;
        vstd::bits::lemma_u32_pow2_no_overflow((32 - u) as nat);
        vstd::bits::lemma_u32_shl_is_mul(1u32, (32 - u) as u32);
        assert(mask as nat == vstd::bits::low_bits_mask((32 - u) as nat));
        vstd::bits::lemma_u32_low_bits_mask_is_mod(w, (32 - u) as nat);
    }
    assert(m as int == w as int % pow2((32 - u) as nat) as int);
    vstd::bits::lemma_u32_shr_is_div(m, k);
    lemma_pow2_adds(k as nat, n as nat);
    assert((k + n) as nat == (32 - u) as nat);
    vstd::arithmetic::div_mod::lemma_mod_breakdown(
        w as int,
        pow2(k as nat) as int,
        pow2(n as nat) as int,
    );
    let q = (w as int / pow2(k as nat) as int) % pow2(n as nat) as int;
    let r = w as int % pow2(k as nat) as int;
    vstd::arithmetic::div_mod::lemma_mod_pos_bound(w as int / pow2(k as nat) as int, pow2(n as nat) as int);
    vstd::arithmetic::div_mod::lemma_mod_pos_bound(w as int, pow2(k as nat) as int);
    vstd::arithmetic::div_mod::lemma_fundamental_div_mod_converse(
        m as int,
        pow2(k as nat) as int,
        q,
        r,
    );
}

/// The bits of `bits`, first one most significant, read as a number.
pub open spec fn msb_value(bits: Seq<bool>) -> nat
    decreases bits.len(),
{
    if bits.len() == 0 {
        0
    } else {
        2 * msb_value(bits.drop_last()) + if bits.last() {
            1nat
        } else {
            0nat
        }
    }
}

/// The state and renormalization bytes after `n` rabs steps.
pub open spec fn rabs_after(state: int, s: Seq<u8>, p0: int, n: nat) -> (int, Seq<u8>)
    decreases n,
{
    if n == 0 {
        (state, s)
    } else {
        let (b, st, rest) = rabs_step(state, s, p0);
        rabs_after(st, rest, p0, (n - 1) as nat)
    }
}

/// A `[prob_zero | LEB128 length | bytes]` rabs stream at the start of `s`:
/// the probability, the bytes, and the bytes the record spans.
pub open spec fn rans_stream_parse(s: Seq<u8>) -> Result<(u8, Seq<u8>, nat), DecodeError> {
    if s.len() == 0 {
        Err(DecodeError::Reader(ReaderErr::NotEnoughData))
    } else {
        match leb128_parse(s.skip(1)) {
            None => Err(DecodeError::Reader(ReaderErr::NotEnoughData)),
            Some((n, v)) => if n > 10 || v > u64::MAX {
                Err(DecodeError::Reader(ReaderErr::VarintOverflow))
            } else if v > s.len() - 1 - n {
                Err(DecodeError::MalformedAttribute("rans bit stream overruns input"))
            } else {
                Ok((s[0], s.skip(1 + n as int).take(v as int), 1 + n + v))
            },
        }
    }
}

proof fn lemma_msb_value_push(bits: Seq<bool>, b: bool)
    ensures
        msb_value(bits.push(b)) == 2 * msb_value(bits) + if b {
            1nat
        } else {
            0nat
        },
{
    assert(bits.push(b).drop_last() =~= bits);
}

/// Binary rANS over one `[prob_zero | LEB128 length | bytes]` sub-stream.
#[derive(Clone, Copy)]
pub struct RansBitDecoder<'a> {
    rabs: RabsDecoder<'a>,
}

impl<'a> RansBitDecoder<'a> {
    /// The underlying rabs decoder is consistent.
    pub closed spec fn wf(&self) -> bool {
        self.rabs.wf()
    }

    /// The coder state.
    pub closed spec fn state(&self) -> int {
        self.rabs.state()
    }

    /// The renormalization bytes not yet consumed.
    pub closed spec fn rest(&self) -> Seq<u8> {
        self.rabs.rest()
    }

    /// The zero-bit probability out of 256.
    pub closed spec fn prob_zero(&self) -> int {
        self.rabs.prob_zero()
    }

    /// The next bit of the stream.
    pub open spec fn next_bit(&self) -> bool {
        rabs_step(self.state(), self.rest(), self.prob_zero()).0
    }

    /// The decoder after one more bit.
    pub open spec fn stepped(&self, other: Self) -> bool {
        &&& other.wf()
        &&& other.prob_zero() == self.prob_zero()
        &&& (self.next_bit(), other.state(), other.rest()) == rabs_step(
            self.state(),
            self.rest(),
            self.prob_zero(),
        )
    }
}

/// A bit decoder over one sub-stream of the kd-tree payload.
pub trait BitDecoder<'a>: Sized {
    /// What the decoder's coming bits depend on.
    type BitState;

    /// The decoder can decode.
    spec fn ready(&self) -> bool;

    /// The decoder's state.
    spec fn bit_state(&self) -> Self::BitState;

    /// What [`Self::start`] reads at the start of `s`: the state and the
    /// bytes spanned, or the error.
    spec fn start_parse(s: Seq<u8>) -> Result<(Self::BitState, nat), DecodeError>;

    /// One bit from state `st`, and the state after it.
    spec fn bit_step(st: Self::BitState) -> (bool, Self::BitState);

    /// `nbits` bits from state `st`, most significant first, and the state
    /// after them; or the error.
    spec fn lsb_step(st: Self::BitState, nbits: u32) -> Result<(u32, Self::BitState), DecodeError>;

    /// Reads the decoder's sub-stream from `reader`.
    fn start(reader: &mut Reader<'a>) -> (r: Result<Self, DecodeError>)
        ensures
            r matches Ok(d) ==> d.ready(),
            match Self::start_parse(old(reader).rest()) {
                Ok((st, k)) => (r matches Ok(d) && d.bit_state() == st && k <= old(reader).rest().len()
                    && final(reader).rest() == old(reader).rest().skip(k as int)),
                Err(e) => r == Err::<Self, DecodeError>(e),
            },
    ;

    /// The next bit.
    fn decode_bit(&mut self) -> (bit: bool)
        requires
            old(self).ready(),
        ensures
            final(self).ready(),
            (bit, final(self).bit_state()) == Self::bit_step(old(self).bit_state()),
    ;

    /// The next `nbits` bits, most significant first.
    fn decode_lsb32(&mut self, nbits: u32) -> (r: Result<u32, DecodeError>)
        requires
            old(self).ready(),
            1 <= nbits <= 32,
        ensures
            final(self).ready(),
            r matches Ok(v) ==> v < pow2(nbits as nat),
            match Self::lsb_step(old(self).bit_state(), nbits) {
                Ok((v, st)) => r == Ok::<u32, DecodeError>(v) && final(self).bit_state() == st,
                Err(e) => r == Err::<u32, DecodeError>(e),
            },
    ;
}

/// The state of a rANS bit coder: coder state, renormalization bytes left,
/// zero-bit probability.
pub open spec fn rans_bit_view(d: RansBitDecoder) -> (int, Seq<u8>, int) {
    (d.state(), d.rest(), d.prob_zero())
}

/// The state a rANS bit coder starts in at the start of `s`, where it starts.
pub open spec fn rans_start_state(s: Seq<u8>) -> (int, Seq<u8>, int) {
    match rans_stream_parse(s) {
        Ok((p0, bytes, _)) => match state_init(bytes) {
            Some((v, j)) => (v + L_RANS_BASE, bytes.take(bytes.len() - j), p0 as int),
            None => (0, Seq::empty(), 0),
        },
        Err(_) => (0, Seq::empty(), 0),
    }
}

/// One rANS bit from state `st`, and the state after it.
pub open spec fn rans_bit_step(st: (int, Seq<u8>, int)) -> (bool, (int, Seq<u8>, int)) {
    let (b, s2, r2) = rabs_step(st.0, st.1, st.2);
    (b, (s2, r2, st.2))
}

/// The state of the `j`-th of the rANS bit coders read one after another
/// from the start of `s`.
pub open spec fn rans_start_state_at(s: Seq<u8>, j: nat) -> (int, Seq<u8>, int) {
    match rans_coders_len(s, j) {
        Ok(p) => rans_start_state(s.skip(p as int)),
        Err(_) => (0, Seq::empty(), 0),
    }
}

impl<'a> BitDecoder<'a> for RansBitDecoder<'a> {
    type BitState = (int, Seq<u8>, int);

    closed spec fn ready(&self) -> bool {
        self.wf()
    }

    open spec fn bit_state(&self) -> (int, Seq<u8>, int) {
        rans_bit_view(*self)
    }

    open spec fn start_parse(s: Seq<u8>) -> Result<((int, Seq<u8>, int), nat), DecodeError> {
        match rans_stream_parse(s) {
            Ok((p0, bytes, k)) => if state_init(bytes) is Some {
                Ok((rans_start_state(s), k))
            } else {
                Err(DecodeError::Reader(ReaderErr::NotEnoughData))
            },
            Err(e) => Err(e),
        }
    }

    open spec fn bit_step(st: (int, Seq<u8>, int)) -> (bool, (int, Seq<u8>, int)) {
        rans_bit_step(st)
    }

    open spec fn lsb_step(st: (int, Seq<u8>, int), nbits: u32) -> Result<(u32, (int, Seq<u8>, int)), DecodeError> {
        let (s2, r2) = rabs_after(st.0, st.1, st.2, nbits as nat);
        Ok((msb_value(rabs_bits(st.0, st.1, st.2, nbits as nat)) as u32, (s2, r2, st.2)))
    }

    fn start(reader: &mut Reader<'a>) -> (r: Result<Self, DecodeError>)
        ensures
            match rans_stream_parse(old(reader).rest()) {
                Ok((p0, bytes, k)) => match state_init(bytes) {
                    Some((v, j)) => (r matches Ok(d) && d.wf() && d.state() == v + L_RANS_BASE
                        && d.rest() == bytes.take(bytes.len() - j) && d.prob_zero() == p0
                        && final(reader).rest() == old(reader).rest().skip(k as int)),
                    None => r == Err::<Self, DecodeError>(
                        DecodeError::Reader(ReaderErr::NotEnoughData),
                    ),
                },
                Err(e) => r == Err::<Self, DecodeError>(e),
            },
    {
        let ghost s0 = reader.rest();
        let prob_zero = match reader.read_u8() {
            Ok(b) => b,
            Err(e) => return Err(DecodeError::Reader(e)),
        };
        let ghost s1 = reader.rest();
        proof {
            lemma_leb128_len(s1);
        }
        let len = match leb128_read(reader) {
            Ok(v) => v,
            Err(e) => return Err(DecodeError::Reader(e)),
        };
        let ghost s2 = reader.rest();
        if len > reader.remaining() as u64 {
            return Err(DecodeError::MalformedAttribute("rans bit stream overruns input"));
        }
        let bytes = match reader.read_bytes(len as usize) {
            Ok(b) => b,
            Err(e) => return Err(DecodeError::Reader(e)),
        };
        proof {
            let (n, v) = leb128_parse(s1)->0;
            assert(s0.skip(1 + n as int) =~= s1.skip(n as int));
            assert(reader.rest() =~= s0.skip((1 + n + v) as int));
        }
        let rabs = RabsDecoder::new(RevReader::new(bytes), prob_zero)?;
        Ok(RansBitDecoder { rabs })
    }

    fn decode_bit(&mut self) -> (bit: bool)
        ensures
            old(self).stepped(*final(self)),
            bit == old(self).next_bit(),
    {
        self.rabs.decode_bit()
    }

    fn decode_lsb32(&mut self, nbits: u32) -> (r: Result<u32, DecodeError>)
        ensures
            r matches Ok(v) && v as int == msb_value(
                rabs_bits(old(self).state(), old(self).rest(), old(self).prob_zero(), nbits as nat),
            ),
            final(self).prob_zero() == old(self).prob_zero(),
            (final(self).state(), final(self).rest()) == rabs_after(
                old(self).state(),
                old(self).rest(),
                old(self).prob_zero(),
                nbits as nat,
            ),
    {
        let ghost s0 = self.state();
        let ghost r0 = self.rest();
        let ghost p0 = self.prob_zero();
        let ghost total = rabs_bits(s0, r0, p0, nbits as nat);
        let ghost mut done: Seq<bool> = Seq::empty();
        let mut value: u32 = 0;
        let mut i: u32 = 0;
        proof {
            lemma_pow2_pos(0);
            vstd::arithmetic::power2::lemma2_to64();
        }
        while i < nbits
            invariant
                i <= nbits <= 32,
                self.wf(),
                self.prob_zero() == p0,
                done.len() == i,
                done + rabs_bits(self.state(), self.rest(), p0, (nbits - i) as nat) == total,
                rabs_after(self.state(), self.rest(), p0, (nbits - i) as nat) == rabs_after(
                    s0,
                    r0,
                    p0,
                    nbits as nat,
                ),
                value as int == msb_value(done),
                value < pow2(i as nat),
            decreases nbits - i,
        {
            let ghost before = *self;
            let b = self.rabs.decode_bit();
            proof {
                let tail = rabs_bits(self.state(), self.rest(), p0, (nbits - i - 1) as nat);
                assert(rabs_bits(before.state(), before.rest(), p0, (nbits - i) as nat) == seq![b]
                    + tail);
                assert(done.push(b) + tail =~= done + (seq![b] + tail));
                lemma_msb_value_push(done, b);
                vstd::arithmetic::power2::lemma_pow2_unfold((i + 1) as nat);
                if i < 31 {
                    vstd::bits::lemma_u32_pow2_no_overflow((i + 1) as nat);
                }
                assert(value < 0x8000_0000u32) by {
                    if i < 31 {
                        vstd::arithmetic::power2::lemma_pow2_strictly_increases(i as nat, 31);
                    }
                    vstd::arithmetic::power2::lemma2_to64();
                }
                done = done.push(b);
            }
            let bit: u32 = if b {
                1
            } else {
                0
            };
            let nv = (value << 1u32) | bit;
            assert(nv == value * 2 + bit) by (bit_vector)
                requires
                    value < 0x8000_0000u32,
                    bit <= 1,
                    nv == (value << 1u32) | bit,
            ;
            value = nv;
            i = i + 1;
        }
        assert(done =~= total);
        Ok(value)
    }
}

/// The bytes one rANS bit coder spans at the start of `s`, or the error
/// starting it gives.
pub open spec fn rans_coder_len(s: Seq<u8>) -> Result<nat, DecodeError> {
    match rans_stream_parse(s) {
        Ok((_, bytes, k)) => if state_init(bytes) is Some {
            Ok(k)
        } else {
            Err(DecodeError::Reader(ReaderErr::NotEnoughData))
        },
        Err(e) => Err(e),
    }
}

/// The bytes `k` rANS bit coders read one after another span at the start
/// of `s`, or the first error.
pub open spec fn rans_coders_len(s: Seq<u8>, k: nat) -> Result<nat, DecodeError>
    decreases k,
{
    if k == 0 {
        Ok(0)
    } else {
        match rans_coders_len(s, (k - 1) as nat) {
            Ok(p) => match rans_coder_len(s.skip(p as int)) {
                Ok(m) => Ok(p + m),
                Err(e) => Err(e),
            },
            Err(e) => Err(e),
        }
    }
}

/// Whether `d` is the rANS bit coder started at the start of `s`.
pub open spec fn coder_read_from(s: Seq<u8>, d: RansBitDecoder) -> bool {
    match rans_stream_parse(s) {
        Ok((p0, bytes, _)) => match state_init(bytes) {
            Some((v, j)) => d.wf() && d.state() == v + L_RANS_BASE && d.rest() == bytes.take(
                bytes.len() - j,
            ) && d.prob_zero() == p0,
            None => false,
        },
        Err(_) => false,
    }
}

/// Whether `d` is the `j`-th of the rANS bit coders read one after another
/// from the start of `s`.
pub open spec fn coder_at(s: Seq<u8>, j: nat, d: RansBitDecoder) -> bool {
    rans_coders_len(s, j) matches Ok(p) && coder_read_from(s.skip(p as int), d)
}

proof fn lemma_rans_coders_len_bound(s: Seq<u8>, k: nat)
    ensures
        rans_coders_len(s, k) matches Ok(p) ==> p <= s.len(),
    decreases k,
{
    if k > 0 {
        lemma_rans_coders_len_bound(s, (k - 1) as nat);
    }
}

proof fn lemma_rans_coders_len_err(s: Seq<u8>, i: nat, k: nat)
    requires
        i <= k,
        rans_coders_len(s, i) is Err,
    ensures
        rans_coders_len(s, k) == rans_coders_len(s, i),
    decreases k - i,
{
    if i < k {
        lemma_rans_coders_len_err(s, i, (k - 1) as nat);
    }
}

/// 32 per-bit-position sub-coders plus one plain bit coder.
pub struct FoldedBitDecoder<'a> {
    folded: Vec<RansBitDecoder<'a>>,
    bits: RansBitDecoder<'a>,
}

impl<'a> FoldedBitDecoder<'a> {
    /// Thirty-two consistent position coders and a consistent plain coder.
    pub closed spec fn wf(&self) -> bool {
        &&& self.folded@.len() == 32
        &&& forall|i: int| 0 <= i < 32 ==> (#[trigger] self.folded@[i]).wf()
        &&& self.bits.wf()
    }

    /// The per-position coders.
    pub closed spec fn coders(&self) -> Seq<RansBitDecoder<'a>> {
        self.folded@
    }

    /// The plain bit coder.
    pub closed spec fn plain(&self) -> RansBitDecoder<'a> {
        self.bits
    }
}

impl<'a> BitDecoder<'a> for FoldedBitDecoder<'a> {
    type BitState = (Seq<(int, Seq<u8>, int)>, (int, Seq<u8>, int));

    closed spec fn ready(&self) -> bool {
        self.wf()
    }

    open spec fn bit_state(&self) -> (Seq<(int, Seq<u8>, int)>, (int, Seq<u8>, int)) {
        (Seq::new(self.coders().len(), |i: int| rans_bit_view(self.coders()[i])), rans_bit_view(self.plain()))
    }

    open spec fn start_parse(s: Seq<u8>) -> Result<((Seq<(int, Seq<u8>, int)>, (int, Seq<u8>, int)), nat), DecodeError> {
        match rans_coders_len(s, 33) {
            Ok(n) => Ok(((Seq::new(32, |i: int| rans_start_state_at(s, i as nat)), rans_start_state_at(s, 32)), n)),
            Err(e) => Err(e),
        }
    }

    open spec fn bit_step(st: (Seq<(int, Seq<u8>, int)>, (int, Seq<u8>, int))) -> (bool, (Seq<(int, Seq<u8>, int)>, (int, Seq<u8>, int))) {
        let (b, p2) = rans_bit_step(st.1);
        (b, (st.0, p2))
    }

    open spec fn lsb_step(st: (Seq<(int, Seq<u8>, int)>, (int, Seq<u8>, int)), nbits: u32) -> Result<(u32, (Seq<(int, Seq<u8>, int)>, (int, Seq<u8>, int))), DecodeError> {
        Ok(
            (
                msb_value(Seq::new(nbits as nat, |i: int| rans_bit_step(st.0[i]).0)) as u32,
                (Seq::new(st.0.len(), |i: int| if i < nbits { rans_bit_step(st.0[i]).1 } else { st.0[i] }), st.1),
            ),
        )
    }

    fn start(reader: &mut Reader<'a>) -> (r: Result<Self, DecodeError>)
        ensures
            match rans_coders_len(old(reader).rest(), 33) {
                Ok(n) => (r matches Ok(d) && d.wf() && final(reader).rest() == old(reader).rest().skip(
                    n as int,
                ) && d.coders().len() == 32 && (forall|i: int|
                    0 <= i < 32 ==> coder_at(old(reader).rest(), i as nat, #[trigger] d.coders()[i]))
                    && coder_at(old(reader).rest(), 32, d.plain())),
                Err(e) => r == Err::<Self, DecodeError>(e),
            },
    {
        let ghost s0 = reader.rest();
        let ghost mut pos: nat = 0;
        let mut folded: Vec<RansBitDecoder<'a>> = Vec::new();
        let mut i: usize = 0;
        proof {
            assert(s0.skip(0) =~= s0);
        }
        while i < 32
            invariant
                i <= 32,
                s0 == old(reader).rest(),
                folded@.len() == i,
                rans_coders_len(s0, i as nat) == Ok::<nat, DecodeError>(pos),
                pos <= s0.len(),
                reader.rest() == s0.skip(pos as int),
                forall|j: int| 0 <= j < i ==> (#[trigger] folded@[j]).wf(),
                forall|j: int| 0 <= j < i ==> coder_at(s0, j as nat, #[trigger] folded@[j]),
            decreases 32 - i,
        {
            let d = match RansBitDecoder::start(reader) {
                Ok(d) => d,
                Err(e) => {
                    proof {
                        assert(rans_coders_len(s0, (i + 1) as nat) == Err::<nat, DecodeError>(e));
                        lemma_rans_coders_len_err(s0, (i + 1) as nat, 33);
                    }
                    return Err(e);
                },
            };
            let ghost at = pos;
            proof {
                let (p0, bytes, k) = rans_stream_parse(s0.skip(pos as int))->Ok_0;
                assert(coder_read_from(s0.skip(pos as int), d));
                assert(rans_coders_len(s0, (i + 1) as nat) == Ok::<nat, DecodeError>(pos + k));
                lemma_rans_coders_len_bound(s0, (i + 1) as nat);
                assert(s0.skip(pos as int).skip(k as int) =~= s0.skip((pos + k) as int));
                pos = pos + k;
            }
            let ghost before = folded@;
            folded.push(d);
            proof {
                assert forall|j: int| 0 <= j < i implies #[trigger] folded@[j] == before[j] by {}
                assert(rans_coders_len(s0, i as nat) == Ok::<nat, DecodeError>(at));
                assert(coder_read_from(s0.skip(at as int), folded@[i as int]));
                assert(coder_at(s0, i as nat, folded@[i as int]));
            }
            i = i + 1;
        }
        let bits = match RansBitDecoder::start(reader) {
            Ok(d) => d,
            Err(e) => {
                proof {
                    assert(rans_coders_len(s0, 33) == Err::<nat, DecodeError>(e));
                }
                return Err(e);
            },
        };
        proof {
            let (p0, bytes, k) = rans_stream_parse(s0.skip(pos as int))->Ok_0;
            assert(coder_read_from(s0.skip(pos as int), bits));
            assert(rans_coders_len(s0, 33) == Ok::<nat, DecodeError>(pos + k));
            lemma_rans_coders_len_bound(s0, 33);
            assert(s0.skip(pos as int).skip(k as int) =~= s0.skip((pos + k) as int));
        }
        let d = FoldedBitDecoder { folded, bits };
        proof {
            assert forall|i: int| 0 <= i < 32 implies rans_bit_view(#[trigger] d.coders()[i])
                == rans_start_state_at(s0, i as nat) by {
                assert(coder_at(s0, i as nat, d.coders()[i]));
            }
            assert(coder_at(s0, 32, d.plain()));
            assert(d.bit_state().0 =~= Seq::new(32, |i: int| rans_start_state_at(s0, i as nat)));
        }
        Ok(d)
    }

    fn decode_bit(&mut self) -> (bit: bool)
        ensures
            old(self).plain().stepped(final(self).plain()),
            bit == old(self).plain().next_bit(),
            final(self).coders() == old(self).coders(),
    {
        self.bits.decode_bit()
    }

    fn decode_lsb32(&mut self, nbits: u32) -> (r: Result<u32, DecodeError>)
        ensures
            r matches Ok(v) && v as int == msb_value(
                Seq::new(nbits as nat, |i: int| old(self).coders()[i].next_bit()),
            ),
            final(self).coders().len() == 32,
            forall|i: int|
                0 <= i < nbits ==> old(self).coders()[i].stepped(#[trigger] final(self).coders()[i]),
            forall|i: int|
                nbits <= i < 32 ==> #[trigger] final(self).coders()[i] == old(self).coders()[i],
            final(self).plain() == old(self).plain(),
    {
        let ghost c0 = self.folded@;
        let ghost total = Seq::new(nbits as nat, |i: int| c0[i].next_bit());
        let mut value: u32 = 0;
        let mut i: u32 = 0;
        proof {
            vstd::arithmetic::power2::lemma2_to64();
        }
        while i < nbits
            invariant
                i <= nbits <= 32,
                self.wf(),
                c0.len() == 32,
                self.bits == old(self).bits,
                c0 == old(self).folded@,
                total == Seq::new(nbits as nat, |i: int| c0[i].next_bit()),
                forall|j: int| 0 <= j < i ==> c0[j].stepped(#[trigger] self.folded@[j]),
                forall|j: int| i <= j < 32 ==> #[trigger] self.folded@[j] == c0[j],
                value as int == msb_value(total.take(i as int)),
                value < pow2(i as nat),
            decreases nbits - i,
        {
            let mut d = self.folded[i as usize];
            let b = d.decode_bit();
            self.folded.set(i as usize, d);
            proof {
                assert(total.take(i + 1) =~= total.take(i as int).push(b));
                lemma_msb_value_push(total.take(i as int), b);
                vstd::arithmetic::power2::lemma_pow2_unfold((i + 1) as nat);
                assert(value < 0x8000_0000u32) by {
                    if i < 31 {
                        vstd::arithmetic::power2::lemma_pow2_strictly_increases(i as nat, 31);
                    }
                    vstd::arithmetic::power2::lemma2_to64();
                }
            }
            let bit: u32 = if b {
                1
            } else {
                0
            };
            let nv = (value << 1u32) | bit;
            assert(nv == value * 2 + bit) by (bit_vector)
                requires
                    value < 0x8000_0000u32,
                    bit <= 1,
                    nv == (value << 1u32) | bit,
            ;
            value = nv;
            i = i + 1;
        }
        assert(total.take(nbits as int) =~= total);
        proof {
            let o = Seq::new(c0.len(), |i: int| rans_bit_view(c0[i]));
            assert(total =~= Seq::new(nbits as nat, |i: int| rans_bit_step(o[i]).0));
            assert(self.bit_state().0 =~= Seq::new(o.len(), |i: int| if i < nbits {
                rans_bit_step(o[i]).1
            } else {
                o[i]
            }));
        }
        Ok(value)
    }
}

/// Uncompressed bits packed into 32-bit words, most significant bit first.
pub struct DirectBitDecoder {
    words: Vec<u32>,
    pos: usize,
    used: u32,
}

/// One bit of a direct bit stream at bit `st.1` of the words `st.0`: a
/// zero bit, consuming nothing, past the end.
pub open spec fn direct_bit_step(st: (Seq<u32>, int)) -> (bool, (Seq<u32>, int)) {
    if st.1 < 32 * st.0.len() {
        (word_bit(st.0[st.1 / 32], st.1 % 32), (st.0, st.1 + 1))
    } else {
        (false, st)
    }
}

/// `n` bits of a direct bit stream at bit `st.1`, most significant first,
/// or the error when fewer remain.
pub open spec fn direct_lsb_step(st: (Seq<u32>, int), n: int) -> Result<(u32, (Seq<u32>, int)), DecodeError> {
    if st.1 + n <= 32 * st.0.len() {
        Ok((next_bits(st.0, st.1, n) as u32, (st.0, st.1 + n)))
    } else {
        Err(DecodeError::MalformedAttribute("direct bit stream exhausted"))
    }
}

impl DirectBitDecoder {
    /// The cursor lies within the words.
    pub closed spec fn wf(&self) -> bool {
        &&& self.used < 32
        &&& self.pos <= self.words@.len()
        &&& self.pos == self.words@.len() ==> self.used == 0
    }

    /// The words of the stream.
    pub closed spec fn words(&self) -> Seq<u32> {
        self.words@
    }

    /// The number of bits consumed.
    pub closed spec fn consumed(&self) -> int {
        self.pos * 32 + self.used
    }

    /// A ready decoder has consumed at most the bits of its words.
    pub proof fn lemma_consumed_bound(&self)
        requires
            self.ready(),
        ensures
            0 <= self.consumed() <= 32 * self.words().len(),
    {
    }
}

impl<'a> BitDecoder<'a> for DirectBitDecoder {
    type BitState = (Seq<u32>, int);

    closed spec fn ready(&self) -> bool {
        self.wf()
    }

    open spec fn bit_state(&self) -> (Seq<u32>, int) {
        (self.words(), self.consumed())
    }

    open spec fn start_parse(s: Seq<u8>) -> Result<((Seq<u32>, int), nat), DecodeError> {
        match direct_parse(s) {
            Ok((w, k)) => Ok(((w, 0int), k)),
            Err(e) => Err(e),
        }
    }

    open spec fn bit_step(st: (Seq<u32>, int)) -> (bool, (Seq<u32>, int)) {
        direct_bit_step(st)
    }

    open spec fn lsb_step(st: (Seq<u32>, int), nbits: u32) -> Result<(u32, (Seq<u32>, int)), DecodeError> {
        direct_lsb_step(st, nbits as int)
    }

    /// Reads a direct bit stream framed by its byte size.
    fn start(reader: &mut Reader<'a>) -> (r: Result<Self, DecodeError>)
        ensures
            match direct_parse(old(reader).rest()) {
                Ok((words, k)) => (r matches Ok(d) && d.wf() && d.words() == words && d.consumed()
                    == 0 && final(reader).rest() == old(reader).rest().skip(k as int)),
                Err(e) => r == Err::<Self, DecodeError>(e),
            },
    {
        let ghost s = reader.rest();
        let size = match reader.read_u32() {
            Ok(v) => v,
            Err(e) => return Err(DecodeError::Reader(e)),
        };
        if size == 0 || size % 4 != 0 || size as usize > reader.remaining() {
            return Err(DecodeError::MalformedAttribute("invalid direct bit stream size"));
        }
        let bytes = match reader.read_bytes(size as usize) {
            Ok(b) => b,
            Err(e) => return Err(DecodeError::Reader(e)),
        };
        let n = (size / 4) as usize;
        let mut words: Vec<u32> = Vec::new();
        let mut i: usize = 0;
        while i < n
            invariant
                n * 4 == bytes@.len(),
                bytes@ == s.skip(4).take(size as int),
                s.len() >= 4 + size,
                i <= n,
                words@.len() == i,
                forall|j: int|
                    0 <= j < i ==> #[trigger] words@[j] == le32(
                        s[4 + 4 * j],
                        s[5 + 4 * j],
                        s[6 + 4 * j],
                        s[7 + 4 * j],
                    ) as u32,
            decreases n - i,
        {
            let b0 = bytes[4 * i] as u32;
            let b1 = bytes[4 * i + 1] as u32;
            let b2 = bytes[4 * i + 2] as u32;
            let b3 = bytes[4 * i + 3] as u32;
            let w = b0 | (b1 << 8) | (b2 << 16) | (b3 << 24);
            proof {
                assert(w == b0 + b1 * 256 + b2 * 65536 + b3 * 16777216) by (bit_vector)
                    requires
                        b0 < 256,
                        b1 < 256,
                        b2 < 256,
                        b3 < 256,
                        w == b0 | (b1 << 8) | (b2 << 16) | (b3 << 24),
                ;
            }
            words.push(w);
            i = i + 1;
        }
        proof {
            assert(words@ =~= Seq::new(
                (size / 4) as nat,
                |i: int| le32(s[4 + 4 * i], s[5 + 4 * i], s[6 + 4 * i], s[7 + 4 * i]) as u32,
            ));
            assert(s.skip(4).skip(size as int) =~= s.skip(4 + size));
        }
        Ok(DirectBitDecoder { words, pos: 0, used: 0 })
    }

    /// The next bit; `false`, consuming nothing, once the words run out.
    fn decode_bit(&mut self) -> (bit: bool)
        ensures
            final(self).wf(),
            final(self).words() == old(self).words(),
            old(self).consumed() < 32 * old(self).words().len() ==> bit == word_bit(
                old(self).words()[old(self).consumed() / 32],
                old(self).consumed() % 32,
            ) && final(self).consumed() == old(self).consumed() + 1,
            old(self).consumed() >= 32 * old(self).words().len() ==> !bit && final(self).consumed()
                == old(self).consumed(),
    {
        if self.pos == self.words.len() {
            return false;
        }
        let w = self.words[self.pos];
        let sh: u32 = 31 - self.used;
        let bit = w & (1u32 << sh) != 0;
        proof {
            assert((w & (1u32 << sh) != 0) == ((w >> sh) & 1 == 1)) by (bit_vector)
                requires
                    sh < 32,
            ;
            assert((w >> sh) & 1 == (w >> sh) % 2) by (bit_vector);
            vstd::bits::lemma_u32_shr_is_div(w, sh);
        }
        self.used = self.used + 1;
        if self.used == 32 {
            self.pos = self.pos + 1;
            self.used = 0;
        }
        bit
    }

    /// The next `nbits` bits, most significant first; an error, consuming
    /// nothing, when fewer remain.
    fn decode_lsb32(&mut self, nbits: u32) -> (r: Result<u32, DecodeError>)
        ensures
            final(self).wf(),
            final(self).words() == old(self).words(),
            old(self).consumed() + nbits <= 32 * old(self).words().len() ==> (r matches Ok(v)
                && v as int == next_bits(old(self).words(), old(self).consumed(), nbits as int)
                && final(self).consumed() == old(self).consumed() + nbits),
            old(self).consumed() + nbits > 32 * old(self).words().len() ==> r == Err::<
                u32,
                DecodeError,
            >(DecodeError::MalformedAttribute("direct bit stream exhausted"))
                && final(self).consumed() == old(self).consumed(),
            r matches Ok(v) ==> v < pow2(nbits as nat),
    {
        let ghost k = self.consumed();
        assert(k / 32 == self.pos as int && k % 32 == self.used as int);
        let remaining = 32 - self.used;
        proof {
            lemma_pow2_pos(nbits as nat);
        }
        if nbits <= remaining {
            if self.pos == self.words.len() {
                return Err(DecodeError::MalformedAttribute("direct bit stream exhausted"));
            }
            let w = self.words[self.pos];
            let value = (w << self.used) >> (32 - nbits);
            proof {
                lemma_take_bits(w, self.used, nbits);
                lemma_pow2_pos((32 - self.used - nbits) as nat);
                vstd::arithmetic::div_mod::lemma_div_pos_is_pos(
                    w as int,
                    pow2((32 - self.used - nbits) as nat) as int,
                );
                vstd::arithmetic::div_mod::lemma_mod_pos_bound(
                    w as int / pow2((32 - self.used - nbits) as nat) as int,
                    pow2(nbits as nat) as int,
                );
            }
            self.used = self.used + nbits;
            if self.used == 32 {
                self.pos = self.pos + 1;
                self.used = 0;
            }
            Ok(value)
        } else {
            assert(self.pos < self.words.len());
            if self.pos + 1 >= self.words.len() {
                return Err(DecodeError::MalformedAttribute("direct bit stream exhausted"));
            }
            let w0 = self.words[self.pos];
            let used = self.used;
            let value_l = w0 << used;
            let new_used = nbits - remaining;
            self.pos = self.pos + 1;
            let w1 = self.words[self.pos];
            let value_r = w1 >> (32 - new_used);
            self.used = new_used;
            let value = (value_l >> (32 - new_used - remaining)) | value_r;
            proof {
                let hi: u32 = (w0 << used) >> used;
                lemma_take_bits(w0, used, remaining);
                assert((w0 << used) >> (32 - remaining) as u32 == hi) by (bit_vector)
                    requires
                        0 < used < 32,
                        remaining == 32 - used,
                        hi == (w0 << used) >> used,
                ;
                assert(value_l >> ((32 - new_used - remaining) as u32) == hi << new_used) by (
                bit_vector)
                    requires
                        0 < used < 32,
                        remaining == 32 - used,
                        0 < new_used <= used,
                        value_l == w0 << used,
                        hi == (w0 << used) >> used,
                ;
                lemma_take_bits(w1, 0, new_used);
                assert(value_r == (w1 << 0u32) >> ((32 - new_used) as u32)) by (bit_vector)
                    requires
                        value_r == w1 >> ((32 - new_used) as u32),
                ;
                assert(value_r < (1u32 << new_used)) by (bit_vector)
                    requires
                        0 < new_used < 32,
                        value_r == w1 >> ((32 - new_used) as u32),
                ;
                assert(hi < (1u32 << remaining)) by (bit_vector)
                    requires
                        0 < used < 32,
                        remaining == 32 - used,
                        hi == (w0 << used) >> used,
                ;
                assert((hi << new_used) | value_r == (hi << new_used) + value_r) by (bit_vector)
                    requires
                        0 < new_used < 32,
                        value_r < (1u32 << new_used),
                ;
                vstd::bits::lemma_u32_pow2_no_overflow(remaining as nat);
                vstd::bits::lemma_u32_shl_is_mul(1u32, remaining);
                vstd::bits::lemma_u32_pow2_no_overflow(new_used as nat);
                vstd::bits::lemma_u32_shl_is_mul(1u32, new_used);
                lemma_pow2_adds(remaining as nat, new_used as nat);
                assert(hi * pow2(new_used as nat) < pow2(remaining as nat) * pow2(new_used as nat))
                    by (nonlinear_arith)
                    requires
                        hi < pow2(remaining as nat),
                        pow2(new_used as nat) > 0,
                ;
                assert(hi * pow2(new_used as nat) <= u32::MAX) by {
                    assert((remaining + new_used) as nat == nbits as nat);
                    if nbits < 32 {
                        vstd::bits::lemma_u32_pow2_no_overflow(nbits as nat);
                    } else {
                        vstd::arithmetic::power2::lemma2_to64();
                    }
                }
                vstd::bits::lemma_u32_shl_is_mul(hi, new_used);
                vstd::arithmetic::power2::lemma2_to64();
                assert(pow2(0) == 1);
                lemma_pow2_pos((32 - new_used) as nat);
                lemma_pow2_adds((32 - new_used) as nat, new_used as nat);
                assert(((32 - new_used) + new_used) as nat == 32);
                vstd::arithmetic::div_mod::lemma_multiply_divide_lt(
                    w1 as int,
                    pow2((32 - new_used) as nat) as int,
                    pow2(new_used as nat) as int,
                );
                vstd::arithmetic::div_mod::lemma_small_mod(
                    (w1 as int / pow2((32 - new_used) as nat) as int) as nat,
                    pow2(new_used as nat),
                );
                vstd::arithmetic::div_mod::lemma_div_pos_is_pos(
                    w1 as int,
                    pow2((32 - new_used) as nat) as int,
                );
                assert(value as int == hi as int * pow2(new_used as nat) as int + value_r as int);
                assert((value as int) < pow2(nbits as nat)) by {
                    assert((remaining + new_used) as nat == nbits as nat);
                    assert((hi as int) * (pow2(new_used as nat) as int) + (value_r as int) < (pow2(
                        remaining as nat,
                    ) as int) * (pow2(new_used as nat) as int)) by (nonlinear_arith)
                        requires
                            hi < pow2(remaining as nat),
                            value_r < pow2(new_used as nat),
                    ;
                }
                assert(w0 as int / 1 == w0 as int);
                assert(hi as int == w0 as int % pow2(remaining as nat) as int);
                assert(value_r as int == w1 as int / pow2((32 - new_used) as nat) as int);
                assert(k % 32 == used as int);
                assert(k / 32 == self.pos - 1);
                assert(nbits - (32 - used) == new_used);
                assert(value as int == next_bits(self.words@, k, nbits as int));
            }
            Ok(value)
        }
    }
}

} // verus!
