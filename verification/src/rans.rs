//! rANS and rabs decoder state machines, plus the [`RansSymbolDecoder`] that
//! parses the frequency-table format the symbol encoder writes.
//!
//! The decoders renormalize before decoding and read their initial state in
//! the `ans_read_init` layout; the renormalization bytes are consumed
//! back-to-front from the tail of the sub-stream through a [`RevReader`].

use vstd::prelude::*;
use crate::error::{DecodeError, EntropyErr, ReaderErr};
use crate::reader::{
    lemma_bytes_needed_le3, lemma_pow2_divides, lemma_leb128_len, bytes_needed, is_pow2, leb128_ok, leb128_parse, leb128_read, pull_back, refill_loop, Reader,
    RevReader,
};

verus! {

/// Renormalization threshold of the rabs decoder, and of the rANS initial
/// state layout.
pub const L_RANS_BASE: usize = 4096;

/// `2^n`.
pub open spec fn pow2(n: nat) -> nat
    decreases n,
{
    if n == 0 {
        1
    } else {
        2 * pow2((n - 1) as nat)
    }
}

pub proof fn lemma_pow2_facts(n: nat)
    ensures
        pow2(n) >= 1,
        is_pow2(pow2(n) as int),
        n <= 20 ==> pow2(n) <= 0x10_0000,
    decreases n,
{
    if n > 0 {
        lemma_pow2_facts((n - 1) as nat);
        assert(pow2(n) / 2 == pow2((n - 1) as nat));
    }
    if n <= 20 && n > 0 {
        lemma_pow2_mono((n - 1) as nat, 19);
        reveal_with_fuel(pow2, 21);
    }
}

proof fn lemma_pow2_mono(a: nat, b: nat)
    requires
        a <= b,
    ensures
        pow2(a) <= pow2(b),
    decreases b,
{
    if a < b {
        lemma_pow2_mono(a, (b - 1) as nat);
    }
}

/// One symbol's slot range in a rANS distribution: `freq_count` slots
/// starting at `freq_cumulative`.
#[derive(Debug, Clone, Copy, PartialEq, Eq)]
pub struct RansSymbol {
    /// Number of slots the symbol owns.
    pub freq_count: u32,
    /// First slot the symbol owns.
    pub freq_cumulative: u32,
}

/// Sum of the first `i` frequencies.
pub open spec fn prefix_sum(f: Seq<usize>, i: int) -> int
    decreases i,
{
    if i <= 0 {
        0
    } else {
        prefix_sum(f, i - 1) + f[i - 1]
    }
}

/// Whether `t` partitions the `2^precision` slots into consecutive ranges,
/// one per symbol in symbol order.
pub open spec fn table_wf(t: Seq<RansSymbol>, precision: nat) -> bool {
    &&& t.len() >= 1
    &&& t[0].freq_cumulative == 0
    &&& forall|i: int| 0 <= i < t.len() - 1 ==> #[trigger] adjacent(t, i)
    &&& t.last().freq_cumulative + t.last().freq_count == pow2(precision)
}

/// Symbol `i + 1` starts where symbol `i` ends.
pub open spec fn adjacent(t: Seq<RansSymbol>, i: int) -> bool {
    t[i + 1].freq_cumulative == t[i].freq_cumulative + t[i].freq_count
}

/// Whether slot `rem` belongs to symbol `i`.
pub open spec fn covers(t: Seq<RansSymbol>, i: int, rem: int) -> bool {
    &&& 0 <= i < t.len()
    &&& t[i].freq_cumulative <= rem < t[i].freq_cumulative + t[i].freq_count
}

/// Cumulative starts never decrease.
proof fn lemma_cum_monotone(t: Seq<RansSymbol>, precision: nat, i: int, j: int)
    requires
        table_wf(t, precision),
        0 <= i <= j < t.len(),
    ensures
        t[i].freq_cumulative <= t[j].freq_cumulative,
    decreases j - i,
{
    if i < j {
        lemma_cum_monotone(t, precision, i, j - 1);
        assert(adjacent(t, j - 1));
    }
}

/// Every slot start is at most the total.
proof fn lemma_cum_bound(t: Seq<RansSymbol>, precision: nat, i: int)
    requires
        table_wf(t, precision),
        0 <= i < t.len(),
    ensures
        t[i].freq_cumulative + t[i].freq_count <= pow2(precision),
    decreases t.len() - i,
{
    if i < t.len() - 1 {
        lemma_cum_bound(t, precision, i + 1);
        assert(adjacent(t, i));
    }
}

/// Builds the symbol distribution from per-symbol frequencies: each symbol's
/// cumulative start is the sum of the frequencies before it. The frequencies
/// must sum to exactly `2^precision`, with `precision` in `1..=20`.
pub fn rans_symbol_table(freq_counts: &[usize], precision: usize) -> (r: Result<
    Vec<RansSymbol>,
    DecodeError,
>)
    ensures
        (1 <= precision <= 20 && freq_counts@.len() >= 1 && prefix_sum(
            freq_counts@,
            freq_counts@.len() as int,
        ) == pow2(precision as nat)) <==> r is Ok,
        r matches Ok(t) ==> table_wf(t@, precision as nat) && t@.len() == freq_counts@.len()
            && forall|i: int|
            0 <= i < t@.len() ==> (#[trigger] t@[i]).freq_count == freq_counts@[i]
                && t@[i].freq_cumulative == prefix_sum(freq_counts@, i),
        !(1 <= precision <= 20) ==> r == Err::<Vec<RansSymbol>, DecodeError>(
            DecodeError::Entropy(EntropyErr::InvalidPrecision),
        ),
        (1 <= precision <= 20 && r is Err) ==> r == Err::<Vec<RansSymbol>, DecodeError>(
            DecodeError::Entropy(EntropyErr::InvalidFrequencyTable),
        ),
{
    if precision < 1 || precision > 20 {
        return Err(DecodeError::Entropy(EntropyErr::InvalidPrecision));
    }
    let total = slot_count(precision);
    let n = freq_counts.len();
    let mut out: Vec<RansSymbol> = Vec::new();
    let mut cum: usize = 0;
    let mut i: usize = 0;
    while i < n
        invariant
            n == freq_counts@.len(),
            1 <= precision <= 20,
            total == pow2(precision as nat),
            total <= 0x10_0000,
            i <= n,
            cum == prefix_sum(freq_counts@, i as int),
            cum <= total,
            out@.len() == i,
            forall|j: int|
                0 <= j < i ==> (#[trigger] out@[j]).freq_count == freq_counts@[j]
                    && out@[j].freq_cumulative == prefix_sum(freq_counts@, j),
        decreases n - i,
    {
        let f = freq_counts[i];
        if f > total - cum {
            proof {
                lemma_prefix_sum_grows(freq_counts@, i as int + 1, n as int);
            }
            return Err(DecodeError::Entropy(EntropyErr::InvalidFrequencyTable));
        }
        out.push(RansSymbol { freq_count: f as u32, freq_cumulative: cum as u32 });
        cum = cum + f;
        i += 1;
    }
    if n == 0 || cum != total {
        return Err(DecodeError::Entropy(EntropyErr::InvalidFrequencyTable));
    }
    proof {
        assert forall|j: int| 0 <= j < out@.len() - 1 implies #[trigger] adjacent(out@, j) by {
            assert(prefix_sum(freq_counts@, j + 1) == prefix_sum(freq_counts@, j)
                + freq_counts@[j]);
        }
        assert(prefix_sum(freq_counts@, n as int) == prefix_sum(freq_counts@, n - 1)
            + freq_counts@[n - 1]);
    }
    Ok(out)
}

/// Prefix sums of non-negative frequencies never decrease.
proof fn lemma_prefix_sum_grows(f: Seq<usize>, i: int, j: int)
    requires
        0 <= i <= j <= f.len(),
    ensures
        prefix_sum(f, i) <= prefix_sum(f, j),
    decreases j - i,
{
    if i < j {
        lemma_prefix_sum_grows(f, i, j - 1);
    }
}

/// `2^precision` computed by doubling.
fn slot_count(precision: usize) -> (r: usize)
    requires
        precision <= 20,
    ensures
        r == pow2(precision as nat),
        r <= 0x10_0000,
        1 <= r,
{
    proof {
        lemma_pow2_facts(precision as nat);
    }
    let mut r: usize = 1;
    let mut i: usize = 0;
    while i < precision
        invariant
            i <= precision <= 20,
            r == pow2(i as nat),
            r <= 0x10_0000,
        decreases precision - i,
    {
        proof {
            lemma_pow2_mono((i + 1) as nat, 20);
            reveal_with_fuel(pow2, 21);
        }
        r = r * 2;
        i += 1;
    }
    r
}

/// The symbol owning slot `rem`: the last symbol whose cumulative start is at
/// most `rem`. Zero-frequency symbols share their start with the next symbol,
/// so ties resolve to the one whose range actually contains `rem`.
fn find_symbol(t: &[RansSymbol], rem: usize, Ghost(precision): Ghost<nat>) -> (r: usize)
    requires
        table_wf(t@, precision),
        rem < pow2(precision),
    ensures
        covers(t@, r as int, rem as int),
{
    let mut lo: usize = 0;
    let mut hi: usize = t.len();
    while lo < hi
        invariant
            table_wf(t@, precision),
            0 <= lo <= hi <= t@.len(),
            forall|i: int| 0 <= i < lo ==> t@[i].freq_cumulative <= rem,
            forall|i: int| hi <= i < t@.len() ==> t@[i].freq_cumulative > rem,
        decreases hi - lo,
    {
        let mid = lo + (hi - lo) / 2;
        if t[mid].freq_cumulative as usize <= rem {
            proof {
                assert forall|i: int| 0 <= i < mid + 1 implies t@[i].freq_cumulative <= rem by {
                    lemma_cum_monotone(t@, precision, i, mid as int);
                }
            }
            lo = mid + 1;
        } else {
            proof {
                assert forall|i: int| mid <= i < t@.len() implies t@[i].freq_cumulative
                    > rem by {
                    lemma_cum_monotone(t@, precision, mid as int, i);
                }
            }
            hi = mid;
        }
    }
    proof {
        assert(t@[0].freq_cumulative == 0);
        let s = lo - 1;
        if s + 1 < t@.len() {
            assert(adjacent(t@, s));
        }
    }
    lo - 1
}

/// Builds the slot-to-symbol lookup table with 32-bit entries.
fn slot_table_u32(t: &[RansSymbol], precision: usize) -> (lut: Vec<u32>)
    requires
        table_wf(t@, precision as nat),
        precision <= 20,
        t@.len() <= u32::MAX,
    ensures
        lut@.len() == pow2(precision as nat),
        forall|j: int| 0 <= j < lut@.len() ==> covers(t@, #[trigger] lut@[j] as int, j),
{
    let mut lut: Vec<u32> = Vec::new();
    let mut i: usize = 0;
    let n = t.len();
    while i < n
        invariant
            n == t@.len(),
            n <= u32::MAX,
            table_wf(t@, precision as nat),
            i <= n,
            i < n ==> lut@.len() == t@[i as int].freq_cumulative,
            i == n ==> lut@.len() == pow2(precision as nat),
            forall|j: int| 0 <= j < lut@.len() ==> covers(t@, #[trigger] lut@[j] as int, j),
        decreases n - i,
    {
        let start = t[i].freq_cumulative;
        let end = t[i].freq_cumulative as u64 + t[i].freq_count as u64;
        let mut j: u64 = start as u64;
        while j < end
            invariant
                i < n,
                n == t@.len(),
                n <= u32::MAX,
                start == t@[i as int].freq_cumulative,
                end == t@[i as int].freq_cumulative + t@[i as int].freq_count,
                start <= j <= end,
                lut@.len() == j,
                forall|k: int| 0 <= k < lut@.len() ==> covers(t@, #[trigger] lut@[k] as int, k),
            decreases end - j,
        {
            lut.push(i as u32);
            j += 1;
        }
        proof {
            if i + 1 < n {
                assert(adjacent(t@, i as int));
            }
        }
        i += 1;
    }
    lut
}

/// Builds the slot-to-symbol lookup table with 16-bit entries, for alphabets
/// of at most `2^16` symbols.
fn slot_table_u16(t: &[RansSymbol], precision: usize) -> (lut: Vec<u16>)
    requires
        table_wf(t@, precision as nat),
        precision <= 20,
        t@.len() <= 0x1_0000,
    ensures
        lut@.len() == pow2(precision as nat),
        forall|j: int| 0 <= j < lut@.len() ==> covers(t@, #[trigger] lut@[j] as int, j),
{
    let mut lut: Vec<u16> = Vec::new();
    let mut i: usize = 0;
    let n = t.len();
    while i < n
        invariant
            n == t@.len(),
            n <= 0x1_0000,
            table_wf(t@, precision as nat),
            i <= n,
            i < n ==> lut@.len() == t@[i as int].freq_cumulative,
            i == n ==> lut@.len() == pow2(precision as nat),
            forall|j: int| 0 <= j < lut@.len() ==> covers(t@, #[trigger] lut@[j] as int, j),
        decreases n - i,
    {
        let start = t[i].freq_cumulative;
        let end = t[i].freq_cumulative as u64 + t[i].freq_count as u64;
        let mut j: u64 = start as u64;
        while j < end
            invariant
                i < n,
                n == t@.len(),
                n <= 0x1_0000,
                start == t@[i as int].freq_cumulative,
                end == t@[i as int].freq_cumulative + t@[i as int].freq_count,
                start <= j <= end,
                lut@.len() == j,
                forall|k: int| 0 <= k < lut@.len() ==> covers(t@, #[trigger] lut@[k] as int, k),
            decreases end - j,
        {
            proof {
                assert(covers(t@, i as int, j as int));
            }
            lut.push(i as u16);
            j += 1;
        }
        proof {
            if i + 1 < n {
                assert(adjacent(t@, i as int));
            }
        }
        i += 1;
    }
    lut
}

/// The initial decoder state stored at the tail of `s`, before `l_base` is
/// added back, with the number of bytes it occupies. The last byte carries a
/// 2-bit size tag in its top bits selecting a 6/14/22/30-bit layout.
pub open spec fn state_init(s: Seq<u8>) -> Option<(int, nat)> {
    let n = s.len() as int;
    if n == 0 {
        None
    } else {
        let msb = s[n - 1];
        let tag = msb / 64;
        let low6 = msb % 64;
        if tag == 0 {
            Some((low6 as int, 1nat))
        } else if tag == 1 {
            if n < 2 {
                None
            } else {
                Some((low6 * 256 + s[n - 2], 2nat))
            }
        } else if tag == 2 {
            if n < 3 {
                None
            } else {
                Some((low6 * 65536 + s[n - 2] * 256 + s[n - 3], 3nat))
            }
        } else {
            if n < 4 {
                None
            } else {
                Some((low6 * 16777216 + s[n - 2] * 65536 + s[n - 3] * 256 + s[n - 4], 4nat))
            }
        }
    }
}

/// Reads the final rANS/rabs state from the tail of the reversed buffer and
/// adds `l_base` back to undo the encoder's flush subtraction.
fn read_state_init(rev: &mut RevReader<'_>, l_base: usize) -> (r: Result<usize, DecodeError>)
    requires
        l_base <= 0x40_0000,
    ensures
        match state_init(old(rev).rest()) {
            Some((v, k)) => r == Ok::<usize, DecodeError>((v + l_base) as usize) && final(rev).rest() == old(rev).rest().take(old(rev).rest().len() - k),
            None => r == Err::<usize, DecodeError>(DecodeError::Reader(ReaderErr::NotEnoughData)),
        },
        r matches Ok(v) ==> v < 0x4000_0000 + l_base,
{
    let ghost s = rev.rest();
    let msb = match rev.read_u8_back() {
        Ok(b) => b,
        Err(e) => return Err(DecodeError::Reader(e)),
    };
    let tag = msb / 64;
    let low6 = (msb % 64) as usize;
    let n = rev.remaining();
    let state = if tag == 0 {
        low6
    } else if tag == 1 {
        let b1 = match rev.read_u8_back() {
            Ok(b) => b,
            Err(e) => return Err(DecodeError::Reader(e)),
        };
        low6 * 256 + b1 as usize
    } else if tag == 2 {
        let b1 = match rev.read_u8_back() {
            Ok(b) => b,
            Err(e) => return Err(DecodeError::Reader(e)),
        };
        let b2 = match rev.read_u8_back() {
            Ok(b) => b,
            Err(e) => return Err(DecodeError::Reader(e)),
        };
        low6 * 65536 + b1 as usize * 256 + b2 as usize
    } else {
        let b1 = match rev.read_u8_back() {
            Ok(b) => b,
            Err(e) => return Err(DecodeError::Reader(e)),
        };
        let b2 = match rev.read_u8_back() {
            Ok(b) => b,
            Err(e) => return Err(DecodeError::Reader(e)),
        };
        let b3 = match rev.read_u8_back() {
            Ok(b) => b,
            Err(e) => return Err(DecodeError::Reader(e)),
        };
        low6 * 16777216 + b1 as usize * 65536 + b2 as usize * 256 + b3 as usize
    };
    proof {
        let m = s.len() as int;
        assert(s.drop_last() == s.take(m - 1));
        if m >= 2 {
            assert(s.take(m - 1).drop_last() == s.take(m - 2));
        }
        if m >= 3 {
            assert(s.take(m - 2).drop_last() == s.take(m - 3));
        }
        if m >= 4 {
            assert(s.take(m - 3).drop_last() == s.take(m - 4));
        }
    }
    Ok(state + l_base)
}

/// The rANS renormalization a decoder performs before each symbol: the
/// byte-at-a-time loop, except that the branchless refill of a zero state
/// over at least four bytes pulls the bytes a state of one would need.
pub open spec fn refill_spec(state: int, s: Seq<u8>, l_base: int, branchless: bool) -> (
    int,
    Seq<u8>,
) {
    if branchless && state == 0 && s.len() >= 4 {
        let k = bytes_needed(1, l_base);
        (pull_back(0, s, k), s.take(s.len() - k))
    } else {
        refill_loop(state, s, l_base)
    }
}

/// The symbol owning slot `rem`.
pub open spec fn owner(t: Seq<RansSymbol>, rem: int) -> int {
    choose|i: int| covers(t, i, rem)
}

/// One rANS decode step over a distribution: renormalize, find the symbol
/// owning the state's slot, and advance the state past it. Returns the
/// symbol, the new state and the bytes left.
pub open spec fn rans_next(
    t: Seq<RansSymbol>,
    precision: nat,
    l_base: int,
    branchless: bool,
    state: int,
    rest: Seq<u8>,
) -> (int, int, Seq<u8>) {
    let (x, s) = refill_spec(state, rest, l_base, branchless);
    let m = pow2(precision) as int;
    let rem = x % m;
    let sym = owner(t, rem);
    (sym, (x / m) * t[sym].freq_count + rem - t[sym].freq_cumulative, s)
}

/// The first `n` symbols a rANS decoder in the given state produces.
pub open spec fn rans_run(
    t: Seq<RansSymbol>,
    precision: nat,
    l_base: int,
    branchless: bool,
    state: int,
    rest: Seq<u8>,
    n: nat,
) -> Seq<int>
    decreases n,
{
    if n == 0 {
        Seq::empty()
    } else {
        let (sym, st, r) = rans_next(t, precision, l_base, branchless, state, rest);
        seq![sym] + rans_run(t, precision, l_base, branchless, st, r, (n - 1) as nat)
    }
}

/// Slots belong to exactly one symbol.
pub proof fn lemma_owner_unique(t: Seq<RansSymbol>, precision: nat, i: int, rem: int)
    requires
        table_wf(t, precision),
        covers(t, i, rem),
    ensures
        owner(t, rem) == i,
{
    let j = owner(t, rem);
    assert(covers(t, j, rem));
    if j < i {
        lemma_cum_monotone(t, precision, j + 1, i);
        assert(adjacent(t, j));
    } else if i < j {
        lemma_cum_monotone(t, precision, i + 1, j);
        assert(adjacent(t, i));
    }
}

/// Slot-to-symbol lookup strategy. The table entry width follows the
/// alphabet size so the `2^precision`-entry table stays small.
enum SlotTable {
    U16(Vec<u16>),
    U32(Vec<u32>),
    BinarySearch,
}

/// Non-binary rANS decoder over a fixed symbol distribution. `precision` is
/// the log2 of the total frequency count and must match the encoder's.
///
/// The slot-to-symbol lookup is either a `2^precision`-entry table or a
/// binary search over the cumulative frequencies; the caller picks via
/// `use_lut`. Both resolve a slot to the same symbol.
pub struct RansDecoder<'a> {
    rev: RevReader<'a>,
    state: usize,
    slot_table: SlotTable,
    rans_symbols: Vec<RansSymbol>,
    refill_branchless: bool,
    precision: u32,
    l_base: usize,
}

impl<'a> RansDecoder<'a> {
    /// The decoder's internal consistency: a valid distribution, a matching
    /// lookup table and a bounded state.
    pub closed spec fn wf(&self) -> bool {
        &&& 1 <= self.precision <= 20
        &&& self.l_base == 4 * pow2(self.precision as nat)
        &&& table_wf(self.rans_symbols@, self.precision as nat)
        &&& self.state < 0x8000_0000
        &&& match self.slot_table {
            SlotTable::U16(t) => t@.len() == pow2(self.precision as nat) && forall|j: int|
                0 <= j < t@.len() ==> covers(self.rans_symbols@, #[trigger] t@[j] as int, j),
            SlotTable::U32(t) => t@.len() == pow2(self.precision as nat) && forall|j: int|
                0 <= j < t@.len() ==> covers(self.rans_symbols@, #[trigger] t@[j] as int, j),
            SlotTable::BinarySearch => true,
        }
    }

    /// The current coder state.
    pub closed spec fn state(&self) -> int {
        self.state as int
    }

    /// The renormalization bytes not yet consumed.
    pub closed spec fn rest(&self) -> Seq<u8> {
        self.rev.rest()
    }

    /// The symbol distribution.
    pub closed spec fn symbols(&self) -> Seq<RansSymbol> {
        self.rans_symbols@
    }

    /// The log2 of the total frequency count.
    pub closed spec fn precision(&self) -> nat {
        self.precision as nat
    }

    /// The renormalization threshold, `4 << precision`.
    pub closed spec fn l_base(&self) -> int {
        self.l_base as int
    }

    /// Whether renormalization uses the branchless multi-byte fold.
    pub closed spec fn branchless(&self) -> bool {
        self.refill_branchless
    }

    /// Initializes the decoder from the reversed buffer and a symbol
    /// distribution (as produced by [`rans_symbol_table`]).
    pub fn new(
        rev: RevReader<'a>,
        rans_symbols: Vec<RansSymbol>,
        use_lut: bool,
        refill_branchless: bool,
        precision: usize,
    ) -> (r: Result<Self, DecodeError>)
        requires
            1 <= precision <= 20,
            table_wf(rans_symbols@, precision as nat),
            rans_symbols@.len() <= u32::MAX,
        ensures
            match state_init(rev.rest()) {
                Some((v, k)) => r matches Ok(d) && d.wf() && d.state() == v + 4 * pow2(
                    precision as nat,
                ) && d.rest() == rev.rest().take(rev.rest().len() - k) && d.symbols()
                    == rans_symbols@ && d.precision() == precision && d.branchless()
                    == refill_branchless && d.l_base() == 4 * pow2(precision as nat),
                None => r == Err::<Self, DecodeError>(
                    DecodeError::Reader(ReaderErr::NotEnoughData),
                ),
            },
    {
        let mut rev = rev;
        let l_base = 4 * slot_count(precision);
        let state = read_state_init(&mut rev, l_base)?;
        proof {
            lemma_pow2_facts(precision as nat);
        }
        let slot_table = if !use_lut {
            SlotTable::BinarySearch
        } else if rans_symbols.len() <= 0x1_0000 {
            SlotTable::U16(slot_table_u16(rans_symbols.as_slice(), precision))
        } else {
            SlotTable::U32(slot_table_u32(rans_symbols.as_slice(), precision))
        };
        Ok(RansDecoder {
            rev,
            state,
            slot_table,
            rans_symbols,
            refill_branchless,
            precision: precision as u32,
            l_base,
        })
    }

    /// Decodes the next symbol index: renormalizes, finds the symbol owning
    /// the state's slot, and advances the state past it.
    pub fn read(&mut self) -> (symbol: usize)
        requires
            old(self).wf(),
        ensures
            final(self).wf(),
            final(self).symbols() == old(self).symbols(),
            final(self).precision() == old(self).precision(),
            final(self).l_base() == old(self).l_base(),
            final(self).branchless() == old(self).branchless(),
            ({
                let (x, s) = refill_spec(
                    old(self).state(),
                    old(self).rest(),
                    old(self).l_base(),
                    old(self).branchless(),
                );
                let m = pow2(old(self).precision()) as int;
                let rem = x % m;
                let t = old(self).symbols();
                &&& covers(t, symbol as int, rem)
                &&& final(self).state() == (x / m) * t[symbol as int].freq_count + rem
                    - t[symbol as int].freq_cumulative
                &&& final(self).rest() == s
            }),
            (symbol as int, final(self).state(), final(self).rest()) == rans_next(
                old(self).symbols(),
                old(self).precision(),
                old(self).l_base(),
                old(self).branchless(),
                old(self).state(),
                old(self).rest(),
            ),
    {
        proof {
            lemma_pow2_facts(self.precision as nat);
            assert(is_pow2(self.l_base as int)) by {
                lemma_pow2_times_4(pow2(self.precision as nat) as int);
            }
        }
        let ghost s0 = self.rev.rest();
        if self.refill_branchless {
            proof {
                lemma_bytes_needed_le3(if self.state == 0 { 1int } else { self.state as int }, self.l_base as int);
                crate::reader::lemma_refill_bound(self.state as int, s0, self.l_base as int);
            }
            self.state = self.rev.rans_refill(self.state, self.l_base);
        } else {
            while self.state < self.l_base && self.rev.remaining() > 0
                invariant
                    1 <= self.precision <= 20,
                    self.l_base == 4 * pow2(self.precision as nat),
                    self.l_base <= 0x40_0000,
                    self.state < 0x8000_0000,
                    refill_loop(old(self).state as int, s0, self.l_base as int) == refill_loop(
                        self.state as int,
                        self.rev.rest(),
                        self.l_base as int,
                    ),
                    self.rans_symbols == old(self).rans_symbols,
                    self.slot_table == old(self).slot_table,
                    self.precision == old(self).precision,
                    self.l_base == old(self).l_base,
                    self.refill_branchless == old(self).refill_branchless,
                decreases self.rev.rest().len(),
            {
                if let Ok(byte) = self.rev.read_u8_back() {
                    self.state = self.state * 256 + byte as usize;
                }
            }
        }
        proof {
            lemma_pow2_facts(self.precision as nat);
        }
        let m = self.l_base / 4;
        assert(m == pow2(self.precision as nat));
        let quo = self.state / m;
        let rem = self.state % m;
        let symbol = match &self.slot_table {
            SlotTable::U16(table) => table[rem] as usize,
            SlotTable::U32(table) => table[rem] as usize,
            SlotTable::BinarySearch => find_symbol(
                self.rans_symbols.as_slice(),
                rem,
                Ghost(self.precision as nat),
            ),
        };
        let sym = self.rans_symbols[symbol];
        proof {
            lemma_cum_bound(self.rans_symbols@, self.precision as nat, symbol as int);
            lemma_pow2_divides_state_bound(self.precision as nat);
            lemma_next_state_bound(self.state as int, m as int, quo as int, rem as int,
                sym.freq_count as int, sym.freq_cumulative as int);
        }
        self.state = quo * sym.freq_count as usize + rem - sym.freq_cumulative as usize;
        proof {
            lemma_owner_unique(self.rans_symbols@, self.precision as nat, symbol as int, rem as int);
        }
        symbol
    }
}

/// Every slot count divides the `2^31` state bound.
proof fn lemma_pow2_divides_state_bound(p: nat)
    requires
        p <= 20,
    ensures
        0x8000_0000int % (pow2(p) as int) == 0,
{
    lemma_pow2_facts(p);
    lemma_pow2_facts(31);
    lemma_pow2_mono(p, 31);
    reveal_with_fuel(pow2, 32);
    assert(pow2(31) == 0x8000_0000);
    lemma_pow2_divides(pow2(p) as int, pow2(31) as int);
}

proof fn lemma_pow2_times_4(g: int)
    requires
        is_pow2(g),
    ensures
        is_pow2(4 * g),
{
    reveal_with_fuel(is_pow2, 3);
    assert((4 * g) / 2 == 2 * g);
    assert((2 * g) / 2 == g);
}

/// The state after decoding a symbol stays below `2^31`.
proof fn lemma_next_state_bound(x: int, m: int, quo: int, rem: int, freq: int, cum: int)
    requires
        0 <= x < 0x8000_0000,
        1 <= m,
        0x8000_0000int % m == 0,
        quo == x / m,
        rem == x % m,
        cum <= rem < cum + freq,
        cum + freq <= m,
        0 <= cum,
    ensures
        0 <= quo * freq + rem - cum < 0x8000_0000,
        quo * freq <= x,
{
    assert(quo * freq <= quo * m) by (nonlinear_arith)
        requires
            0 <= quo,
            freq <= m,
    ;
    assert(x == quo * m + rem) by (nonlinear_arith)
        requires
            quo == x / m,
            rem == x % m,
            1 <= m,
    ;
    assert(quo * m + m <= 0x8000_0000) by (nonlinear_arith)
        requires
            x == quo * m + rem,
            0 <= rem < m,
            x < 0x8000_0000,
            0x8000_0000int % m == 0,
            1 <= m,
    ;
}

/// Precision of the rabs zero-bit probability.
const RABS_PRECISION_VALUE: usize = 256;

/// One rabs step: renormalize by at most one byte below the base, then split
/// the state by the zero-bit probability `p0` out of 256. Returns the bit, the
/// new state and the bytes left.
pub open spec fn rabs_step(state: int, s: Seq<u8>, p0: int) -> (bool, int, Seq<u8>) {
    let (x, rest) = if state < 4096 && s.len() > 0 {
        (state * 256 + s.last(), s.drop_last())
    } else {
        (state, s)
    };
    let f1 = 256 - p0;
    let q = x / 256;
    let r = x % 256;
    if r < f1 {
        (true, q * f1 + r, rest)
    } else {
        (false, q * p0 + r - f1, rest)
    }
}

/// Binary rANS (rabs) decoder. `prob_zero` is the frequency of the zero bit
/// out of `2^8`.
#[derive(Clone, Copy)]
pub struct RabsDecoder<'a> {
    rev: RevReader<'a>,
    state: usize,
    prob_zero: usize,
}

impl<'a> RabsDecoder<'a> {
    /// The decoder's internal consistency: a bounded state and probability.
    pub closed spec fn wf(&self) -> bool {
        &&& self.state < 0x8000_0000
        &&& self.prob_zero < 256
    }

    /// The current coder state.
    pub closed spec fn state(&self) -> int {
        self.state as int
    }

    /// The renormalization bytes not yet consumed.
    pub closed spec fn rest(&self) -> Seq<u8> {
        self.rev.rest()
    }

    /// The zero-bit probability out of 256.
    pub closed spec fn prob_zero(&self) -> int {
        self.prob_zero as int
    }

    /// Initializes the decoder from the reversed buffer.
    pub fn new(rev: RevReader<'a>, prob_zero: u8) -> (r: Result<Self, DecodeError>)
        ensures
            match state_init(rev.rest()) {
                Some((v, k)) => r matches Ok(d) && d.wf() && d.state() == v + L_RANS_BASE
                    && d.rest() == rev.rest().take(rev.rest().len() - k) && d.prob_zero()
                    == prob_zero,
                None => r == Err::<Self, DecodeError>(
                    DecodeError::Reader(ReaderErr::NotEnoughData),
                ),
            },
    {
        let mut rev = rev;
        let state = read_state_init(&mut rev, L_RANS_BASE)?;
        Ok(RabsDecoder { rev, state, prob_zero: prob_zero as usize })
    }

    /// Decodes the next bit.
    pub fn decode_bit(&mut self) -> (bit: bool)
        requires
            old(self).wf(),
        ensures
            final(self).wf(),
            final(self).prob_zero() == old(self).prob_zero(),
            (bit, final(self).state(), final(self).rest()) == rabs_step(
                old(self).state(),
                old(self).rest(),
                old(self).prob_zero(),
            ),
    {
        if self.state < L_RANS_BASE {
            if let Ok(byte) = self.rev.read_u8_back() {
                self.state = self.state * 256 + byte as usize;
            }
        }
        let freq_count_1 = RABS_PRECISION_VALUE - self.prob_zero;
        let quo = self.state / RABS_PRECISION_VALUE;
        let rem = self.state % RABS_PRECISION_VALUE;
        let bit = rem < freq_count_1;
        proof {
            assert(quo * freq_count_1 <= quo * 256) by (nonlinear_arith)
                requires
                    freq_count_1 <= 256,
            ;
            assert(quo * self.prob_zero <= quo * 256) by (nonlinear_arith)
                requires
                    self.prob_zero <= 256,
            ;
        }
        self.state = if bit {
            quo * freq_count_1 + rem
        } else {
            quo * self.prob_zero + rem - freq_count_1
        };
        bit
    }
}

/// The frequency table of a rANS symbol stream for `n` symbols at the start
/// of `s`, with the number of bytes it spans. Each entry byte carries a 2-bit
/// token in its low bits: token 3 opens a run of `1 + (byte >> 2)` zero
/// frequencies (cut at the alphabet's end); otherwise the frequency is the
/// byte's top six bits followed by `token` extra bytes.
pub open spec fn freq_parse(s: Seq<u8>, n: nat) -> Option<(Seq<usize>, nat)>
    decreases n,
{
    if n == 0 {
        Some((Seq::<usize>::empty(), 0nat))
    } else if s.len() == 0 {
        None
    } else {
        let pd = s[0];
        let token = pd % 4;
        if token == 3 {
            let run = (pd / 4 + 1) as nat;
            let z = if run < n {
                run
            } else {
                n
            };
            match freq_parse(s.skip(1), (n - z) as nat) {
                Some((f, k)) => Some((Seq::new(z, |i: int| 0usize) + f, k + 1)),
                None => None,
            }
        } else if s.len() < 1 + token {
            None
        } else {
            let freq = (pd / 4 + (if token >= 1 {
                s[1] * 64
            } else {
                0
            }) + (if token >= 2 {
                s[2] * 16384
            } else {
                0
            })) as usize;
            match freq_parse(s.skip(1 + token), (n - 1) as nat) {
                Some((f, k)) => Some((seq![freq] + f, (k + 1 + token) as nat)),
                None => None,
            }
        }
    }
}

/// The parse of a rANS symbol stream at the start of `s`: the per-symbol
/// frequencies and the rANS payload, with the number of bytes the stream
/// spans. The stream is an LEB128 alphabet size, the frequency table, an
/// LEB128 payload length and the payload.
pub open spec fn symbol_stream_parse(s: Seq<u8>) -> Option<(Seq<usize>, Seq<u8>, nat)> {
    match leb128_parse(s) {
        Some((n1, num_symbols)) => if !leb128_ok(s) || num_symbols > u32::MAX {
            None
        } else {
            match freq_parse(s.skip(n1 as int), num_symbols) {
                Some((f, k)) => {
                    let t = s.skip((n1 + k) as int);
                    match leb128_parse(t) {
                        Some((n2, len)) => if !leb128_ok(t) || len > t.len() - n2 {
                            None
                        } else {
                            Some((f, t.subrange(n2 as int, (n2 + len) as int), n1 + k + n2 + len))
                        },
                        None => None,
                    }
                },
                None => None,
            }
        },
        None => None,
    }
}

/// A frequency table has one entry per symbol and lies within its input.
proof fn lemma_freq_parse_facts(s: Seq<u8>, n: nat)
    ensures
        freq_parse(s, n) matches Some((f, k)) ==> f.len() == n && k <= s.len(),
    decreases n,
{
    if n > 0 && s.len() > 0 {
        let pd = s[0];
        let token = pd % 4;
        if token == 3 {
            let run = (pd / 4 + 1) as nat;
            let z = if run < n {
                run
            } else {
                n
            };
            lemma_freq_parse_facts(s.skip(1), (n - z) as nat);
        } else if s.len() >= 1 + token {
            lemma_freq_parse_facts(s.skip(1 + token), (n - 1) as nat);
        }
    }
}

/// Whether a table of frequencies is a valid distribution at `precision`.
pub open spec fn freqs_valid(f: Seq<usize>, precision: nat) -> bool {
    1 <= precision <= 20 && f.len() >= 1 && prefix_sum(f, f.len() as int) == pow2(precision)
}

/// A symbol stream lies within its input.
pub proof fn lemma_symbol_stream_len(s: Seq<u8>, num_to_decode: nat, precision: nat)
    ensures
        symbol_stream_init(s, num_to_decode, precision) matches Some((t, br, st, rest, k)) ==> k
            <= s.len(),
{
    lemma_leb128_len(s);
    if let Some((n1, v)) = leb128_parse(s) {
        lemma_freq_parse_facts(s.skip(n1 as int), v);
        if let Some((f, k)) = freq_parse(s.skip(n1 as int), v) {
            lemma_leb128_len(s.skip((n1 + k) as int));
        }
    }
}

/// The distribution with the given per-symbol frequencies.
pub open spec fn table_of(f: Seq<usize>) -> Seq<RansSymbol> {
    Seq::new(
        f.len(),
        |i: int|
            RansSymbol { freq_count: f[i] as u32, freq_cumulative: prefix_sum(f, i) as u32 },
    )
}

/// The decoder a rANS symbol stream at the start of `s` starts: its
/// distribution, refill strategy, initial state and renormalization bytes,
/// with the number of bytes the stream spans. `None` when the stream is
/// malformed.
pub open spec fn symbol_stream_init(s: Seq<u8>, num_to_decode: nat, precision: nat) -> Option<
    (Seq<RansSymbol>, bool, int, Seq<u8>, nat),
> {
    match symbol_stream_parse(s) {
        Some((f, payload, k)) => if !freqs_valid(f, precision) {
            None
        } else {
            match state_init(payload) {
                Some((v, used)) => Some(
                    (
                        table_of(f),
                        payload.len() * 5 >= num_to_decode * 2,
                        v + 4 * pow2(precision),
                        payload.take(payload.len() - used),
                        k,
                    ),
                ),
                None => None,
            }
        },
        None => None,
    }
}

/// Decodes a sequence of symbols coded with the symbol encoder:
/// parses the LEB128 alphabet size and the frequency table (with zero-run
/// flags), rebuilds the decode tables, and drives a [`RansDecoder`] over the
/// length-prefixed rANS payload.
pub struct RansSymbolDecoder<'a> {
    decoder: RansDecoder<'a>,
}

/// Reads the frequency table of `num_symbols` symbols.
fn read_freq_table(reader: &mut Reader<'_>, num_symbols: usize) -> (r: Result<
    Vec<usize>,
    DecodeError,
>)
    ensures
        freq_parse(old(reader).rest(), num_symbols as nat) is None ==> r is Err,
        freq_parse(old(reader).rest(), num_symbols as nat) matches Some((f, k)) ==> (r matches Ok(
            v,
        ) && v@ == f && final(reader).rest() == old(reader).rest().skip(k as int)),
{
    let ghost s0 = reader.rest();
    assert(s0 == old(reader).rest());
    let mut out: Vec<usize> = Vec::new();
    let mut i: usize = 0;
    let ghost mut used: nat = 0;
    proof {
        assert(s0.skip(0) == s0);
    }
    while i < num_symbols
        invariant
            s0 == old(reader).rest(),
            i <= num_symbols,
            out@.len() == i,
            reader.rest() == s0.skip(used as int),
            used <= s0.len(),
            freq_parse(s0, num_symbols as nat) == match freq_parse(
                reader.rest(),
                (num_symbols - i) as nat,
            ) {
                Some((f, k)) => Some((out@ + f, used + k)),
                None => None,
            },
        decreases num_symbols - i,
    {
        let ghost cur = reader.rest();
        let prob_data = match reader.read_u8() {
            Ok(b) => b,
            Err(e) => {
                proof {
                    assert(freq_parse(cur, (num_symbols - i) as nat) is None);
                    assert(freq_parse(s0, num_symbols as nat) is None);
                }
                return Err(DecodeError::Reader(e));
            },
        };
        let token = prob_data % 4;
        if token == 3 {
            let offset = (prob_data / 4) as usize;
            let remaining = num_symbols - i;
            let z = if offset + 1 < remaining {
                offset + 1
            } else {
                remaining
            };
            let mut j: usize = 0;
            let ghost before = out@;
            while j < z
                invariant
                    j <= z,
                    out@ == before + Seq::new(j as nat, |q: int| 0usize),
                decreases z - j,
            {
                out.push(0);
                proof {
                    assert(out@ == before + Seq::new((j + 1) as nat, |q: int| 0usize));
                }
                j += 1;
            }
            proof {
                assert(cur.skip(1) == reader.rest());
                assert(s0.skip(used as int).skip(1) == s0.skip((used + 1) as int));
                match freq_parse(reader.rest(), (num_symbols - i - z) as nat) {
                    Some((f, k)) => {
                        assert(out@ + f == before + (Seq::new(z as nat, |q: int| 0usize) + f));
                    },
                    None => {},
                }
                used = used + 1;
            }
            i = i + z;
        } else {
            let num_extra_bytes = token as usize;
            let mut freq: usize = (prob_data / 4) as usize;
            if num_extra_bytes >= 1 {
                let extra = match reader.read_u8() {
                    Ok(b) => b,
                    Err(e) => {
                        proof {
                            assert(freq_parse(cur, (num_symbols - i) as nat) is None);
                        }
                        return Err(DecodeError::Reader(e));
                    },
                };
                freq = freq + (extra as usize) * 64;
            }
            if num_extra_bytes >= 2 {
                let extra = match reader.read_u8() {
                    Ok(b) => b,
                    Err(e) => {
                        proof {
                            assert(freq_parse(cur, (num_symbols - i) as nat) is None);
                        }
                        return Err(DecodeError::Reader(e));
                    },
                };
                freq = freq + (extra as usize) * 16384;
            }
            let ghost before = out@;
            out.push(freq);
            proof {
                assert(cur.skip(1 + token as int) == reader.rest());
                assert(s0.skip(used as int).skip(1 + token as int) == s0.skip(
                    (used + 1 + token) as int,
                ));
                match freq_parse(reader.rest(), (num_symbols - i - 1) as nat) {
                    Some((f, k)) => {
                        assert(out@ + f == before + (seq![freq] + f));
                    },
                    None => {},
                }
                used = used + 1 + token as nat;
            }
            i = i + 1;
        }
    }
    proof {
        assert(out@ + Seq::<usize>::empty() == out@);
    }
    Ok(out)
}

impl<'a> RansSymbolDecoder<'a> {
    /// The underlying rANS decoder.
    pub closed spec fn decoder(&self) -> RansDecoder<'a> {
        self.decoder
    }

    /// Parses the frequency table and rANS payload from `reader`, leaving
    /// `reader` immediately after the payload. `num_symbols_to_decode` sizes
    /// the lookup strategy: long streams amortize the `2^precision`-entry
    /// slot table, short ones decode faster with a binary search per symbol.
    pub fn new(reader: &mut Reader<'a>, num_symbols_to_decode: usize, precision: usize) -> (r:
        Result<Self, DecodeError>)
        ensures
            match symbol_stream_init(
                old(reader).rest(),
                num_symbols_to_decode as nat,
                precision as nat,
            ) {
                Some((t, br, st, rest, k)) => r matches Ok(d) && d.decoder().wf()
                    && d.decoder().symbols() == t && d.decoder().precision() == precision
                    && d.decoder().l_base() == 4 * pow2(precision as nat)
                    && d.decoder().branchless() == br && d.decoder().state() == st
                    && d.decoder().rest() == rest && final(reader).rest() == old(reader).rest().skip(
                    k as int,
                ),
                None => r is Err,
            },
    {
        let ghost s0 = reader.rest();
        let num_symbols_raw = match leb128_read(reader) {
            Ok(v) => v,
            Err(e) => return Err(DecodeError::Reader(e)),
        };
        let ghost (n1, nv) = leb128_parse(s0)->0;
        if num_symbols_raw > u32::MAX as u64 {
            return Err(DecodeError::AllocationTooLarge("frequency table"));
        }
        let num_symbols = num_symbols_raw as usize;
        let ghost s1 = reader.rest();
        let freq_counts = read_freq_table(reader, num_symbols)?;
        let ghost s2 = reader.rest();
        let ghost (fv, k) = freq_parse(s1, num_symbols as nat)->0;
        proof {
            lemma_leb128_len(s0);
            lemma_freq_parse_facts(s1, num_symbols as nat);
            assert(s2 =~= s0.skip((n1 + k) as int));
        }
        let rans_symbols = rans_symbol_table(freq_counts.as_slice(), precision)?;
        let slots = slot_count(precision);
        let use_lut = num_symbols_to_decode >= slots / 64;
        let payload_len_raw = match leb128_read(reader) {
            Ok(v) => v,
            Err(e) => return Err(DecodeError::Reader(e)),
        };
        let ghost s3 = reader.rest();
        let ghost (n2, lv) = leb128_parse(s2)->0;
        proof {
            lemma_leb128_len(s2);
        }
        let refill_branchless = (payload_len_raw as u128) * 5 >= (num_symbols_to_decode as u128)
            * 2;
        if payload_len_raw > reader.remaining() as u64 {
            return Err(DecodeError::Reader(ReaderErr::NotEnoughData));
        }
        let payload_len = payload_len_raw as usize;
        let payload = match reader.read_bytes(payload_len) {
            Ok(p) => p,
            Err(e) => return Err(DecodeError::Reader(e)),
        };
        proof {
            assert(payload@ =~= s2.subrange(n2 as int, (n2 + payload_len) as int));
            assert(reader.rest() =~= s0.skip((n1 + k + n2 + payload_len) as int));
        }
        let rev = RevReader::new(payload);
        let ghost t = rans_symbols@;
        let decoder = RansDecoder::new(rev, rans_symbols, use_lut, refill_branchless, precision)?;
        proof {
            assert(t =~= table_of(freq_counts@));
        }
        Ok(RansSymbolDecoder { decoder })
    }

    /// Decodes the next symbol.
    pub fn decode(&mut self) -> (symbol: usize)
        requires
            old(self).decoder().wf(),
        ensures
            final(self).decoder().wf(),
            final(self).decoder().symbols() == old(self).decoder().symbols(),
            final(self).decoder().precision() == old(self).decoder().precision(),
            final(self).decoder().l_base() == old(self).decoder().l_base(),
            final(self).decoder().branchless() == old(self).decoder().branchless(),
            (symbol as int, final(self).decoder().state(), final(self).decoder().rest())
                == rans_next(
                old(self).decoder().symbols(),
                old(self).decoder().precision(),
                old(self).decoder().l_base(),
                old(self).decoder().branchless(),
                old(self).decoder().state(),
                old(self).decoder().rest(),
            ),
    {
        self.decoder.read()
    }
}

} // verus!
