//! The integer kd-tree point decoder.

use vstd::prelude::*;
use vstd::arithmetic::power2::{lemma_pow2_adds, lemma_pow2_pos, pow2};
use crate::error::{DecodeError, ReaderErr};
use crate::point_cloud::bit_decoder::{
    direct_bit_step, direct_lsb_step, direct_parse, next_bits, BitDecoder, DirectBitDecoder,
    FoldedBitDecoder, RansBitDecoder,
};
use crate::reader::{le32, Reader};

verus! {

/// One pending subtree of the kd-tree walk: its point count, the axis its
/// parent split, and the stack row holding its bases and levels.
#[derive(Clone, Copy)]
pub struct Status {
    pub num_remaining_points: u32,
    pub last_axis: u32,
    pub stack_pos: usize,
}

/// The sum of the `d` levels of the row that starts at `start`.
pub open spec fn row_sum(levels: Seq<u32>, start: int, d: nat) -> int
    decreases d,
{
    if d == 0 {
        0
    } else {
        row_sum(levels, start, (d - 1) as nat) + levels[start + d - 1]
    }
}

/// The points still pending on the stack.
pub open spec fn pending_points(st: Seq<Status>) -> int
    decreases st.len(),
{
    if st.len() == 0 {
        0
    } else {
        pending_points(st.drop_last()) + st.last().num_remaining_points
    }
}

/// The work left on the stack: each pending subtree weighs its point count
/// times the splits its row can still take.
pub open spec fn pending_weight(st: Seq<Status>, sums: Seq<int>, k: int) -> int
    decreases st.len(),
{
    if st.len() == 0 || sums.len() == 0 {
        0
    } else {
        pending_weight(st.drop_last(), sums.drop_last(), k) + st.last().num_remaining_points * (k
            - sums.last())
    }
}

proof fn lemma_row_sum_agree(a: Seq<u32>, b: Seq<u32>, start: int, d: nat)
    requires
        0 <= start,
        start + d <= a.len(),
        start + d <= b.len(),
        forall|j: int| start <= j < start + d ==> a[j] == b[j],
    ensures
        row_sum(a, start, d) == row_sum(b, start, d),
    decreases d,
{
    if d > 0 {
        lemma_row_sum_agree(a, b, start, (d - 1) as nat);
    }
}

proof fn lemma_row_sum_update(a: Seq<u32>, start: int, d: nat, c: int, v: u32)
    requires
        0 <= start,
        start + d <= a.len(),
        start <= c < start + d,
    ensures
        row_sum(a.update(c, v), start, d) == row_sum(a, start, d) - a[c] + v,
    decreases d,
{
    if d > 0 {
        if c < start + d - 1 {
            lemma_row_sum_update(a, start, (d - 1) as nat, c, v);
        } else {
            lemma_row_sum_agree(a.update(c, v), a, start, (d - 1) as nat);
        }
    }
}

proof fn lemma_row_sum_bound(a: Seq<u32>, start: int, d: nat, bl: int, c: int)
    requires
        0 <= start,
        start + d <= a.len(),
        forall|j: int| start <= j < start + d ==> a[j] <= bl,
        start <= c < start + d ==> a[c] < bl,
    ensures
        row_sum(a, start, d) <= d * bl,
        start <= c < start + d ==> row_sum(a, start, d) <= d * bl - 1,
    decreases d,
{
    if d > 0 {
        lemma_row_sum_bound(a, start, (d - 1) as nat, bl, c);
        assert((d - 1) * bl + bl == d * bl) by (nonlinear_arith);
        assert(a[start + d - 1] <= bl);
    } else {
        assert(d * bl == 0) by (nonlinear_arith)
            requires
                d == 0,
        ;
    }
}

/// The base and level tables of the kd-tree walk are consistent: levels
/// within `bl`, and each base a multiple of the span its level leaves open,
/// below `2^bl`.
pub open spec fn cells_ok(levels: Seq<u32>, base: Seq<u32>, bl: int) -> bool {
    &&& levels.len() == base.len()
    &&& forall|c: int| 0 <= c < levels.len() ==> #[trigger] levels[c] <= bl
    &&& forall|c: int| 0 <= c < base.len() ==> (#[trigger] base[c]) < pow2(bl as nat)
    &&& forall|c: int|
        0 <= c < base.len() ==> (#[trigger] base[c]) as int % pow2((bl - levels[c]) as nat) as int == 0
}

/// The pending subtrees are consistent with the tables: rows strictly
/// increase up the stack, each subtree holds points, and each row's level
/// sum, recorded in `sums`, is at least its row index.
pub open spec fn stack_ok(
    st: Seq<Status>,
    sums: Seq<int>,
    levels: Seq<u32>,
    dim: nat,
    depth: nat,
    select_axis: bool,
) -> bool {
    &&& st.len() == sums.len()
    &&& forall|i: int, j: int|
        0 <= i < j < st.len() ==> (#[trigger] st[i]).stack_pos < (#[trigger] st[j]).stack_pos
    &&& forall|i: int|
        0 <= i < st.len() ==> {
            &&& (#[trigger] st[i]).num_remaining_points > 0
            &&& (!select_axis ==> st[i].last_axis < dim)
            &&& st[i].stack_pos < depth
            &&& row_sum(levels, st[i].stack_pos * dim, dim) == sums[i]
            &&& sums[i] >= st[i].stack_pos
        }
}

proof fn lemma_weight_nonneg(st: Seq<Status>, sums: Seq<int>, k: int)
    requires
        st.len() == sums.len(),
        forall|i: int| 0 <= i < sums.len() ==> #[trigger] sums[i] < k,
    ensures
        pending_weight(st, sums, k) >= 0,
    decreases st.len(),
{
    if st.len() > 0 {
        lemma_weight_nonneg(st.drop_last(), sums.drop_last(), k);
        assert(st.last().num_remaining_points * (k - sums.last()) >= 0) by (nonlinear_arith)
            requires
                k - sums.last() > 0,
        ;
    }
}

proof fn lemma_or_below(x: u32, y: u32, k: nat)
    requires
        k <= 32,
        x < pow2(k),
        y < pow2(k),
    ensures
        (x | y) < pow2(k),
{
    if k < 32 {
        let kk = k as u32;
        vstd::bits::lemma_u32_pow2_no_overflow(k);
        vstd::bits::lemma_u32_shl_is_mul(1u32, kk);
        assert((x | y) < (1u32 << kk)) by (bit_vector)
            requires
                kk < 32,
                x < (1u32 << kk),
                y < (1u32 << kk),
        ;
    } else {
        vstd::arithmetic::power2::lemma2_to64();
    }
}

/// `n` copies of the row of `dim` bases at `sp`.
pub open spec fn base_rows(base: Seq<u32>, sp: int, dim: nat, n: nat) -> Seq<u32>
    decreases n,
{
    if n == 0 {
        Seq::empty()
    } else {
        base_rows(base, sp, dim, (n - 1) as nat) + base.subrange(sp, sp + dim)
    }
}

/// Pushes the base row at `sp` `n` times: the points of a subtree whose
/// split axis has no bits left.
fn emit_base(out: &mut Vec<u32>, base: &Vec<u32>, sp: usize, dim: usize, n: u32, bl: Ghost<int>)
    requires
        sp + dim <= base@.len(),
        forall|c: int| 0 <= c < base@.len() ==> (#[trigger] base@[c]) < pow2(bl@ as nat),
        old(out)@.len() + n * dim <= usize::MAX,
    ensures
        final(out)@.len() == old(out)@.len() + n * dim,
        forall|j: int| 0 <= j < old(out)@.len() ==> #[trigger] final(out)@[j] == old(out)@[j],
        forall|j: int|
            old(out)@.len() <= j < final(out)@.len() ==> (#[trigger] final(out)@[j]) < pow2(
                bl@ as nat,
            ),
        final(out)@ == old(out)@ + base_rows(base@, sp as int, dim as nat, n as nat),
{
    let ghost o0 = out@;
    let blen = base.len();
    let mut i: u32 = 0;
    while i < n
        invariant
            i <= n,
            blen == base@.len(),
            sp + dim <= base@.len(),
            forall|c: int| 0 <= c < base@.len() ==> (#[trigger] base@[c]) < pow2(bl@ as nat),
            o0.len() + n * dim <= usize::MAX,
            out@.len() == o0.len() + i * dim,
            forall|j: int| 0 <= j < o0.len() ==> #[trigger] out@[j] == o0[j],
            forall|j: int| o0.len() <= j < out@.len() ==> (#[trigger] out@[j]) < pow2(bl@ as nat),
            out@ == o0 + base_rows(base@, sp as int, dim as nat, i as nat),
        decreases n - i,
    {
        proof {
            assert((i + 1) * dim <= n * dim) by (nonlinear_arith)
                requires
                    i < n,
            ;
            assert((i + 1) * dim == i * dim + dim) by (nonlinear_arith);
        }
        let ghost out1 = out@;
        let mut j: usize = 0;
        while j < dim
            invariant
                j <= dim,
                blen == base@.len(),
                sp + dim <= base@.len(),
                forall|c: int| 0 <= c < base@.len() ==> (#[trigger] base@[c]) < pow2(bl@ as nat),
                out@.len() == o0.len() + i * dim + j,
                o0.len() + (i + 1) * dim <= usize::MAX,
                (i + 1) * dim == i * dim + dim,
                forall|q: int| 0 <= q < o0.len() ==> #[trigger] out@[q] == o0[q],
                forall|q: int|
                    o0.len() <= q < out@.len() ==> (#[trigger] out@[q]) < pow2(bl@ as nat),
                out@ == out1 + base@.subrange(sp as int, sp + j),
            decreases dim - j,
        {
            out.push(base[sp + j]);
            proof {
                assert(out@ =~= out1 + base@.subrange(sp as int, sp + j + 1));
            }
            j = j + 1;
        }
        proof {
            assert(out1 == o0 + base_rows(base@, sp as int, dim as nat, i as nat));
            assert(o0 + base_rows(base@, sp as int, dim as nat, (i + 1) as nat) =~= out1 + base@.subrange(
                sp as int,
                sp + dim,
            ));
        }
        i = i + 1;
    }
}

/// The `k`-th axis from `axis` on, wrapping at `dim`.
pub open spec fn rot(axis: int, k: int, dim: int) -> int {
    if axis + k < dim {
        axis + k
    } else {
        axis + k - dim
    }
}

/// The place of axis `q` in the axis order that starts at `axis`.
pub open spec fn rot_index(axis: int, q: int, dim: int) -> int {
    if q >= axis {
        q - axis
    } else {
        q + dim - axis
    }
}

/// The bits the `k`-th axis of a point takes: those its level leaves open.
pub open spec fn axis_bits(levels: Seq<u32>, sp: int, dim: int, axis: int, bl: int, k: int) -> int {
    bl - levels[sp + rot(axis, k, dim)]
}

/// The bits the first `k` axes of a point take.
pub open spec fn bits_before(levels: Seq<u32>, sp: int, dim: int, axis: int, bl: int, k: int) -> int
    decreases k,
{
    if k <= 0 {
        0
    } else {
        bits_before(levels, sp, dim, axis, bl, k - 1) + axis_bits(levels, sp, dim, axis, bl, k - 1)
    }
}

/// Component `q` of point `i` of a small subtree whose bits start at bit
/// `start` of `words`: the bits its axis takes, over its base.
pub open spec fn emitted_value(
    words: Seq<u32>,
    start: int,
    base: Seq<u32>,
    levels: Seq<u32>,
    sp: int,
    dim: int,
    axis: int,
    bl: int,
    i: int,
    q: int,
) -> u32 {
    let k = rot_index(axis, q, dim);
    let nb = axis_bits(levels, sp, dim, axis, bl, k);
    let pos = start + i * bits_before(levels, sp, dim, axis, bl, dim) + bits_before(
        levels,
        sp,
        dim,
        axis,
        bl,
        k,
    );
    (if nb > 0 {
        next_bits(words, pos, nb) as u32
    } else {
        0u32
    }) | base[sp + q]
}

/// The first `n` points of a small subtree, row after row.
pub open spec fn emitted_rows(
    words: Seq<u32>,
    start: int,
    base: Seq<u32>,
    levels: Seq<u32>,
    sp: int,
    dim: int,
    axis: int,
    bl: int,
    n: nat,
) -> Seq<u32>
    decreases n,
{
    if n == 0 {
        Seq::empty()
    } else {
        emitted_rows(words, start, base, levels, sp, dim, axis, bl, (n - 1) as nat) + Seq::new(
            dim as nat,
            |q: int| emitted_value(words, start, base, levels, sp, dim, axis, bl, n - 1, q),
        )
    }
}

proof fn lemma_bits_before_mono(levels: Seq<u32>, sp: int, dim: int, axis: int, bl: int, j: int, k: int)
    requires
        0 <= j <= k,
        forall|t: int| 0 <= t < k ==> #[trigger] axis_bits(levels, sp, dim, axis, bl, t) >= 0,
    ensures
        0 <= bits_before(levels, sp, dim, axis, bl, j) <= bits_before(levels, sp, dim, axis, bl, k),
    decreases k,
{
    if k > 0 {
        assert(axis_bits(levels, sp, dim, axis, bl, k - 1) >= 0);
        if j < k {
            lemma_bits_before_mono(levels, sp, dim, axis, bl, j, k - 1);
        } else {
            lemma_bits_before_mono(levels, sp, dim, axis, bl, k - 1, k - 1);
        }
    }
}

proof fn lemma_row_below(i2: int, q: int, i: int, dim: int)
    by (nonlinear_arith)
    requires
        0 <= i2 < i,
        0 <= q < dim,
    ensures
        i2 * dim + q < i * dim,
        0 <= i2 * dim + q,
{
}

/// Decodes the `n` points of a small subtree: per point, each axis from
/// `axis` on (wrapping) takes the bits its level leaves open over its base.
fn emit_points(
    out: &mut Vec<u32>,
    rem: &mut DirectBitDecoder,
    base: &Vec<u32>,
    levels: &Vec<u32>,
    sp: usize,
    dim: usize,
    axis: u32,
    n: u32,
    bl: u32,
) -> (r: Result<(), DecodeError>)
    requires
        old(rem).ready(),
        sp + dim <= base@.len(),
        cells_ok(levels@, base@, bl as int),
        axis < dim,
        dim <= u32::MAX,
        bl <= 32,
        old(out)@.len() + n * dim <= usize::MAX,
    ensures
        final(rem).ready(),
        final(rem).words() == old(rem).words(),
        r is Ok ==> final(out)@.len() == old(out)@.len() + n * dim,
        forall|j: int| 0 <= j < old(out)@.len() ==> #[trigger] final(out)@[j] == old(out)@[j],
        forall|j: int|
            old(out)@.len() <= j < final(out)@.len() ==> (#[trigger] final(out)@[j]) < pow2(
                bl as nat,
            ),
        final(out)@.len() <= old(out)@.len() + n * dim,
        ({
            let pb = bits_before(levels@, sp as int, dim as int, axis as int, bl as int, dim as int);
            let c0 = old(rem).consumed();
            if c0 + n * pb <= 32 * old(rem).words().len() {
                &&& r is Ok
                &&& final(rem).consumed() == c0 + n * pb
                &&& final(out)@ == old(out)@ + emitted_rows(
                    old(rem).words(),
                    c0,
                    base@,
                    levels@,
                    sp as int,
                    dim as int,
                    axis as int,
                    bl as int,
                    n as nat,
                )
                &&& forall|i: int, q: int|
                    0 <= i < n && 0 <= q < dim ==> #[trigger] emitted_value(
                        old(rem).words(),
                        c0,
                        base@,
                        levels@,
                        sp as int,
                        dim as int,
                        axis as int,
                        bl as int,
                        i,
                        q,
                    ) == final(out)@[old(out)@.len() + i * dim + q]
            } else {
                r == Err::<(), DecodeError>(DecodeError::MalformedAttribute("direct bit stream exhausted"))
            }
        }),
{
    let ghost o0 = out@;
    let ghost w0 = rem.words();
    let ghost c0 = rem.consumed();
    let ghost lv0 = levels@;
    let ghost pb = bits_before(levels@, sp as int, dim as int, axis as int, bl as int, dim as int);
    proof {
        rem.lemma_consumed_bound();
        assert forall|t: int| 0 <= t < dim implies #[trigger] axis_bits(
            levels@,
            sp as int,
            dim as int,
            axis as int,
            bl as int,
            t,
        ) >= 0 by {
            assert(levels@[sp + rot(axis as int, t, dim as int)] <= bl);
        }
        lemma_bits_before_mono(levels@, sp as int, dim as int, axis as int, bl as int, 0, dim as int);
    }
    let mut axes: Vec<u32> = Vec::new();
    axes.push(axis);
    let mut j: usize = 1;
    while j < dim
        invariant
            1 <= j <= dim,
            dim <= u32::MAX,
            axis < dim,
            axes@.len() == j,
            forall|q: int| 0 <= q < j ==> #[trigger] axes@[q] < dim,
            forall|q: int| 0 <= q < j ==> #[trigger] axes@[q] == rot(axis as int, q, dim as int),
        decreases dim - j,
    {
        let next = increment_mod(axes[j - 1], dim as u32);
        proof {
            let prev = axes@[j - 1];
            if prev + 1 < dim {
                assert(next == prev + 1) by {
                    vstd::arithmetic::div_mod::lemma_small_mod((prev + 1) as nat, dim as nat);
                }
            } else {
                assert(next == 0) by {
                    vstd::arithmetic::div_mod::lemma_mod_self_0(dim as int);
                }
            }
        }
        axes.push(next);
        j = j + 1;
    }
    proof {
        lemma_pow2_pos(bl as nat);
    }
    let blen = base.len();
    let llen = levels.len();
    let mut i: u32 = 0;
    while i < n
        invariant
            i <= n,
            o0 == old(out)@,
            pow2(bl as nat) > 0,
            blen == base@.len(),
            llen == levels@.len(),
            rem.ready(),
            rem.words() == w0,
            w0 == old(rem).words(),
            c0 == old(rem).consumed(),
            rem.consumed() == c0 + i * pb,
            lv0 == levels@,
            pb == bits_before(levels@, sp as int, dim as int, axis as int, bl as int, dim as int),
            0 <= pb,
            forall|t: int|
                0 <= t < dim ==> #[trigger] axis_bits(levels@, sp as int, dim as int, axis as int, bl as int, t)
                    >= 0,
            sp + dim <= base@.len(),
            cells_ok(levels@, base@, bl as int),
            axis < dim,
            bl <= 32,
            axes@.len() == dim,
            forall|q: int| 0 <= q < dim ==> #[trigger] axes@[q] < dim,
            forall|q: int| 0 <= q < dim ==> #[trigger] axes@[q] == rot(axis as int, q, dim as int),
            o0.len() + n * dim <= usize::MAX,
            out@.len() == o0.len() + i * dim,
            forall|q: int| 0 <= q < o0.len() ==> #[trigger] out@[q] == o0[q],
            forall|q: int| o0.len() <= q < out@.len() ==> (#[trigger] out@[q]) < pow2(bl as nat),
            forall|i2: int, q: int|
                0 <= i2 < i && 0 <= q < dim ==> #[trigger] emitted_value(
                    w0,
                    c0,
                    base@,
                    levels@,
                    sp as int,
                    dim as int,
                    axis as int,
                    bl as int,
                    i2,
                    q,
                ) == out@[o0.len() + i2 * dim + q],
            out@ == o0 + emitted_rows(
                w0,
                c0,
                base@,
                levels@,
                sp as int,
                dim as int,
                axis as int,
                bl as int,
                i as nat,
            ),
        decreases n - i,
    {
        proof {
            assert((i + 1) * dim <= n * dim) by (nonlinear_arith)
                requires
                    i < n,
            ;
            assert((i + 1) * dim == i * dim + dim) by (nonlinear_arith);
            assert((i + 1) * pb == i * pb + pb) by (nonlinear_arith);
            assert((i + 1) * pb <= n * pb) by (nonlinear_arith)
                requires
                    i < n,
                    0 <= pb,
            ;
        }
        let mut point: Vec<u32> = Vec::new();
        let mut z: usize = 0;
        while z < dim
            invariant
                z <= dim,
                point@.len() == z,
                forall|q: int| 0 <= q < z ==> (#[trigger] point@[q]) < pow2(bl as nat),
                pow2(bl as nat) > 0,
            decreases dim - z,
        {
            point.push(0);
            z = z + 1;
        }
        let mut k: usize = 0;
        while k < dim
            invariant
                k <= dim,
                i < n,
                o0 == old(out)@,
                blen == base@.len(),
                llen == levels@.len(),
                (i + 1) * dim <= n * dim,
                (i + 1) * dim == i * dim + dim,
                (i + 1) * pb == i * pb + pb,
                (i + 1) * pb <= n * pb,
                rem.ready(),
                rem.words() == w0,
                w0 == old(rem).words(),
                c0 == old(rem).consumed(),
                0 <= pb,
                rem.consumed() == c0 + i * pb + bits_before(
                    levels@,
                    sp as int,
                    dim as int,
                    axis as int,
                    bl as int,
                    k as int,
                ),
                pb == bits_before(levels@, sp as int, dim as int, axis as int, bl as int, dim as int),
                forall|t: int|
                    0 <= t < dim ==> #[trigger] axis_bits(levels@, sp as int, dim as int, axis as int, bl as int, t)
                        >= 0,
                sp + dim <= base@.len(),
                cells_ok(levels@, base@, bl as int),
                axis < dim,
                bl <= 32,
                axes@.len() == dim,
                forall|q: int| 0 <= q < dim ==> #[trigger] axes@[q] < dim,
                forall|q: int| 0 <= q < dim ==> #[trigger] axes@[q] == rot(axis as int, q, dim as int),
                point@.len() == dim,
                forall|q: int| 0 <= q < dim ==> (#[trigger] point@[q]) < pow2(bl as nat),
                forall|q: int|
                    0 <= q < dim && rot_index(axis as int, q, dim as int) < k ==> #[trigger] point@[q]
                        == emitted_value(
                        w0,
                        c0,
                        base@,
                        levels@,
                        sp as int,
                        dim as int,
                        axis as int,
                        bl as int,
                        i as int,
                        q,
                    ),
                out@.len() == o0.len() + i * dim,
                forall|q: int| 0 <= q < o0.len() ==> #[trigger] out@[q] == o0[q],
                forall|q: int| o0.len() <= q < out@.len() ==> (#[trigger] out@[q]) < pow2(bl as nat),
            decreases dim - k,
        {
            let a = axes[k] as usize;
            let lv = levels[sp + a];
            let nbits = bl - lv;
            proof {
                assert(rot_index(axis as int, a as int, dim as int) == k);
                assert(nbits == axis_bits(levels@, sp as int, dim as int, axis as int, bl as int, k as int));
                lemma_bits_before_mono(
                    levels@,
                    sp as int,
                    dim as int,
                    axis as int,
                    bl as int,
                    (k + 1) as int,
                    dim as int,
                );
            }
            let v: u32 = if nbits > 0 {
                match rem.decode_lsb32(nbits) {
                    Ok(v) => v,
                    Err(e) => {
                        return Err(e);
                    },
                }
            } else {
                0
            };
            let b = base[sp + a];
            proof {
                if nbits > 0 {
                    if (nbits as nat) < (bl as nat) {
                        vstd::arithmetic::power2::lemma_pow2_strictly_increases(
                            nbits as nat,
                            bl as nat,
                        );
                    }
                } else {
                    lemma_pow2_pos(bl as nat);
                }
                assert(base@[sp + a] < pow2(bl as nat));
                lemma_or_below(v, b, bl as nat);
            }
            let ghost pt0 = point@;
            point.set(a, v | b);
            proof {
                assert(point@[a as int] == emitted_value(
                    w0,
                    c0,
                    base@,
                    levels@,
                    sp as int,
                    dim as int,
                    axis as int,
                    bl as int,
                    i as int,
                    a as int,
                ));
                assert forall|q: int|
                    0 <= q < dim && rot_index(axis as int, q, dim as int) < k + 1 implies #[trigger] point@[q]
                        == emitted_value(
                        w0,
                        c0,
                        base@,
                        levels@,
                        sp as int,
                        dim as int,
                        axis as int,
                        bl as int,
                        i as int,
                        q,
                    ) by {
                    if q != a {
                        assert(rot(axis as int, rot_index(axis as int, q, dim as int), dim as int) == q);
                        assert(point@[q] == pt0[q]);
                    }
                }
            }
            k = k + 1;
        }
        let ghost out1 = out@;
        let mut q: usize = 0;
        while q < dim
            invariant
                q <= dim,
                point@.len() == dim,
                forall|t: int| 0 <= t < dim ==> (#[trigger] point@[t]) < pow2(bl as nat),
                out@.len() == o0.len() + i * dim + q,
                out1.len() == o0.len() + i * dim,
                o0.len() + (i + 1) * dim <= usize::MAX,
                (i + 1) * dim == i * dim + dim,
                forall|t: int| 0 <= t < out1.len() ==> #[trigger] out@[t] == out1[t],
                forall|t: int| 0 <= t < q ==> #[trigger] out@[o0.len() + i * dim + t] == point@[t],
                out@ == out1 + point@.subrange(0, q as int),
                forall|t: int| 0 <= t < o0.len() ==> #[trigger] out@[t] == o0[t],
                forall|t: int| o0.len() <= t < out@.len() ==> (#[trigger] out@[t]) < pow2(bl as nat),
            decreases dim - q,
        {
            out.push(point[q]);
            proof {
                assert(out@ =~= out1 + point@.subrange(0, q + 1));
            }
            q = q + 1;
        }
        proof {
            assert(point@ =~= Seq::new(
                dim as nat,
                |q2: int| emitted_value(
                    w0,
                    c0,
                    base@,
                    levels@,
                    sp as int,
                    dim as int,
                    axis as int,
                    bl as int,
                    i as int,
                    q2,
                ),
            )) by {
                assert forall|q2: int| 0 <= q2 < dim implies point@[q2] == emitted_value(
                    w0,
                    c0,
                    base@,
                    levels@,
                    sp as int,
                    dim as int,
                    axis as int,
                    bl as int,
                    i as int,
                    q2,
                ) by {
                    assert(rot_index(axis as int, q2, dim as int) < dim);
                }
            }
            assert(point@.subrange(0, dim as int) =~= point@);
            assert forall|i2: int, q2: int|
                0 <= i2 < i + 1 && 0 <= q2 < dim implies #[trigger] emitted_value(
                    w0,
                    c0,
                    base@,
                    levels@,
                    sp as int,
                    dim as int,
                    axis as int,
                    bl as int,
                    i2,
                    q2,
                ) == out@[o0.len() + i2 * dim + q2] by {
                if i2 < i {
                    lemma_row_below(i2, q2, i as int, dim as int);
                    assert(out@[o0.len() + i2 * dim + q2] == out1[o0.len() + i2 * dim + q2]);
                } else {
                    assert(rot_index(axis as int, q2, dim as int) < dim);
                    assert(out@[o0.len() + i * dim + q2] == point@[q2]);
                }
            }
        }
        i = i + 1;
    }
    proof {
        rem.lemma_consumed_bound();
    }
    Ok(())
}

/// Whether `b` is the axis with the fewest levels in the row at `sp`, the
/// first on ties.
pub open spec fn is_least_axis(levels: Seq<u32>, sp: int, dim: int, b: int) -> bool {
    &&& 0 <= b < dim
    &&& forall|a: int| 0 <= a < dim ==> levels[sp + b] <= #[trigger] levels[sp + a]
    &&& forall|a: int| 0 <= a < b ==> #[trigger] levels[sp + a] > levels[sp + b]
}

/// The axis with the fewest levels in the row at `sp`, the first on ties.
pub open spec fn least_axis(levels: Seq<u32>, sp: int, dim: int) -> int {
    choose|b: int| is_least_axis(levels, sp, dim, b)
}

proof fn lemma_least_axis_unique(levels: Seq<u32>, sp: int, dim: int, b: int)
    requires
        is_least_axis(levels, sp, dim, b),
    ensures
        least_axis(levels, sp, dim) == b,
{
    let c = least_axis(levels, sp, dim);
    assert(is_least_axis(levels, sp, dim, c));
    if c < b {
        assert(levels[sp + c] > levels[sp + b]);
    } else if b < c {
        assert(levels[sp + b] > levels[sp + c]);
    }
}

/// The index of the highest set bit of `n`.
pub open spec fn msb_spec(n: u32) -> u32 {
    choose|r: u32| r < 32 && #[trigger] pow2(r as nat) <= n && (r < 31 ==> n < pow2((r + 1) as nat))
}

proof fn lemma_msb_unique(n: u32, r: u32)
    requires
        r < 32,
        pow2(r as nat) <= n,
        r < 31 ==> n < pow2((r + 1) as nat),
    ensures
        msb_spec(n) == r,
{
    let c = msb_spec(n);
    assert(c < 32 && pow2(c as nat) <= n && (c < 31 ==> n < pow2((c + 1) as nat)));
    if c < r {
        if c + 1 < r {
            vstd::arithmetic::power2::lemma_pow2_strictly_increases((c + 1) as nat, r as nat);
        }
    } else if r < c {
        if r + 1 < c {
            vstd::arithmetic::power2::lemma_pow2_strictly_increases((r + 1) as nat, c as nat);
        }
    }
}

/// The axis with the fewest levels in the row at `sp`, the first on ties.
fn least_refined_axis(levels: &Vec<u32>, sp: usize, dim: usize) -> (best: u32)
    requires
        sp + dim <= levels@.len(),
        dim <= u32::MAX,
    ensures
        dim > 0 ==> best < dim,
        dim == 0 ==> best == 0,
        forall|a: int| 0 <= a < dim ==> levels@[sp + best] <= #[trigger] levels@[sp + a],
        forall|a: int| 0 <= a < best ==> #[trigger] levels@[sp + a] > levels@[sp + best],
        dim > 0 ==> best == least_axis(levels@, sp as int, dim as int),
{
    let llen = levels.len();
    let mut best: u32 = 0;
    let mut a: u32 = 1;
    while (a as usize) < dim
        invariant
            llen == levels@.len(),
            1 <= a,
            a as int <= dim || dim == 0,
            dim <= u32::MAX,
            sp + dim <= levels@.len(),
            dim > 0 ==> best < a,
            dim == 0 ==> best == 0,
            forall|c: int| 0 <= c < a && c < dim ==> levels@[sp + best] <= #[trigger] levels@[sp + c],
            forall|c: int| 0 <= c < best ==> #[trigger] levels@[sp + c] > levels@[sp + best],
        decreases dim - a,
    {
        if levels[sp + best as usize] > levels[sp + a as usize] {
            best = a;
        }
        a = a + 1;
    }
    proof {
        if dim > 0 {
            lemma_least_axis_unique(levels@, sp as int, dim as int, best as int);
        }
    }
    best
}

/// The levels after splitting the row at `sp` along `axis`: the axis level
/// grows by one, and the row above becomes a copy of the row.
pub open spec fn split_levels(l: Seq<u32>, sp: int, dim: int, axis: int) -> Seq<u32> {
    let l1 = l.update(sp + axis, (l[sp + axis] + 1) as u32);
    Seq::new(l.len(), |c: int| if sp + dim <= c < sp + dim + dim { l1[c - dim] } else { l1[c] })
}

/// The bases after splitting the row at `sp` along `axis`: the row above
/// becomes a copy of the row whose base on `axis` gains the highest bit the
/// level left open.
pub open spec fn split_base(b: Seq<u32>, l: Seq<u32>, sp: int, dim: int, axis: int, bl: int) -> Seq<u32> {
    Seq::new(
        b.len(),
        |c: int|
            if c == sp + dim + axis {
                (b[sp + axis] + pow2((bl - l[sp + axis] - 1) as nat)) as u32
            } else if sp + dim <= c < sp + dim + dim {
                b[c - dim]
            } else {
                b[c]
            },
    )
}

/// Splits the row at `sp` along `axis`: its level there grows by one, and
/// the row above becomes a copy whose base on `axis` gains the highest bit
/// the level left open.
fn split_rows(base: &mut Vec<u32>, levels: &mut Vec<u32>, sp: usize, dim: usize, axis: usize, bl: u32)
    requires
        cells_ok(old(levels)@, old(base)@, bl as int),
        sp + dim + dim <= old(levels)@.len(),
        axis < dim,
        old(levels)@[sp + axis] < bl,
        bl <= 32,
    ensures
        cells_ok(final(levels)@, final(base)@, bl as int),
        final(levels)@.len() == old(levels)@.len(),
        forall|c: int|
            0 <= c < old(levels)@.len() && !(sp <= c < sp + dim + dim)
                ==> #[trigger] final(levels)@[c] == old(levels)@[c],
        row_sum(final(levels)@, sp as int, dim as nat) == row_sum(old(levels)@, sp as int, dim as nat)
            + 1,
        row_sum(final(levels)@, (sp + dim) as int, dim as nat) == row_sum(
            old(levels)@,
            sp as int,
            dim as nat,
        ) + 1,
        final(levels)@ == split_levels(old(levels)@, sp as int, dim as int, axis as int),
        final(base)@ == split_base(old(base)@, old(levels)@, sp as int, dim as int, axis as int, bl as int),
{
    let ghost l0 = levels@;
    let ghost b0 = base@;
    let llen = levels.len();
    let blen = base.len();
    let level = levels[sp + axis];
    let nrb = bl - level;
    let modifier: u32 = 1u32 << (nrb - 1);
    proof {
        vstd::bits::lemma_u32_pow2_no_overflow((nrb - 1) as nat);
        vstd::bits::lemma_u32_shl_is_mul(1u32, (nrb - 1) as u32);
    }
    let mut j: usize = 0;
    while j < dim
        invariant
            j <= dim,
            blen == b0.len(),
            sp + dim + dim <= b0.len(),
            base@.len() == b0.len(),
            forall|c: int| 0 <= c < b0.len() && !(sp + dim <= c < sp + dim + j) ==> #[trigger] base@[c] == b0[c],
            forall|c: int| sp + dim <= c < sp + dim + j ==> #[trigger] base@[c] == b0[c - dim],
        decreases dim - j,
    {
        let v = base[sp + j];
        base.set(sp + dim + j, v);
        j = j + 1;
    }
    let ghost b1 = base@;
    let old_b = base[sp + dim + axis];
    proof {
        let L = level as int;
        let B = bl as int;
        let e = (B - L - 1) as nat;
        lemma_pow2_adds(e, 1);
        vstd::arithmetic::power2::lemma2_to64();
        lemma_pow2_adds((B - L) as nat, L as nat);
        lemma_pow2_pos(e);
        lemma_pow2_pos(L as nat);
        lemma_pow2_pos((B - L) as nat);
        assert(old_b == b0[sp + axis]);
        let q = old_b as int / pow2((B - L) as nat) as int;
        vstd::arithmetic::div_mod::lemma_fundamental_div_mod(old_b as int, pow2((B - L) as nat) as int);
        assert(old_b as int == pow2((B - L) as nat) * q);
        assert(q < pow2(L as nat)) by (nonlinear_arith)
            requires
                old_b as int == pow2((B - L) as nat) * q,
                old_b < pow2(B as nat),
                pow2(B as nat) == pow2((B - L) as nat) * pow2(L as nat),
                pow2((B - L) as nat) > 0,
        ;
        let P = pow2((B - L) as nat) as int;
        assert(q <= pow2(L as nat) - 1);
        assert(P * q <= P * (pow2(L as nat) - 1)) by (nonlinear_arith)
            requires
                q <= pow2(L as nat) - 1,
                P > 0,
        ;
        assert(P * (pow2(L as nat) - 1) == P * pow2(L as nat) - P) by (nonlinear_arith);
        assert(old_b + modifier < pow2(B as nat));
        assert((old_b + modifier) as int % pow2(e) as int == 0) by (nonlinear_arith)
            requires
                old_b as int == pow2((B - L) as nat) * q,
                modifier == pow2(e),
                pow2((B - L) as nat) == pow2(e) * 2,
                pow2(e) > 0,
        {
            assert((old_b + modifier) as int == pow2(e) as int * (2 * q + 1));
            vstd::arithmetic::div_mod::lemma_mod_multiples_basic(2 * q + 1, pow2(e) as int);
        }
        assert(b0[sp + axis] as int % pow2(e) as int == 0) by (nonlinear_arith)
            requires
                old_b as int == pow2((B - L) as nat) * q,
                b0[sp + axis] == old_b,
                pow2((B - L) as nat) == pow2(e) * 2,
                pow2(e) > 0,
        {
            assert(old_b as int == pow2(e) as int * (2 * q));
            vstd::arithmetic::div_mod::lemma_mod_multiples_basic(2 * q, pow2(e) as int);
        }
    }
    base.set(sp + dim + axis, old_b + modifier);
    levels.set(sp + axis, level + 1);
    let mut k: usize = 0;
    while k < dim
        invariant
            k <= dim,
            llen == l0.len(),
            sp + dim + dim <= l0.len(),
            levels@.len() == l0.len(),
            axis < dim,
            forall|c: int|
                0 <= c < l0.len() && c != sp + axis && !(sp + dim <= c < sp + dim + k) ==> #[trigger] levels@[c] == l0[c],
            levels@[sp + axis] == l0[sp + axis] + 1,
            forall|c: int| sp + dim <= c < sp + dim + k ==> #[trigger] levels@[c] == if c - dim == sp + axis {
                (l0[sp + axis] + 1) as u32
            } else {
                l0[c - dim]
            },
        decreases dim - k,
    {
        let v = levels[sp + k];
        levels.set(sp + dim + k, v);
        k = k + 1;
    }
    proof {
        let l1 = l0.update(sp + axis, (level + 1) as u32);
        assert(levels@ =~= split_levels(l0, sp as int, dim as int, axis as int));
        assert(base@ =~= split_base(b0, l0, sp as int, dim as int, axis as int, bl as int));
        assert forall|c: int| sp <= c < sp + dim implies #[trigger] levels@[c] == l1[c] by {}
        lemma_row_sum_agree(levels@, l1, sp as int, dim as nat);
        lemma_row_sum_update(l0, sp as int, dim as nat, (sp + axis) as int, (level + 1) as u32);
        assert forall|c: int| sp + dim <= c < sp + dim + dim implies #[trigger] levels@[c] == l1[c - dim] by {}
        lemma_row_sum_shift(levels@, l1, sp as int, dim as int, dim as nat);
        let B = bl as int;
        assert forall|c: int| 0 <= c < levels@.len() implies #[trigger] levels@[c] <= B by {
            if sp + dim <= c < sp + dim + dim {
                assert(levels@[c] == l1[c - dim]);
            }
        }
        assert forall|c: int| 0 <= c < base@.len() implies (#[trigger] base@[c]) < pow2(B as nat) by {
            if c != sp + dim + axis && sp + dim <= c < sp + dim + dim {
                assert(base@[c] == b0[c - dim]);
            }
        }
        assert forall|c: int|
            0 <= c < base@.len() implies (#[trigger] base@[c]) as int % pow2((B - levels@[c]) as nat) as int == 0 by {
            if c == sp + axis {
            } else if c == sp + dim + axis {
            } else if sp + dim <= c < sp + dim + dim {
                assert(base@[c] == b0[c - dim]);
                assert(levels@[c] == l0[c - dim]);
            } else {
                assert(base@[c] == b0[c]);
                assert(levels@[c] == l0[c]);
            }
        }
    }
}

proof fn lemma_row_sum_shift(a: Seq<u32>, b: Seq<u32>, start: int, off: int, d: nat)
    requires
        0 <= start,
        0 <= off,
        start + off + d <= a.len(),
        start + d <= b.len(),
        forall|j: int| start + off <= j < start + off + d ==> #[trigger] a[j] == b[j - off],
    ensures
        row_sum(a, start + off, d) == row_sum(b, start, d),
    decreases d,
{
    if d > 0 {
        lemma_row_sum_shift(a, b, start, off, (d - 1) as nat);
        assert(a[start + off + d - 1] == b[start + d - 1]);
    }
}

proof fn lemma_row_sum_nonneg(a: Seq<u32>, start: int, d: nat)
    ensures
        row_sum(a, start, d) >= 0,
    decreases d,
{
    if d > 0 {
        lemma_row_sum_nonneg(a, start, (d - 1) as nat);
    }
}

proof fn lemma_pending_nonneg(st: Seq<Status>)
    ensures
        pending_points(st) >= 0,
    decreases st.len(),
{
    if st.len() > 0 {
        lemma_pending_nonneg(st.drop_last());
    }
}

proof fn lemma_stack_push(
    st: Seq<Status>,
    sums: Seq<int>,
    levels: Seq<u32>,
    dim: nat,
    depth: nat,
    select_axis: bool,
    x: Status,
    y: int,
)
    requires
        stack_ok(st, sums, levels, dim, depth, select_axis),
        forall|i: int| 0 <= i < st.len() ==> (#[trigger] st[i]).stack_pos < x.stack_pos,
        x.num_remaining_points > 0,
        !select_axis ==> x.last_axis < dim,
        x.stack_pos < depth,
        row_sum(levels, x.stack_pos * dim, dim) == y,
        y >= x.stack_pos,
    ensures
        stack_ok(st.push(x), sums.push(y), levels, dim, depth, select_axis),
        pending_points(st.push(x)) == pending_points(st) + x.num_remaining_points,
        forall|k: int|
            pending_weight(st.push(x), sums.push(y), k) == pending_weight(st, sums, k)
                + x.num_remaining_points * (k - y),
{
    let st2 = st.push(x);
    assert(st2.drop_last() =~= st);
    assert(sums.push(y).drop_last() =~= sums);
    assert forall|i: int, j: int|
        0 <= i < j < st2.len() implies (#[trigger] st2[i]).stack_pos < (#[trigger] st2[j]).stack_pos by {
        if j == st.len() {
            assert(st2[i] == st[i]);
        } else {
            assert(st2[i] == st[i] && st2[j] == st[j]);
        }
    }
}

proof fn lemma_stack_rows_kept(
    st: Seq<Status>,
    sums: Seq<int>,
    l0: Seq<u32>,
    l1: Seq<u32>,
    dim: nat,
    depth: nat,
    select_axis: bool,
    sp: int,
)
    requires
        stack_ok(st, sums, l0, dim, depth, select_axis),
        l0.len() == l1.len(),
        l0.len() == depth * dim,
        forall|i: int| 0 <= i < st.len() ==> (#[trigger] st[i]).stack_pos * dim + dim <= sp,
        forall|c: int| 0 <= c < l0.len() && c < sp ==> #[trigger] l1[c] == l0[c],
    ensures
        stack_ok(st, sums, l1, dim, depth, select_axis),
{
    assert forall|i: int| 0 <= i < st.len() implies row_sum(
        l1,
        (#[trigger] st[i]).stack_pos * dim,
        dim,
    ) == sums[i] by {
        let p = st[i].stack_pos;
        assert(p * dim + dim <= sp);
        assert(p * dim >= 0) by (nonlinear_arith)
            requires
                p >= 0,
        ;
        assert(p * dim + dim <= depth * dim) by (nonlinear_arith)
            requires
                p < depth,
        ;
        lemma_row_sum_agree(l1, l0, p * dim, dim);
    }
}

/// The state of a kd-tree walk: the pending subtrees, the base and level
/// tables, the points so far, and the states of its four bit streams (the
/// number coder, and the direct streams of the remaining bits, the split
/// axes and the half choices).
pub struct KdWalk<S> {
    pub stack: Seq<Status>,
    pub base: Seq<u32>,
    pub levels: Seq<u32>,
    pub out: Seq<u32>,
    pub num: S,
    pub rem: (Seq<u32>, int),
    pub axis: (Seq<u32>, int),
    pub half: (Seq<u32>, int),
}

/// The split axis a subtree takes, with the axis stream after it: the one
/// after its parent's; with axis selection, the least refined one for fewer
/// than 64 points, else four bits of the axis stream.
pub open spec fn kd_axis(
    status: Status,
    levels: Seq<u32>,
    sp: int,
    dim: int,
    select_axis: bool,
    ax: (Seq<u32>, int),
) -> Result<(int, (Seq<u32>, int)), DecodeError> {
    if !select_axis {
        Ok(((status.last_axis + 1) % dim, ax))
    } else if status.num_remaining_points < 64 {
        Ok((if dim > 0 { least_axis(levels, sp, dim) } else { 0 }, ax))
    } else {
        match direct_lsb_step(ax, 4) {
            Ok((v, a2)) => Ok((v as int, a2)),
            Err(e) => Err(e),
        }
    }
}

/// The two halves a subtree of `n` points splits into, given the deviation
/// `number` and whether the half stream swaps them.
pub open spec fn kd_halves(n: int, number: int, half: (Seq<u32>, int)) -> (int, int, (Seq<u32>, int)) {
    let fh0 = n / 2 - number;
    let sh0 = n - fh0;
    if fh0 != sh0 {
        let (b, h2) = direct_bit_step(half);
        if !b {
            (sh0, fh0, h2)
        } else {
            (fh0, sh0, h2)
        }
    } else {
        (fh0, sh0, half)
    }
}

/// The stack after pushing the non-empty halves of a split at row
/// `stack_pos` along `axis`: the first half stays at the row, the second
/// takes the row above.
pub open spec fn kd_push(stack: Seq<Status>, fh: int, sh: int, axis: int, stack_pos: int) -> Seq<Status> {
    let st1 = if fh > 0 {
        stack.push(Status { num_remaining_points: fh as u32, last_axis: axis as u32, stack_pos: stack_pos as usize })
    } else {
        stack
    };
    if sh > 0 {
        st1.push(Status { num_remaining_points: sh as u32, last_axis: axis as u32, stack_pos: (stack_pos + 1) as usize })
    } else {
        st1
    }
}

/// The axis after `a` among `dim` axes, in turn: the next one, wrapping
/// from the last back to the first.
pub open spec fn next_axis(a: int, dim: int) -> int {
    if a + 1 >= dim {
        0
    } else {
        a + 1
    }
}

/// Without axis selection a subtree splits along the axis after the one its
/// parent split along, and the axis stream is not read.
pub proof fn lemma_kd_axis_takes_turns(
    status: Status,
    levels: Seq<u32>,
    sp: int,
    dim: int,
    ax: (Seq<u32>, int),
)
    requires
        1 <= dim,
        status.last_axis < dim,
    ensures
        kd_axis(status, levels, sp, dim, false, ax) == Ok::<(int, (Seq<u32>, int)), DecodeError>(
            (next_axis(status.last_axis as int, dim), ax),
        ),
{
    let a = status.last_axis as int;
    if a + 1 >= dim {
        vstd::arithmetic::div_mod::lemma_mod_self_0(dim);
    } else {
        vstd::arithmetic::div_mod::lemma_small_mod((a + 1) as nat, dim as nat);
    }
}

/// Without axis selection, where a step splits its top subtree, both halves
/// it pushes record the axis after their parent's, so their own splits take
/// the next axis in turn; the rest of the stack is kept.
pub proof fn lemma_kd_split_halves_take_next_axis<'a, Num: BitDecoder<'a>>(
    w: KdWalk<Num::BitState>,
    dim: int,
    bl: int,
    num_points: int,
    total: int,
)
    requires
        1 <= dim <= u32::MAX,
        w.stack.len() > 0,
        w.stack.last().last_axis < dim,
        kd_step::<Num>(w, dim, bl, num_points, total, false) is Ok,
        kd_step::<Num>(w, dim, bl, num_points, total, false)->Ok_0.stack.len() >= w.stack.len(),
    ensures
        ({
            let w2 = kd_step::<Num>(w, dim, bl, num_points, total, false)->Ok_0;
            &&& w2.stack.subrange(0, w.stack.len() - 1) == w.stack.drop_last()
            &&& forall|j: int|
                w.stack.len() - 1 <= j < w2.stack.len() ==> (#[trigger] w2.stack[j]).last_axis == next_axis(
                    w.stack.last().last_axis as int,
                    dim,
                )
        }),
{
    reveal(kd_step);
    let status = w.stack.last();
    let sp = status.stack_pos as int * dim;
    lemma_kd_axis_takes_turns(status, w.levels, sp, dim, w.axis);
    let w2 = kd_step::<Num>(w, dim, bl, num_points, total, false)->Ok_0;
    assert(w2.stack.subrange(0, w.stack.len() - 1) =~= w.stack.drop_last());
}

/// One step of the kd-tree walk on its top subtree: a subtree whose axis
/// has no bits left repeats its base; one of at most two points reads its
/// points from the remaining-bits stream; a larger one splits in two.
#[verifier::opaque]
pub open spec fn kd_step<'a, Num: BitDecoder<'a>>(
    w: KdWalk<Num::BitState>,
    dim: int,
    bl: int,
    num_points: int,
    total: int,
    select_axis: bool,
) -> Result<KdWalk<Num::BitState>, DecodeError> {
    let status = w.stack.last();
    let stack = w.stack.drop_last();
    let n = status.num_remaining_points as int;
    let stack_pos = status.stack_pos as int;
    let sp = stack_pos * dim;
    if n > num_points {
        Err(DecodeError::MalformedAttribute("kd-tree split count overflow"))
    } else {
        match kd_axis(status, w.levels, sp, dim, select_axis, w.axis) {
            Err(e) => Err(e),
            Ok((axis, a2)) => if axis >= dim {
                Err(DecodeError::MalformedAttribute("kd-tree split axis out of range"))
            } else if bl - w.levels[sp + axis] == 0 {
                Ok(KdWalk { stack, out: w.out + base_rows(w.base, sp, dim as nat, n as nat), axis: a2, ..w })
            } else if n <= 2 {
                let pb = bits_before(w.levels, sp, dim, axis, bl, dim);
                if w.rem.1 + n * pb <= 32 * w.rem.0.len() {
                    Ok(
                        KdWalk {
                            stack,
                            out: w.out + emitted_rows(w.rem.0, w.rem.1, w.base, w.levels, sp, dim, axis, bl, n as nat),
                            rem: (w.rem.0, w.rem.1 + n * pb),
                            axis: a2,
                            ..w
                        },
                    )
                } else {
                    Err(DecodeError::MalformedAttribute("direct bit stream exhausted"))
                }
            } else if w.out.len() > total {
                Err(DecodeError::MalformedAttribute("kd-tree decoded too many points"))
            } else {
                let incoming = msb_spec(n as u32);
                let numr: Result<(int, Num::BitState), DecodeError> = if incoming > 0 {
                    match Num::lsb_step(w.num, incoming) {
                        Ok((v, s2)) => Ok((v as int, s2)),
                        Err(e) => Err(e),
                    }
                } else {
                    Ok((0, w.num))
                };
                match numr {
                    Err(e) => Err(e),
                    Ok((number, num2)) => if n / 2 < number {
                        Err(DecodeError::MalformedAttribute("kd-tree split deviation overflow"))
                    } else {
                        let (fh, sh, h2) = kd_halves(n, number, w.half);
                        Ok(
                            KdWalk {
                                stack: kd_push(stack, fh, sh, axis, stack_pos),
                                base: split_base(w.base, w.levels, sp, dim, axis, bl),
                                levels: split_levels(w.levels, sp, dim, axis),
                                out: w.out,
                                num: num2,
                                rem: w.rem,
                                axis: a2,
                                half: h2,
                            },
                        )
                    },
                }
            },
        }
    }
}

/// The kd-tree walk from `w` for at most `fuel` steps: the points once no
/// subtree is left (which must be all `total` coordinates), or the first
/// error.
#[verifier::opaque]
pub open spec fn kd_run<'a, Num: BitDecoder<'a>>(
    w: KdWalk<Num::BitState>,
    dim: int,
    bl: int,
    num_points: int,
    total: int,
    select_axis: bool,
    fuel: nat,
) -> Result<Seq<u32>, DecodeError>
    decreases fuel,
{
    if w.stack.len() == 0 {
        if w.out.len() != total {
            Err(DecodeError::MalformedAttribute("kd-tree stream decoded a wrong number of points"))
        } else {
            Ok(w.out)
        }
    } else if fuel == 0 {
        Err(DecodeError::Unimplemented)
    } else {
        match kd_step::<Num>(w, dim, bl, num_points, total, select_axis) {
            Ok(w2) => kd_run::<Num>(w2, dim, bl, num_points, total, select_axis, (fuel - 1) as nat),
            Err(e) => Err(e),
        }
    }
}

/// The walk a kd-tree block starts with, its four bit streams read at the
/// start of `s`: one subtree of all `num_points` points at row 0, zeroed
/// tables of `(32 * dim + 1) * dim` cells; or the error starting a stream.
pub open spec fn kd_start<'a, Num: BitDecoder<'a>>(s: Seq<u8>, dim: int, num_points: int) -> Result<
    KdWalk<Num::BitState>,
    DecodeError,
> {
    match Num::start_parse(s) {
        Err(e) => Err(e),
        Ok((nst, k1)) => match direct_parse(s.skip(k1 as int)) {
            Err(e) => Err(e),
            Ok((rw, k2)) => match direct_parse(s.skip((k1 + k2) as int)) {
                Err(e) => Err(e),
                Ok((aw, k3)) => match direct_parse(s.skip((k1 + k2 + k3) as int)) {
                    Err(e) => Err(e),
                    Ok((hw, k4)) => {
                        let rows = ((32 * dim + 1) * dim) as nat;
                        Ok(
                            KdWalk {
                                stack: seq![Status { num_remaining_points: num_points as u32, last_axis: 0, stack_pos: 0 }],
                                base: Seq::new(rows, |i: int| 0u32),
                                levels: Seq::new(rows, |i: int| 0u32),
                                out: Seq::empty(),
                                num: nst,
                                rem: (rw, 0),
                                axis: (aw, 0),
                                half: (hw, 0),
                            },
                        )
                    },
                },
            },
        },
    }
}

/// The walk state a running decoder holds.
pub open spec fn kd_view<'a, Num: BitDecoder<'a>>(
    stack: Seq<Status>,
    base: Seq<u32>,
    levels: Seq<u32>,
    out: Seq<u32>,
    num: Num,
    rem: DirectBitDecoder,
    axis: DirectBitDecoder,
    half: DirectBitDecoder,
) -> KdWalk<Num::BitState> {
    KdWalk {
        stack,
        base,
        levels,
        out,
        num: num.bit_state(),
        rem: (rem.words(), rem.consumed()),
        axis: (axis.words(), axis.consumed()),
        half: (half.words(), half.consumed()),
    }
}

/// The bit length named by a kd-tree header at the start of `s`.
pub open spec fn kd_bit_length(s: Seq<u8>) -> int {
    le32(s[0], s[1], s[2], s[3])
}

/// The point count named by a kd-tree header at the start of `s`.
pub open spec fn kd_num_points(s: Seq<u8>) -> int {
    le32(s[4], s[5], s[6], s[7])
}

/// What the kd-tree point block at the start of `s` decodes to: the
/// header's errors, exactly; on success, `expected_points` points of
/// `dimension` coordinates, each below `2^bit_length`.
pub open spec fn kd_outcome(
    s: Seq<u8>,
    dimension: usize,
    expected_points: usize,
    r: Result<Vec<u32>, DecodeError>,
) -> bool {
    if s.len() < 4 {
        r == Err::<Vec<u32>, DecodeError>(DecodeError::Reader(ReaderErr::NotEnoughData))
    } else if kd_bit_length(s) > 32 {
        r == Err::<Vec<u32>, DecodeError>(
            DecodeError::MalformedAttribute("kd-tree bit length exceeds 32"),
        )
    } else if s.len() < 8 {
        r == Err::<Vec<u32>, DecodeError>(DecodeError::Reader(ReaderErr::NotEnoughData))
    } else if kd_num_points(s) != expected_points {
        r == Err::<Vec<u32>, DecodeError>(
            DecodeError::MalformedAttribute(
                "kd-tree point count disagrees with the geometry section",
            ),
        )
    } else if expected_points == 0 {
        r matches Ok(v) && v@.len() == 0
    } else {
        r matches Ok(out) ==> {
            &&& out@.len() == expected_points * dimension
            &&& forall|i: int|
                0 <= i < out@.len() ==> (#[trigger] out@[i]) < pow2(kd_bit_length(s) as nat)
        }
    }
}

/// The bytes the four bit streams of a kd-tree block span at the start of
/// `s`, once they all start.
pub open spec fn kd_streams_len<'a, Num: BitDecoder<'a>>(s: Seq<u8>) -> nat {
    match Num::start_parse(s) {
        Err(_) => 0,
        Ok((_, k1)) => match direct_parse(s.skip(k1 as int)) {
            Err(_) => 0,
            Ok((_, k2)) => match direct_parse(s.skip((k1 + k2) as int)) {
                Err(_) => 0,
                Ok((_, k3)) => match direct_parse(s.skip((k1 + k2 + k3) as int)) {
                    Err(_) => 0,
                    Ok((_, k4)) => k1 + k2 + k3 + k4,
                },
            },
        },
    }
}

/// The kd-tree block at the start of `s`, with `Num` decoding the
/// coordinate bits: the `expected_points * dimension` coordinates and the
/// bytes the block spans, or the first error (the header's, a stream's or
/// the walk's).
pub open spec fn kd_decode<'a, Num: BitDecoder<'a>>(
    s: Seq<u8>,
    dimension: usize,
    expected_points: usize,
    select_axis: bool,
) -> Result<(Seq<u32>, nat), DecodeError> {
    if s.len() < 4 {
        Err(DecodeError::Reader(ReaderErr::NotEnoughData))
    } else if kd_bit_length(s) > 32 {
        Err(DecodeError::MalformedAttribute("kd-tree bit length exceeds 32"))
    } else if s.len() < 8 {
        Err(DecodeError::Reader(ReaderErr::NotEnoughData))
    } else if kd_num_points(s) != expected_points {
        Err(DecodeError::MalformedAttribute("kd-tree point count disagrees with the geometry section"))
    } else if expected_points == 0 {
        Ok((Seq::empty(), 8))
    } else {
        match kd_start::<Num>(s.skip(8), dimension as int, expected_points as int) {
            Err(e) => Err(e),
            Ok(w0) => match kd_run::<Num>(
                w0,
                dimension as int,
                kd_bit_length(s),
                expected_points as int,
                expected_points * dimension,
                select_axis,
                (expected_points * (32 * dimension + 1) + 1) as nat,
            ) {
                Ok(v) => Ok((v, 8 + kd_streams_len::<Num>(s.skip(8)))),
                Err(e) => Err(e),
            },
        }
    }
}

/// The allocation error a kd-tree block of `expected_points` points of
/// `dimension` coordinates meets, if any: the point array when its length
/// overflows or the allocator refused it (`points_reserved` false), then the
/// base and level tables of `(32 * dimension + 1) * dimension` words each, in
/// the same way (`tables_reserved`).
pub open spec fn kd_alloc_error(
    dimension: usize,
    expected_points: usize,
    points_reserved: bool,
    tables_reserved: bool,
) -> Option<DecodeError> {
    if expected_points * dimension > usize::MAX || !points_reserved {
        Some(DecodeError::AllocationTooLarge("point array"))
    } else if (32 * dimension + 1) * dimension > usize::MAX || !tables_reserved {
        Some(DecodeError::AllocationTooLarge("kd-tree stack"))
    } else {
        None
    }
}

/// The kd-tree block at the start of `s` as [`kd_decode`] describes it,
/// once the allocator's answers are known: after the streams start, the
/// allocation error [`kd_alloc_error`] names, if any, comes before the walk.
pub open spec fn kd_decode_reserved<'a, Num: BitDecoder<'a>>(
    s: Seq<u8>,
    dimension: usize,
    expected_points: usize,
    select_axis: bool,
    points_reserved: bool,
    tables_reserved: bool,
) -> Result<(Seq<u32>, nat), DecodeError> {
    if s.len() >= 8 && kd_bit_length(s) <= 32 && kd_num_points(s) == expected_points && expected_points > 0
        && kd_start::<Num>(s.skip(8), dimension as int, expected_points as int) is Ok {
        match kd_alloc_error(dimension, expected_points, points_reserved, tables_reserved) {
            Some(e) => Err(e),
            None => kd_decode::<Num>(s, dimension, expected_points, select_axis),
        }
    } else {
        kd_decode::<Num>(s, dimension, expected_points, select_axis)
    }
}

/// Whether `r` is what reading the kd-tree block `kd_decode` describes gave,
/// with `s` read and `rest` left; only an allocation the machine refuses
/// may stand in place of the decoded points.
pub open spec fn kd_read<'a, Num: BitDecoder<'a>>(
    s: Seq<u8>,
    dimension: usize,
    expected_points: usize,
    select_axis: bool,
    r: Result<Vec<u32>, DecodeError>,
    rest: Seq<u8>,
) -> bool {
    match kd_decode::<Num>(s, dimension, expected_points, select_axis) {
        Err(e) => r == Err::<Vec<u32>, DecodeError>(e) || (expected_points > 0 && r matches Err(
            DecodeError::AllocationTooLarge(_),
        )),
        Ok((v, n)) => (r matches Ok(o) && o@ == v && n <= s.len() && rest == s.skip(n as int)) || (
        expected_points > 0 && r matches Err(DecodeError::AllocationTooLarge(_))),
    }
}

/// The kd-tree block at the start of `s`, with the bit coder that
/// `level` selects (see [`decode_points`]).
pub open spec fn kd_points_decode(s: Seq<u8>, dimension: usize, expected_points: usize, level: u8) -> Result<
    (Seq<u32>, nat),
    DecodeError,
> {
    if level <= 1 {
        kd_decode::<DirectBitDecoder>(s, dimension, expected_points, false)
    } else if level <= 3 {
        kd_decode::<RansBitDecoder<'static>>(s, dimension, expected_points, false)
    } else if level <= 5 {
        kd_decode::<FoldedBitDecoder<'static>>(s, dimension, expected_points, false)
    } else if level == 6 {
        kd_decode::<FoldedBitDecoder<'static>>(s, dimension, expected_points, true)
    } else {
        Err(DecodeError::MalformedAttribute("unsupported kd-tree compression level"))
    }
}

/// Decodes the kd-tree point block with the bit coder that
/// `compression_level` selects: direct bits for levels 0 and 1, rabs for 2
/// and 3, folded rabs for 4 and 5, and folded rabs with axis selection for
/// 6; other levels are refused.
pub fn decode_points<'a>(
    reader: &mut Reader<'a>,
    dimension: usize,
    expected_points: usize,
    compression_level: u8,
) -> (r: Result<Vec<u32>, DecodeError>)
    requires
        dimension > 0 || compression_level >= 6,
    ensures
        compression_level > 6 ==> r == Err::<Vec<u32>, DecodeError>(
            DecodeError::MalformedAttribute("unsupported kd-tree compression level"),
        ),
        compression_level <= 6 ==> kd_outcome(old(reader).rest(), dimension, expected_points, r),
        match kd_points_decode(old(reader).rest(), dimension, expected_points, compression_level) {
            Err(e) => r == Err::<Vec<u32>, DecodeError>(e) || (compression_level <= 6 && expected_points > 0
                && r matches Err(DecodeError::AllocationTooLarge(_))),
            Ok((v, n)) => (r matches Ok(o) && o@ == v && n <= old(reader).rest().len() && final(reader).rest()
                == old(reader).rest().skip(n as int)) || (expected_points > 0 && r matches Err(
                DecodeError::AllocationTooLarge(_),
            )),
        },
{
    match compression_level {
        0 | 1 => decode_typed::<DirectBitDecoder>(reader, dimension, expected_points, false),
        2 | 3 => decode_typed::<RansBitDecoder>(reader, dimension, expected_points, false),
        4 | 5 => decode_typed::<FoldedBitDecoder>(reader, dimension, expected_points, false),
        6 => decode_typed::<FoldedBitDecoder>(reader, dimension, expected_points, true),
        _ => Err(DecodeError::MalformedAttribute("unsupported kd-tree compression level")),
    }
}

/// Decodes the kd-tree point block into a flat `num_points * dimension`
/// array, asking the allocator for the point array and the two tables
/// first; [`decode_kd_reserved`] does the rest with its answers.
pub fn decode_typed<'a, Num: BitDecoder<'a>>(
    reader: &mut Reader<'a>,
    dimension: usize,
    expected_points: usize,
    select_axis: bool,
) -> (r: Result<Vec<u32>, DecodeError>)
    requires
        dimension > 0 || select_axis,
    ensures
        kd_outcome(old(reader).rest(), dimension, expected_points, r),
        kd_read::<Num>(old(reader).rest(), dimension, expected_points, select_axis, r, final(reader).rest()),
        exists|points_reserved: bool, tables_reserved: bool|
            match #[trigger] kd_decode_reserved::<Num>(
                old(reader).rest(),
                dimension,
                expected_points,
                select_axis,
                points_reserved,
                tables_reserved,
            ) {
                Err(e) => r == Err::<Vec<u32>, DecodeError>(e),
                Ok((v, n)) => (r matches Ok(o) && o@ == v && n <= old(reader).rest().len() && final(reader).rest()
                    == old(reader).rest().skip(n as int)),
            },
{
    let points_reserved = match expected_points.checked_mul(dimension) {
        Some(total) => try_reserve_words(total),
        None => false,
    };
    let tables_reserved = match dimension.checked_mul(32) {
        Some(d32) => match d32.checked_add(1) {
            Some(depth) => match depth.checked_mul(dimension) {
                Some(rows) => try_reserve_words(rows),
                None => false,
            },
            None => false,
        },
        None => false,
    };
    let r = decode_kd_reserved::<Num>(reader, dimension, expected_points, select_axis, points_reserved, tables_reserved);
    proof {
        let s = old(reader).rest();
        let dr = kd_decode_reserved::<Num>(s, dimension, expected_points, select_axis, points_reserved, tables_reserved);
        assert(match dr {
            Err(e) => r == Err::<Vec<u32>, DecodeError>(e),
            Ok((v, n)) => (r matches Ok(o) && o@ == v && n <= s.len() && final(reader).rest() == s.skip(n as int)),
        });
    }
    r
}

/// Decodes the kd-tree point block into a flat `num_points * dimension`
/// array, given whether the allocator could hold the point array
/// (`points_reserved`) and each of the base and level tables
/// (`tables_reserved`): the header (bit length, point count), the four bit
/// streams, then the walk that splits each subtree's points along one axis
/// at a time.
#[verifier::rlimit(100)]
#[verifier::spinoff_prover]
pub fn decode_kd_reserved<'a, Num: BitDecoder<'a>>(
    reader: &mut Reader<'a>,
    dimension: usize,
    expected_points: usize,
    select_axis: bool,
    points_reserved: bool,
    tables_reserved: bool,
) -> (r: Result<Vec<u32>, DecodeError>)
    requires
        dimension > 0 || select_axis,
    ensures
        kd_outcome(old(reader).rest(), dimension, expected_points, r),
        match kd_decode_reserved::<Num>(
            old(reader).rest(),
            dimension,
            expected_points,
            select_axis,
            points_reserved,
            tables_reserved,
        ) {
            Err(e) => r == Err::<Vec<u32>, DecodeError>(e),
            Ok((v, n)) => (r matches Ok(o) && o@ == v && n <= old(reader).rest().len() && final(reader).rest()
                == old(reader).rest().skip(n as int)),
        },
{
    let ghost s = reader.rest();
    let bit_length = match reader.read_u32() {
        Ok(v) => v,
        Err(e) => return Err(DecodeError::Reader(e)),
    };
    if bit_length > 32 {
        return Err(DecodeError::MalformedAttribute("kd-tree bit length exceeds 32"));
    }
    let ghost s1 = reader.rest();
    let count = match reader.read_u32() {
        Ok(v) => v,
        Err(e) => return Err(DecodeError::Reader(e)),
    };
    proof {
        assert(s1 == s.skip(4));
        assert(s1[0] == s[4] && s1[1] == s[5] && s1[2] == s[6] && s1[3] == s[7]);
        assert(kd_num_points(s) == count);
    }
    let num_points = count as usize;
    if num_points != expected_points {
        return Err(
            DecodeError::MalformedAttribute(
                "kd-tree point count disagrees with the geometry section",
            ),
        );
    }
    if num_points == 0 {
        proof {
            assert(reader.rest() =~= s.skip(8));
        }
        return Ok(Vec::new());
    }
    let ghost s8 = reader.rest();
    proof {
        assert(s8 =~= s.skip(8));
    }
    let mut numbers = Num::start(reader)?;
    let ghost k1 = Num::start_parse(s8)->Ok_0.1;
    let mut remaining_bits = DirectBitDecoder::start(reader)?;
    let ghost k2 = direct_parse(s8.skip(k1 as int))->Ok_0.1;
    proof {
        assert(s8.skip(k1 as int).skip(k2 as int) =~= s8.skip((k1 + k2) as int));
    }
    let mut axis_decoder = DirectBitDecoder::start(reader)?;
    let ghost k3 = direct_parse(s8.skip((k1 + k2) as int))->Ok_0.1;
    proof {
        assert(s8.skip((k1 + k2) as int).skip(k3 as int) =~= s8.skip((k1 + k2 + k3) as int));
    }
    let mut half = DirectBitDecoder::start(reader)?;
    let ghost s_end = reader.rest();
    proof {
        let k4 = direct_parse(s8.skip((k1 + k2 + k3) as int))->Ok_0.1;
        assert(s8.skip((k1 + k2 + k3) as int).skip(k4 as int) =~= s8.skip((k1 + k2 + k3 + k4) as int));
        assert(s8.skip((k1 + k2 + k3 + k4) as int) =~= s.skip((8 + k1 + k2 + k3 + k4) as int));
        assert(kd_streams_len::<Num>(s8) == k1 + k2 + k3 + k4);
        assert(s_end == s.skip((8 + kd_streams_len::<Num>(s8)) as int));
    }
    let ghost w_start = kd_start::<Num>(s8, dimension as int, expected_points as int)->Ok_0;
    let dim = dimension;
    let total = match num_points.checked_mul(dim) {
        Some(t) => t,
        None => return Err(DecodeError::AllocationTooLarge("point array")),
    };
    if !points_reserved {
        return Err(DecodeError::AllocationTooLarge("point array"));
    }
    let d32 = match dim.checked_mul(32) {
        Some(v) => v,
        None => {
            proof {
                assert((32 * dim + 1) * dim > usize::MAX) by (nonlinear_arith)
                    requires
                        dim * 32 > usize::MAX,
                ;
            }
            return Err(DecodeError::AllocationTooLarge("kd-tree stack"));
        },
    };
    let depth = match d32.checked_add(1) {
        Some(v) => v,
        None => {
            proof {
                assert((32 * dim + 1) * dim > usize::MAX) by (nonlinear_arith)
                    requires
                        d32 + 1 > usize::MAX,
                        d32 == dim * 32,
                ;
            }
            return Err(DecodeError::AllocationTooLarge("kd-tree stack"));
        },
    };
    let rows = match depth.checked_mul(dim) {
        Some(v) => v,
        None => return Err(DecodeError::AllocationTooLarge("kd-tree stack")),
    };
    if !tables_reserved {
        return Err(DecodeError::AllocationTooLarge("kd-tree stack"));
    }
    let mut base_stack = zeroed(rows);
    let mut levels_stack = zeroed(rows);
    proof {
        assert(dim <= u32::MAX) by (nonlinear_arith)
            requires
                rows == depth * dim,
                depth == dim * 32 + 1,
                rows <= usize::MAX,
                usize::MAX <= 0xFFFF_FFFF_FFFF_FFFFint,
        ;
        lemma_pow2_pos(bit_length as nat);
        vstd::arithmetic::power2::lemma2_to64();
        assert forall|c: int| 0 <= c < base_stack@.len() implies (#[trigger] base_stack@[c])
            as int % pow2((bit_length - levels_stack@[c]) as nat) as int == 0 by {
            assert(base_stack@[c] == 0);
            lemma_pow2_pos((bit_length - levels_stack@[c]) as nat);
            vstd::arithmetic::div_mod::lemma_small_mod(0, pow2((bit_length - levels_stack@[c]) as nat));
        }
    }
    let mut out: Vec<u32> = Vec::new();
    let mut stack: Vec<Status> = Vec::new();
    let first = Status { num_remaining_points: count, last_axis: 0, stack_pos: 0 };
    stack.push(first);
    let ghost mut sums: Seq<int> = seq![row_sum(levels_stack@, 0, dim as nat)];
    proof {
        assert(dim <= rows) by (nonlinear_arith)
            requires
                rows == depth * dim,
                depth >= 1,
        ;
        lemma_row_sum_nonneg(levels_stack@, 0, dim as nat);
        lemma_row_sum_bound(levels_stack@, 0, dim as nat, bit_length as int, -1);
        assert(dim * bit_length <= dim * 32) by (nonlinear_arith)
            requires
                bit_length <= 32,
        ;
        assert(0 * dim == 0);
        let st = stack@;
        assert(st.drop_last() =~= Seq::<Status>::empty());
        assert(sums.drop_last() =~= Seq::<int>::empty());
        assert(pending_points(Seq::<Status>::empty()) == 0);
        assert(st.last() == first);
        assert(pending_points(st) == count);
    }
    let ghost big_f: nat = (expected_points * (32 * dimension + 1) + 1) as nat;
    let ghost mut fuel: nat = big_f;
    proof {
        let wv = kd_view::<Num>(stack@, base_stack@, levels_stack@, out@, numbers, remaining_bits, axis_decoder, half);
        assert(wv.base =~= w_start.base);
        assert(wv.levels =~= w_start.levels);
        assert(wv.stack =~= w_start.stack);
        assert(wv.out =~= w_start.out);
        assert(wv == w_start);
        let s0 = sums[0];
        assert(pending_weight(stack@, sums, depth as int) == count * (depth - s0)) by {
            assert(stack@.drop_last() =~= Seq::<Status>::empty());
            assert(sums.drop_last() =~= Seq::<int>::empty());
            assert(stack@.last() == first);
            assert(sums.last() == s0);
            assert(pending_weight(Seq::<Status>::empty(), Seq::<int>::empty(), depth as int) == 0);
        }
        assert(count * (depth - s0) <= count * depth) by (nonlinear_arith)
            requires
                s0 >= 0,
        ;
    }
    while stack.len() > 0
        invariant
            dim == dimension,
            points_reserved && tables_reserved,
            kd_alloc_error(dimension, expected_points, points_reserved, tables_reserved) is None,
            s8 == s.skip(8),
            reader.rest() == s_end,
            s_end == s.skip((8 + kd_streams_len::<Num>(s8)) as int),
            8 + kd_streams_len::<Num>(s8) <= s.len(),
            kd_start::<Num>(s8, dimension as int, expected_points as int) is Ok,
            kd_start::<Num>(s8, dimension as int, expected_points as int)->Ok_0 == w_start,
            big_f == (expected_points * (32 * dimension + 1) + 1) as nat,
            kd_run::<Num>(w_start, dim as int, bit_length as int, num_points as int, total as int, select_axis, big_f)
                == kd_run::<Num>(
                kd_view::<Num>(stack@, base_stack@, levels_stack@, out@, numbers, remaining_bits, axis_decoder, half),
                dim as int,
                bit_length as int,
                num_points as int,
                total as int,
                select_axis,
                fuel,
            ),
            fuel > pending_weight(stack@, sums, depth as int),
            s == old(reader).rest(),
            s.len() >= 8,
            kd_bit_length(s) == bit_length,
            kd_num_points(s) == count,
            bit_length <= 32,
            1 <= num_points,
            num_points == count,
            num_points == expected_points,
            total == num_points * dim,
            depth == dim * 32 + 1,
            rows == depth * dim,
            dim <= u32::MAX,
            dim > 0 || select_axis,
            pow2(bit_length as nat) > 0,
            numbers.ready(),
            remaining_bits.ready(),
            axis_decoder.ready(),
            half.ready(),
            base_stack@.len() == rows,
            levels_stack@.len() == rows,
            cells_ok(levels_stack@, base_stack@, bit_length as int),
            stack_ok(stack@, sums, levels_stack@, dim as nat, depth as nat, select_axis),
            forall|i: int| 0 <= i < sums.len() ==> #[trigger] sums[i] <= dim * bit_length,
            dim * bit_length <= dim * 32,
            out@.len() + dim * pending_points(stack@) == total,
            forall|j: int| 0 <= j < out@.len() ==> (#[trigger] out@[j]) < pow2(bit_length as nat),
        decreases pending_weight(stack@, sums, depth as int),
    {
        let ghost st0 = stack@;
        let ghost sums0 = sums;
        let ghost w0 = pending_weight(st0, sums0, depth as int);
        let ghost w_cur = kd_view::<Num>(stack@, base_stack@, levels_stack@, out@, numbers, remaining_bits, axis_decoder, half);
        proof {
            lemma_weight_nonneg(stack@, sums, depth as int);
            assert(kd_run::<Num>(w_cur, dim as int, bit_length as int, num_points as int, total as int, select_axis, fuel)
                == match kd_step::<Num>(w_cur, dim as int, bit_length as int, num_points as int, total as int, select_axis) {
                Ok(w2) => kd_run::<Num>(w2, dim as int, bit_length as int, num_points as int, total as int, select_axis, (fuel - 1) as nat),
                Err(e) => Err(e),
            }) by {
                reveal(kd_run);
            }
        }
        let status = stack.pop().unwrap();
        proof {
            assert(w_cur.stack.last() == status);
            assert(w_cur.stack.drop_last() =~= stack@);
            sums = sums.drop_last();
            assert(st0.drop_last() =~= stack@);
            assert(st0.last() == status);
            assert(status == st0[st0.len() - 1]);
            lemma_pending_nonneg(stack@);
            assert(w0 == pending_weight(stack@, sums, depth as int)
                + status.num_remaining_points * (depth - sums0.last()));
            assert(stack_ok(stack@, sums, levels_stack@, dim as nat, depth as nat, select_axis)) by {
                assert forall|i: int| 0 <= i < stack@.len() implies #[trigger] stack@[i] == st0[i] by {}
            }
        }
        let n = status.num_remaining_points;
        let stack_pos = status.stack_pos;
        let ghost top_sum = sums0.last();
        let ghost w_pop = pending_weight(stack@, sums, depth as int);
        proof {
            assert(stack_pos < depth);
            assert(stack_pos * dim + dim <= rows) by (nonlinear_arith)
                requires
                    stack_pos < depth,
                    rows == depth * dim,
            ;
            assert(dim * n <= dim * pending_points(st0)) by (nonlinear_arith)
                requires
                    n <= pending_points(st0),
            ;
            assert(out@.len() + n * dim <= total) by (nonlinear_arith)
                requires
                    out@.len() + dim * pending_points(st0) == total,
                    dim * n <= dim * pending_points(st0),
            ;
            assert(forall|i: int| 0 <= i < stack@.len() ==> (#[trigger] stack@[i]).stack_pos < stack_pos) by {
                assert forall|i: int| 0 <= i < stack@.len() implies (#[trigger] stack@[i]).stack_pos < stack_pos by {
                    assert(st0[i] == stack@[i]);
                    assert(st0[st0.len() - 1] == status);
                }
            }
        }
        let sp = stack_pos * dim;
        if n as usize > num_points {
            proof {
                assert(kd_step::<Num>(w_cur, dim as int, bit_length as int, num_points as int, total as int, select_axis) == Err::<KdWalk<Num::BitState>, DecodeError>(
                    DecodeError::MalformedAttribute("kd-tree split count overflow"),
                )) by {
                    reveal(kd_step);
                }
            }
            return Err(DecodeError::MalformedAttribute("kd-tree split count overflow"));
        }
        let ghost ax0 = (axis_decoder.words(), axis_decoder.consumed());
        let axis: u32 = if !select_axis {
            increment_mod(status.last_axis, dim as u32)
        } else if n < 64 {
            least_refined_axis(&levels_stack, sp, dim)
        } else {
            match axis_decoder.decode_lsb32(4) {
                Ok(v) => v,
                Err(e) => {
                    proof {
                        assert(kd_step::<Num>(w_cur, dim as int, bit_length as int, num_points as int, total as int, select_axis) == Err::<KdWalk<Num::BitState>, DecodeError>(e)) by {
                            reveal(kd_step);
                        }
                    }
                    return Err(e);
                },
            }
        };
        let ghost a2 = (axis_decoder.words(), axis_decoder.consumed());
        proof {
            assert(kd_axis(status, levels_stack@, sp as int, dim as int, select_axis, ax0) == Ok::<
                (int, (Seq<u32>, int)),
                DecodeError,
            >((axis as int, a2)));
        }
        if axis as usize >= dim {
            proof {
                assert(kd_step::<Num>(w_cur, dim as int, bit_length as int, num_points as int, total as int, select_axis) == Err::<KdWalk<Num::BitState>, DecodeError>(
                    DecodeError::MalformedAttribute("kd-tree split axis out of range"),
                )) by {
                    reveal(kd_step);
                }
            }
            return Err(DecodeError::MalformedAttribute("kd-tree split axis out of range"));
        }
        let level = levels_stack[sp + axis as usize];
        let ghost out_len0 = out@.len();
        if bit_length - level == 0 {
            emit_base(&mut out, &base_stack, sp, dim, n, Ghost(bit_length as int));
            proof {
                let nw = kd_view::<Num>(stack@, base_stack@, levels_stack@, out@, numbers, remaining_bits, axis_decoder, half);
                assert(kd_step::<Num>(w_cur, dim as int, bit_length as int, num_points as int, total as int, select_axis) == Ok::<KdWalk<Num::BitState>, DecodeError>(nw)) by {
                    reveal(kd_step);
                }
            }
            proof {
                assert(out@.len() + dim * pending_points(stack@) == total) by (nonlinear_arith)
                    requires
                        out@.len() == out_len0 + n * dim,
                        pending_points(st0) == pending_points(stack@) + n,
                        out_len0 + dim * pending_points(st0) == total,
                ;
            }
        } else if n <= 2 {
            let ghost r0 = (remaining_bits.words(), remaining_bits.consumed());
            match emit_points(
                &mut out,
                &mut remaining_bits,
                &base_stack,
                &levels_stack,
                sp,
                dim,
                axis,
                n,
                bit_length,
            ) {
                Ok(()) => {},
                Err(e) => {
                    proof {
                        assert(kd_step::<Num>(w_cur, dim as int, bit_length as int, num_points as int, total as int, select_axis) == Err::<KdWalk<Num::BitState>, DecodeError>(e)) by {
                            reveal(kd_step);
                        }
                    }
                    return Err(e);
                },
            }
            proof {
                let nw = kd_view::<Num>(stack@, base_stack@, levels_stack@, out@, numbers, remaining_bits, axis_decoder, half);
                assert(kd_step::<Num>(w_cur, dim as int, bit_length as int, num_points as int, total as int, select_axis) == Ok::<KdWalk<Num::BitState>, DecodeError>(nw)) by {
                    reveal(kd_step);
                }
            }
            proof {
                assert(out@.len() + dim * pending_points(stack@) == total) by (nonlinear_arith)
                    requires
                        out@.len() == out_len0 + n * dim,
                        pending_points(st0) == pending_points(stack@) + n,
                        out_len0 + dim * pending_points(st0) == total,
                ;
            }
        } else {
            if out.len() > total {
                proof {
                assert(kd_step::<Num>(w_cur, dim as int, bit_length as int, num_points as int, total as int, select_axis) == Err::<KdWalk<Num::BitState>, DecodeError>(
                    DecodeError::MalformedAttribute("kd-tree decoded too many points"),
                )) by {
                    reveal(kd_step);
                }
            }
                return Err(DecodeError::MalformedAttribute("kd-tree decoded too many points"));
            }
            let incoming_bits = most_significant_bit(n);
            let ghost nv0 = numbers.bit_state();
            let number = if incoming_bits > 0 {
                match numbers.decode_lsb32(incoming_bits) {
                    Ok(v) => v,
                    Err(e) => {
                        proof {
                            assert(kd_step::<Num>(w_cur, dim as int, bit_length as int, num_points as int, total as int, select_axis) == Err::<KdWalk<Num::BitState>, DecodeError>(e)) by {
                                reveal(kd_step);
                            }
                        }
                        return Err(e);
                    },
                }
            } else {
                0
            };
            let mut first_half = n / 2;
            if first_half < number {
                proof {
                    assert(kd_step::<Num>(w_cur, dim as int, bit_length as int, num_points as int, total as int, select_axis) == Err::<KdWalk<Num::BitState>, DecodeError>(
                        DecodeError::MalformedAttribute("kd-tree split deviation overflow"),
                    )) by {
                        reveal(kd_step);
                    }
                }
                return Err(DecodeError::MalformedAttribute("kd-tree split deviation overflow"));
            }
            first_half = first_half - number;
            let mut second_half = n - first_half;
            let ghost h0 = (half.words(), half.consumed());
            if first_half != second_half && !half.decode_bit() {
                let tmp = first_half;
                first_half = second_half;
                second_half = tmp;
            }
            proof {
                assert(kd_halves(n as int, number as int, h0) == (
                    first_half as int,
                    second_half as int,
                    (half.words(), half.consumed()),
                ));
            }
            let ghost l0 = levels_stack@;
            proof {
                lemma_row_sum_bound(
                    l0,
                    sp as int,
                    dim as nat,
                    bit_length as int,
                    (sp + axis) as int,
                );
                assert(stack_pos + 1 < depth);
                assert(sp + dim + dim <= rows) by (nonlinear_arith)
                    requires
                        stack_pos + 2 <= depth,
                        rows == depth * dim,
                        sp == stack_pos * dim,
                ;
            }
            split_rows(&mut base_stack, &mut levels_stack, sp, dim, axis as usize, bit_length);
            proof {
                assert forall|i: int| 0 <= i < stack@.len() implies (#[trigger] stack@[i]).stack_pos * dim
                    + dim <= sp by {
                    let p = stack@[i].stack_pos;
                    assert(p + 1 <= stack_pos);
                    assert(p * dim + dim <= stack_pos * dim) by (nonlinear_arith)
                        requires
                            p + 1 <= stack_pos,
                    ;
                }
                lemma_stack_rows_kept(
                    stack@,
                    sums,
                    l0,
                    levels_stack@,
                    dim as nat,
                    depth as nat,
                    select_axis,
                    sp as int,
                );
            }
            let ghost mid = stack@;
            let ghost mid_sums = sums;
            let ghost span = depth - (top_sum + 1);
            let ghost mut w_now = pending_weight(mid, mid_sums, depth as int);
            let ghost mut p_now = pending_points(mid);
            if first_half > 0 {
                let entry = Status { num_remaining_points: first_half, last_axis: axis, stack_pos };
                proof {
                    lemma_stack_push(
                        stack@,
                        sums,
                        levels_stack@,
                        dim as nat,
                        depth as nat,
                        select_axis,
                        entry,
                        top_sum + 1,
                    );
                    assert(pending_weight(stack@.push(entry), sums.push(top_sum + 1), depth as int)
                        == w_now + first_half * span);
                    w_now = w_now + first_half * span;
                    p_now = p_now + first_half;
                    sums = sums.push(top_sum + 1);
                }
                stack.push(entry);
            }
            if second_half > 0 {
                let entry = Status {
                    num_remaining_points: second_half,
                    last_axis: axis,
                    stack_pos: stack_pos + 1,
                };
                proof {
                    assert forall|i: int| 0 <= i < stack@.len() implies (#[trigger] stack@[i]).stack_pos
                        < stack_pos + 1 by {
                        if i < mid.len() {
                            assert(stack@[i] == mid[i]);
                        }
                    }
                    assert((stack_pos + 1) * dim == sp + dim) by (nonlinear_arith)
                        requires
                            sp == stack_pos * dim,
                    ;
                    lemma_stack_push(
                        stack@,
                        sums,
                        levels_stack@,
                        dim as nat,
                        depth as nat,
                        select_axis,
                        entry,
                        top_sum + 1,
                    );
                    assert(pending_weight(stack@.push(entry), sums.push(top_sum + 1), depth as int)
                        == w_now + second_half * span);
                    w_now = w_now + second_half * span;
                    p_now = p_now + second_half;
                    sums = sums.push(top_sum + 1);
                }
                stack.push(entry);
            }
            proof {
                assert(first_half + second_half == n);
                assert(pending_weight(stack@, sums, depth as int) == w_now);
                assert(pending_points(stack@) == p_now);
                assert(w_now == pending_weight(mid, mid_sums, depth as int) + n * span) by (
                nonlinear_arith)
                    requires
                        first_half + second_half == n,
                        first_half > 0 && second_half > 0 ==> w_now == pending_weight(
                            mid,
                            mid_sums,
                            depth as int,
                        ) + first_half * span + second_half * span,
                        first_half > 0 && second_half == 0 ==> w_now == pending_weight(
                            mid,
                            mid_sums,
                            depth as int,
                        ) + first_half * span,
                        first_half == 0 && second_half > 0 ==> w_now == pending_weight(
                            mid,
                            mid_sums,
                            depth as int,
                        ) + second_half * span,
                        first_half > 0 || second_half > 0,
                ;
                assert(p_now == pending_points(mid) + n);
            }
            proof {
                let nw = kd_view::<Num>(stack@, base_stack@, levels_stack@, out@, numbers, remaining_bits, axis_decoder, half);
                assert(nw.stack =~= kd_push(w_cur.stack.drop_last(), first_half as int, second_half as int, axis as int, stack_pos as int));
                assert(kd_step::<Num>(w_cur, dim as int, bit_length as int, num_points as int, total as int, select_axis) == Ok::<KdWalk<Num::BitState>, DecodeError>(nw)) by {
                    reveal(kd_step);
                }
            }
        }
        proof {
            let nw = kd_view::<Num>(stack@, base_stack@, levels_stack@, out@, numbers, remaining_bits, axis_decoder, half);
            assert(kd_step::<Num>(w_cur, dim as int, bit_length as int, num_points as int, total as int, select_axis) == Ok::<KdWalk<Num::BitState>, DecodeError>(nw));
            assert(kd_run::<Num>(w_cur, dim as int, bit_length as int, num_points as int, total as int, select_axis, fuel) == kd_run::<Num>(nw, dim as int, bit_length as int, num_points as int, total as int, select_axis, (fuel - 1) as nat));
            fuel = (fuel - 1) as nat;
        }
        proof {
            assert(top_sum <= dim * bit_length);
            lemma_weight_nonneg(stack@, sums, depth as int);
            assert(0 <= depth - top_sum - 1);
            assert(n * (depth - top_sum - 1) >= 0) by (nonlinear_arith)
                requires
                    0 <= depth - top_sum - 1,
                    n >= 1,
            ;
            assert(pending_weight(stack@, sums, depth as int) <= w_pop + n * (depth - top_sum - 1));
            assert(pending_weight(stack@, sums, depth as int) < w0) by (nonlinear_arith)
                requires
                    pending_weight(stack@, sums, depth as int) <= w_pop + n * (depth - top_sum - 1),
                    w0 == w_pop + n * (depth - top_sum),
                    n >= 1,
            ;
        }
    }
    proof {
        let w_end = kd_view::<Num>(stack@, base_stack@, levels_stack@, out@, numbers, remaining_bits, axis_decoder, half);
        assert(w_end.stack.len() == 0);
        assert(kd_run::<Num>(w_end, dim as int, bit_length as int, num_points as int, total as int, select_axis, fuel)
            == (if out@.len() != total {
                Err::<Seq<u32>, DecodeError>(DecodeError::MalformedAttribute("kd-tree stream decoded a wrong number of points"))
            } else {
                Ok::<Seq<u32>, DecodeError>(out@)
            })) by {
            reveal(kd_run);
        }
    }
    if out.len() != total {
        return Err(DecodeError::MalformedAttribute("kd-tree stream decoded a wrong number of points"));
    }
    Ok(out)
}

/// Whether the allocator can hold `len` words now; nothing is kept.
#[verifier::external_body]
fn try_reserve_words(len: usize) -> (ok: bool) {
    let mut probe: Vec<u32> = Vec::new();
    probe.try_reserve_exact(len).is_ok()
}

/// `len` zeroed words.
fn zeroed(len: usize) -> (v: Vec<u32>)
    ensures
        v@.len() == len,
        forall|i: int| 0 <= i < len ==> #[trigger] v@[i] == 0,
{
    let mut v: Vec<u32> = Vec::new();
    let mut i: usize = 0;
    while i < len
        invariant
            i <= len,
            v@.len() == i,
            forall|j: int| 0 <= j < i ==> #[trigger] v@[j] == 0,
        decreases len - i,
    {
        v.push(0);
        i += 1;
    }
    v
}

/// The axis after `i` among `m`, wrapping to 0.
pub fn increment_mod(i: u32, m: u32) -> (r: u32)
    requires
        i < m,
    ensures
        r == (i + 1) % (m as int),
{
    proof {
        if i + 1 < m {
            vstd::arithmetic::div_mod::lemma_small_mod((i + 1) as nat, m as nat);
        } else {
            vstd::arithmetic::div_mod::lemma_mod_self_0(m as int);
        }
    }
    if i == m - 1 {
        0
    } else {
        i + 1
    }
}

/// The index of the highest set bit of a non-zero `n`.
pub fn most_significant_bit(n: u32) -> (r: u32)
    requires
        n != 0,
    ensures
        r < 32,
        vstd::arithmetic::power2::pow2(r as nat) <= n,
        r < 31 ==> n < vstd::arithmetic::power2::pow2((r + 1) as nat),
        r == msb_spec(n),
{
    let lz = n.leading_zeros();
    proof {
        vstd::std_specs::bits::axiom_u32_leading_zeros(n);
    }
    let r = 31 - lz;
    proof {
        vstd::bits::lemma_u32_shr_is_div(n, r);
        let w = n >> r;
        assert(w & 1u32 != 0u32 ==> w >= 1) by (bit_vector);
        vstd::arithmetic::power2::lemma_pow2_pos(r as nat);
        vstd::arithmetic::div_mod::lemma_fundamental_div_mod(n as int, vstd::arithmetic::power2::pow2(r as nat) as int);
        assert(n >= vstd::arithmetic::power2::pow2(r as nat)) by (nonlinear_arith)
            requires
                n as int == vstd::arithmetic::power2::pow2(r as nat) * ((n as int) / (vstd::arithmetic::power2::pow2(r as nat) as int)) + (n as int) % (vstd::arithmetic::power2::pow2(r as nat) as int),
                (n as int) % (vstd::arithmetic::power2::pow2(r as nat) as int) >= 0,
                (n as int) / (vstd::arithmetic::power2::pow2(r as nat) as int) >= 1,
                vstd::arithmetic::power2::pow2(r as nat) > 0,
        ;
        if r < 31 {
            vstd::bits::lemma_u32_shr_is_div(n, (r + 1) as u32);
            vstd::arithmetic::power2::lemma_pow2_pos((r + 1) as nat);
            vstd::arithmetic::div_mod::lemma_fundamental_div_mod(n as int, vstd::arithmetic::power2::pow2((r + 1) as nat) as int);
        }
    }
    proof {
        lemma_msb_unique(n, r);
    }
    r
}

} // verus!
