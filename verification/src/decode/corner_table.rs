//! The decoder-side corner table, with the vertex aliases that S symbols
//! leave behind when they merge two vertices.

use vstd::prelude::*;
use crate::connectivity::corner::{next, next_spec, previous, prev_spec};

verus! {

/// Marks "no opposite corner" (a boundary edge) and "no alias".
pub const NO_CORNER: usize = usize::MAX;

/// Corner table built while replaying Edgebreaker symbols.
///
/// `opposite[c]` is the corner across the edge opposite `c` (or
/// [`NO_CORNER`]), `corner_to_vertex[c]` the vertex at `c`,
/// `left_most_corner[v]` the left-most corner of vertex `v`, and
/// `vertex_alias[v]` the vertex that `v` was merged into (or `usize::MAX`).
pub struct DecoderCornerTable {
    pub opposite: Vec<usize>,
    pub corner_to_vertex: Vec<usize>,
    pub left_most_corner: Vec<usize>,
    pub num_vertices: usize,
    pub vertex_alias: Vec<usize>,
}

/// Whether `v` carries no alias: it lies past the table or is marked
/// `usize::MAX`.
pub open spec fn is_survivor(alias: Seq<usize>, v: int) -> bool {
    !(0 <= v < alias.len() && alias[v] != usize::MAX)
}

/// Follows the alias chain from `v` for at most `n` hops, stopping at the
/// first survivor.
pub open spec fn follow(alias: Seq<usize>, v: int, n: nat) -> int
    decreases n,
{
    if n == 0 || is_survivor(alias, v) {
        v
    } else {
        follow(alias, alias[v] as int, (n - 1) as nat)
    }
}

/// Whether the chain from `v` ends at a survivor after finitely many hops.
pub open spec fn reaches_survivor(alias: Seq<usize>, v: int) -> bool {
    exists|n: nat| is_survivor(alias, #[trigger] follow(alias, v, n))
}

/// Every alias chain ends: the table holds no cycle.
pub open spec fn chains_end(alias: Seq<usize>) -> bool {
    forall|v: int| #[trigger] reaches_survivor(alias, v)
}

/// The survivor at the end of `v`'s alias chain.
pub open spec fn resolve_spec(alias: Seq<usize>, v: int) -> int {
    follow(alias, v, choose|n: nat| is_survivor(alias, #[trigger] follow(alias, v, n)))
}

/// Every entry replaced by the survivor at the end of its chain.
pub open spec fn flatten(alias: Seq<usize>) -> Seq<usize> {
    Seq::new(
        alias.len(),
        |i: int|
            if alias[i] == usize::MAX {
                usize::MAX
            } else {
                resolve_spec(alias, i) as usize
            },
    )
}

/// `alias` extended with "no alias" entries up to index `m`, then `m`
/// aliased to `s`.
pub open spec fn with_alias(alias: Seq<usize>, m: int, s: usize) -> Seq<usize> {
    Seq::new(
        if m < alias.len() { alias.len() } else { (m + 1) as nat },
        |i: int|
            if i == m {
                s
            } else if i < alias.len() {
                alias[i]
            } else {
                usize::MAX
            },
    )
}

proof fn lemma_follow_stable(alias: Seq<usize>, v: int, n: nat, m: nat)
    requires
        is_survivor(alias, follow(alias, v, n)),
        n <= m,
    ensures
        follow(alias, v, m) == follow(alias, v, n),
    decreases n,
{
    if n > 0 && !is_survivor(alias, v) {
        lemma_follow_stable(alias, alias[v] as int, (n - 1) as nat, (m - 1) as nat);
    }
}

proof fn lemma_resolve_is(alias: Seq<usize>, v: int, n: nat)
    requires
        is_survivor(alias, follow(alias, v, n)),
    ensures
        resolve_spec(alias, v) == follow(alias, v, n),
        is_survivor(alias, resolve_spec(alias, v)),
{
    let k = choose|k: nat| is_survivor(alias, #[trigger] follow(alias, v, k));
    if k <= n {
        lemma_follow_stable(alias, v, k, n);
    } else {
        lemma_follow_stable(alias, v, n, k);
    }
}

proof fn lemma_follow_in_range(alias: Seq<usize>, v: int, n: nat)
    requires
        0 <= v < usize::MAX,
    ensures
        0 <= follow(alias, v, n) < usize::MAX,
    decreases n,
{
    if n > 0 && !is_survivor(alias, v) {
        lemma_follow_in_range(alias, alias[v] as int, (n - 1) as nat);
    }
}

/// Resolving a vertex that has an alias equals resolving its alias.
proof fn lemma_resolve_step(alias: Seq<usize>, v: int)
    requires
        chains_end(alias),
        !is_survivor(alias, v),
    ensures
        resolve_spec(alias, v) == resolve_spec(alias, alias[v] as int),
        is_survivor(alias, resolve_spec(alias, v)),
{
    assert(reaches_survivor(alias, v));
    let n = choose|n: nat| is_survivor(alias, #[trigger] follow(alias, v, n));
    assert(n > 0);
    lemma_resolve_is(alias, v, n);
    lemma_resolve_is(alias, alias[v] as int, (n - 1) as nat);
}

/// Replacing entry `i` by the end of its own chain changes no path's end.
proof fn lemma_shortcut_path(alias: Seq<usize>, i: int, t: usize, v: int, n: nat)
    requires
        chains_end(alias),
        alias.len() <= usize::MAX,
        0 <= i < alias.len(),
        !is_survivor(alias, i),
        t == resolve_spec(alias, i),
        is_survivor(alias, follow(alias, v, n)),
    ensures
        follow(alias.update(i, t), v, n) == follow(alias, v, n),
        is_survivor(alias.update(i, t), follow(alias, v, n)),
    decreases n,
{
    let c = alias.update(i, t);
    if is_survivor(alias, v) {
        assert(v != i);
        assert(is_survivor(c, v));
    } else if v == i {
        assert(n > 0);
        lemma_resolve_is(alias, i, n);
        lemma_follow_in_range(alias, i, n);
        assert(t != i);
        assert(!is_survivor(c, i));
        assert(is_survivor(c, t as int));
        assert(follow(c, t as int, (n - 1) as nat) == t);
        assert(follow(c, i, n) == follow(c, t as int, (n - 1) as nat));
    } else {
        assert(n > 0);
        assert(c[v] == alias[v]);
        assert(!is_survivor(c, v));
        lemma_shortcut_path(alias, i, t, alias[v] as int, (n - 1) as nat);
        assert(follow(c, v, n) == follow(c, alias[v] as int, (n - 1) as nat));
    }
}

proof fn lemma_shortcut(alias: Seq<usize>, i: int, t: usize)
    requires
        chains_end(alias),
        alias.len() <= usize::MAX,
        0 <= i < alias.len(),
        !is_survivor(alias, i),
        t == resolve_spec(alias, i),
    ensures
        chains_end(alias.update(i, t)),
        forall|v: int| #[trigger]
            resolve_spec(alias.update(i, t), v) == resolve_spec(alias, v),
{
    let c = alias.update(i, t);
    assert forall|v: int|
        #![trigger reaches_survivor(c, v)]
        #![trigger resolve_spec(c, v)]
        reaches_survivor(c, v) && resolve_spec(c, v) == resolve_spec(alias, v) by {
        assert(reaches_survivor(alias, v));
        let n = choose|n: nat| is_survivor(alias, #[trigger] follow(alias, v, n));
        lemma_shortcut_path(alias, i, t, v, n);
        lemma_resolve_is(alias, v, n);
        lemma_resolve_is(c, v, n);
    }
}

proof fn lemma_alias_path(alias: Seq<usize>, m: int, s: usize, v: int, n: nat)
    requires
        0 <= m < usize::MAX,
        s < usize::MAX,
        is_survivor(alias, m),
        is_survivor(alias, s as int),
        m != s,
        is_survivor(alias, follow(alias, v, n)),
    ensures
        follow(with_alias(alias, m, s), v, n + 1) == if follow(alias, v, n) == m {
            s as int
        } else {
            follow(alias, v, n)
        },
        is_survivor(with_alias(alias, m, s), follow(with_alias(alias, m, s), v, n + 1)),
    decreases n,
{
    let e = with_alias(alias, m, s);
    assert(is_survivor(e, s as int));
    if is_survivor(alias, v) {
        if v == m {
            assert(!is_survivor(e, m));
            assert(follow(e, s as int, n) == s);
            assert(follow(e, m, n + 1) == follow(e, s as int, n));
        } else {
            assert(is_survivor(e, v));
        }
    } else {
        assert(v != m);
        assert(n > 0);
        assert(e[v] == alias[v]);
        assert(!is_survivor(e, v));
        lemma_alias_path(alias, m, s, alias[v] as int, (n - 1) as nat);
        assert(follow(e, v, n + 1) == follow(e, alias[v] as int, n));
    }
}

/// What recording `m → s` does to every chain.
proof fn lemma_record_alias(alias: Seq<usize>, m: int, s: usize)
    requires
        chains_end(alias),
        0 <= m < usize::MAX,
        s < usize::MAX,
        is_survivor(alias, m),
        is_survivor(alias, s as int),
        m != s,
    ensures
        chains_end(with_alias(alias, m, s)),
        forall|v: int| #[trigger]
            resolve_spec(with_alias(alias, m, s), v) == if resolve_spec(alias, v) == m {
                s as int
            } else {
                resolve_spec(alias, v)
            },
{
    let e = with_alias(alias, m, s);
    assert forall|v: int|
        #![trigger reaches_survivor(e, v)]
        #![trigger resolve_spec(e, v)]
        reaches_survivor(e, v) && resolve_spec(e, v) == (if resolve_spec(alias, v) == m {
            s as int
        } else {
            resolve_spec(alias, v)
        }) by {
        assert(reaches_survivor(alias, v));
        let n = choose|n: nat| is_survivor(alias, #[trigger] follow(alias, v, n));
        lemma_alias_path(alias, m, s, v, n);
        lemma_resolve_is(alias, v, n);
        lemma_resolve_is(e, v, n + 1);
    }
}

/// After flattening, every chain is at most one hop long and ends where it
/// ended before.
pub proof fn lemma_flatten_single_hop(alias: Seq<usize>)
    requires
        chains_end(alias),
        alias.len() <= usize::MAX,
    ensures
        chains_end(flatten(alias)),
        forall|v: int| #[trigger]
            resolve_spec(flatten(alias), v) == resolve_spec(alias, v),
        forall|v: int|
            0 <= v < alias.len() && flatten(alias)[v] != usize::MAX ==> is_survivor(
                flatten(alias),
                #[trigger] flatten(alias)[v] as int,
            ),
{
    let f = flatten(alias);
    assert forall|v: int|
        #![trigger reaches_survivor(f, v)]
        #![trigger resolve_spec(f, v)]
        reaches_survivor(f, v) && resolve_spec(f, v) == resolve_spec(alias, v) by {
        if is_survivor(alias, v) {
            assert(is_survivor(f, v));
            assert(follow(f, v, 0) == v);
            assert(follow(alias, v, 0) == v);
            lemma_resolve_is(f, v, 0);
            lemma_resolve_is(alias, v, 0);
        } else {
            lemma_resolve_step(alias, v);
            let t = resolve_spec(alias, v);
            assert(reaches_survivor(alias, v));
            let n = choose|n: nat| is_survivor(alias, #[trigger] follow(alias, v, n));
            lemma_resolve_is(alias, v, n);
            lemma_follow_in_range(alias, v, n);
            assert(f[v] as int == t);
            assert(!is_survivor(f, v));
            assert(is_survivor(f, t));
            assert(follow(f, t, 0) == t);
            assert(follow(f, v, 1) == t);
            lemma_resolve_is(f, v, 1);
        }
    }
    assert forall|v: int|
        0 <= v < alias.len() && f[v] != usize::MAX implies is_survivor(
        f,
        #[trigger] f[v] as int,
    ) by {
        lemma_resolve_step(alias, v);
        assert(reaches_survivor(alias, v));
        let n = choose|n: nat| is_survivor(alias, #[trigger] follow(alias, v, n));
        lemma_resolve_is(alias, v, n);
        lemma_follow_in_range(alias, v, n);
    }
}

/// Flattening is idempotent: a flattened table flattens to itself.
pub proof fn lemma_flatten_idempotent(alias: Seq<usize>)
    requires
        chains_end(alias),
        alias.len() <= usize::MAX,
    ensures
        flatten(flatten(alias)) == flatten(alias),
{
    let f = flatten(alias);
    lemma_flatten_single_hop(alias);
    assert forall|i: int| 0 <= i < f.len() implies #[trigger] flatten(f)[i] == f[i] by {
        if f[i] != usize::MAX {
            assert(resolve_spec(f, i) == resolve_spec(alias, i));
        }
    }
    assert(flatten(f) =~= f);
}


/// The corner reached by swinging left from `c`: across the edge opposite
/// `next(c)`, then one corner on. `None` at a boundary edge.
pub open spec fn swing_left_spec(opp: Seq<usize>, c: int) -> Option<int> {
    let o = opp[next_spec(c)];
    if o == NO_CORNER {
        None
    } else {
        Some(next_spec(o as int))
    }
}

/// The `k`-th corner of the walk that starts at `start` and swings left
/// until it meets a boundary or comes back to `start`; `None` once it has
/// stopped.
pub open spec fn merge_walk(opp: Seq<usize>, start: int, k: nat) -> Option<int>
    decreases k,
{
    if k == 0 {
        Some(start)
    } else {
        match merge_walk(opp, start, (k - 1) as nat) {
            Some(c) => match swing_left_spec(opp, c) {
                Some(n) => if n == start {
                    None
                } else {
                    Some(n)
                },
                None => None,
            },
            None => None,
        }
    }
}

/// Whether `x` is among the first `bound` corners of the merge walk.
pub open spec fn on_merge_walk(opp: Seq<usize>, start: int, bound: int, x: int) -> bool {
    exists|k: nat| k < bound && #[trigger] merge_walk(opp, start, k) == Some(x)
}

proof fn lemma_merge_walk_stopped(opp: Seq<usize>, start: int, i: nat, k: nat)
    requires
        merge_walk(opp, start, i) is None,
        i <= k,
    ensures
        merge_walk(opp, start, k) is None,
    decreases k,
{
    if k > i {
        lemma_merge_walk_stopped(opp, start, i, (k - 1) as nat);
    }
}

proof fn lemma_next_in_table(c: int, n: int)
    requires
        0 <= c < n,
        n % 3 == 0,
    ensures
        0 <= next_spec(c) < n,
        0 <= prev_spec(c) < n,
        next_spec(c) / 3 == c / 3,
{
}

impl DecoderCornerTable {
    /// The table's structural invariant: matching corner arrays whose
    /// length is a whole number of faces, opposite entries that are corners
    /// or [`NO_CORNER`], one left-most corner per vertex, and alias chains
    /// that end.
    pub open spec fn wf(&self) -> bool {
        &&& self.opposite@.len() == self.corner_to_vertex@.len()
        &&& self.opposite@.len() % 3 == 0
        &&& self.opposite@.len() < usize::MAX
        &&& forall|c: int|
            0 <= c < self.opposite@.len() ==> #[trigger] self.opposite@[c] == NO_CORNER
                || self.opposite@[c] < self.opposite@.len()
        &&& self.left_most_corner@.len() == self.num_vertices
        &&& chains_end(self.vertex_alias@)
    }

    /// A table for `num_faces` faces: every corner without an opposite and
    /// without a vertex, no vertices and no aliases yet.
    pub fn with_capacity(num_faces: usize, num_vertices_hint: usize) -> (r: Self)
        requires
            num_faces * 3 < usize::MAX,
        ensures
            r.wf(),
            r.opposite@ == Seq::new((num_faces * 3) as nat, |i: int| NO_CORNER),
            r.corner_to_vertex@ == Seq::new((num_faces * 3) as nat, |i: int| NO_CORNER),
            r.left_most_corner@.len() == 0,
            r.num_vertices == 0,
            r.vertex_alias@.len() == 0,
    {
        let num_corners = num_faces * 3;
        let mut opposite: Vec<usize> = Vec::new();
        let mut corner_to_vertex: Vec<usize> = Vec::new();
        let mut i: usize = 0;
        while i < num_corners
            invariant
                i <= num_corners,
                opposite@ == Seq::new(i as nat, |j: int| NO_CORNER),
                corner_to_vertex@ == Seq::new(i as nat, |j: int| NO_CORNER),
            decreases num_corners - i,
        {
            opposite.push(NO_CORNER);
            corner_to_vertex.push(NO_CORNER);
            i = i + 1;
            assert(opposite@ =~= Seq::new(i as nat, |j: int| NO_CORNER));
            assert(corner_to_vertex@ =~= Seq::new(i as nat, |j: int| NO_CORNER));
        }
        let r = DecoderCornerTable {
            opposite,
            corner_to_vertex,
            left_most_corner: Vec::with_capacity(num_vertices_hint),
            num_vertices: 0,
            vertex_alias: Vec::new(),
        };
        assert forall|v: int| #[trigger] reaches_survivor(r.vertex_alias@, v) by {
            assert(is_survivor(r.vertex_alias@, follow(r.vertex_alias@, v, 0)));
        }
        r
    }

    /// Makes `a` and `b` opposite each other.
    pub fn set_opposite(&mut self, a: usize, b: usize)
        requires
            old(self).wf(),
            a < old(self).opposite@.len(),
            b < old(self).opposite@.len(),
        ensures
            final(self).wf(),
            final(self).opposite@ == old(self).opposite@.update(a as int, b).update(b as int, a),
            final(self).corner_to_vertex == old(self).corner_to_vertex,
            final(self).left_most_corner == old(self).left_most_corner,
            final(self).num_vertices == old(self).num_vertices,
            final(self).vertex_alias == old(self).vertex_alias,
    {
        self.opposite.set(a, b);
        self.opposite.set(b, a);
    }

    /// Sets the vertex at corner `c`.
    pub fn map_corner_to_vertex(&mut self, c: usize, v: usize)
        requires
            old(self).wf(),
            c < old(self).corner_to_vertex@.len(),
        ensures
            final(self).wf(),
            final(self).corner_to_vertex@ == old(self).corner_to_vertex@.update(c as int, v),
            final(self).opposite == old(self).opposite,
            final(self).left_most_corner == old(self).left_most_corner,
            final(self).num_vertices == old(self).num_vertices,
            final(self).vertex_alias == old(self).vertex_alias,
    {
        self.corner_to_vertex.set(c, v);
    }

    /// Sets the left-most corner of vertex `v`.
    pub fn set_left_most_corner(&mut self, v: usize, c: usize)
        requires
            old(self).wf(),
            v < old(self).left_most_corner@.len(),
        ensures
            final(self).wf(),
            final(self).left_most_corner@ == old(self).left_most_corner@.update(v as int, c),
            final(self).opposite == old(self).opposite,
            final(self).corner_to_vertex == old(self).corner_to_vertex,
            final(self).num_vertices == old(self).num_vertices,
            final(self).vertex_alias == old(self).vertex_alias,
    {
        self.left_most_corner.set(v, c);
    }

    /// Adds a vertex with no left-most corner yet and returns its id.
    pub fn add_new_vertex(&mut self) -> (v: usize)
        requires
            old(self).wf(),
            old(self).num_vertices < usize::MAX,
        ensures
            final(self).wf(),
            v == old(self).num_vertices,
            final(self).num_vertices == old(self).num_vertices + 1,
            final(self).left_most_corner@ == old(self).left_most_corner@.push(NO_CORNER),
            final(self).opposite == old(self).opposite,
            final(self).corner_to_vertex == old(self).corner_to_vertex,
            final(self).vertex_alias == old(self).vertex_alias,
    {
        let v = self.num_vertices;
        self.num_vertices = self.num_vertices + 1;
        self.left_most_corner.push(NO_CORNER);
        v
    }

    /// The corner opposite `c`, or `None` at a boundary edge.
    pub fn opposite(&self, c: usize) -> (r: Option<usize>)
        requires
            c < self.opposite@.len(),
        ensures
            r == (if self.opposite@[c as int] == NO_CORNER {
                None
            } else {
                Some(self.opposite@[c as int])
            }),
    {
        let v = self.opposite[c];
        if v == NO_CORNER {
            None
        } else {
            Some(v)
        }
    }

    /// The vertex at corner `c`, resolved through the alias chains.
    pub fn vertex_idx(&self, c: usize) -> (v: usize)
        requires
            self.wf(),
            c < self.corner_to_vertex@.len(),
        ensures
            v == resolve_spec(self.vertex_alias@, self.corner_to_vertex@[c as int] as int),
    {
        self.resolve_alias(self.corner_to_vertex[c])
    }

    /// Swings left from `c` without resolving vertices: `None` at a
    /// boundary edge.
    pub fn swing_left_raw(&self, c: usize) -> (r: Option<usize>)
        requires
            self.wf(),
            c < self.opposite@.len(),
        ensures
            r matches Some(n) ==> n < self.opposite@.len(),
            r == (match swing_left_spec(self.opposite@, c as int) {
                Some(n) => Some(n as usize),
                None => None::<usize>,
            }),
    {
        proof {
            lemma_next_in_table(c as int, self.opposite@.len() as int);
        }
        let nxt = next(c);
        let opp = self.opposite[nxt];
        if opp == NO_CORNER {
            None
        } else {
            proof {
                lemma_next_in_table(opp as int, self.opposite@.len() as int);
            }
            Some(next(opp))
        }
    }

    /// Re-labels every corner on the left swing from `start_corner` (until a
    /// boundary edge, a return to the start, or one more step than there are
    /// corners) with `vert_p`, and clears the left-most corner of `vert_n`.
    pub fn merge_vertex(&mut self, vert_n: usize, vert_p: usize, start_corner: usize)
        requires
            old(self).wf(),
            start_corner < old(self).corner_to_vertex@.len(),
            vert_n < old(self).left_most_corner@.len(),
        ensures
            final(self).wf(),
            final(self).corner_to_vertex@.len() == old(self).corner_to_vertex@.len(),
            forall|x: int|
                0 <= x < old(self).corner_to_vertex@.len() ==> #[trigger] final(self).corner_to_vertex@[x] == if on_merge_walk(
                    old(self).opposite@,
                    start_corner as int,
                    old(self).corner_to_vertex@.len() + 2int,
                    x,
                ) {
                    vert_p
                } else {
                    old(self).corner_to_vertex@[x]
                },
            final(self).left_most_corner@ == old(self).left_most_corner@.update(
                vert_n as int,
                NO_CORNER,
            ),
            final(self).opposite == old(self).opposite,
            final(self).num_vertices == old(self).num_vertices,
            final(self).vertex_alias == old(self).vertex_alias,
    {
        let ghost opp = self.opposite@;
        let ghost old_ctv = self.corner_to_vertex@;
        let ghost start = start_corner as int;
        let n = self.corner_to_vertex.len();
        let max_iters = n + 1;
        let mut c = start_corner;
        let mut iters: usize = 0;
        loop
            invariant_except_break
                merge_walk(opp, start, iters as nat) == Some(c as int),
                c < n,
                iters <= max_iters,
            invariant
                self.wf(),
                self.opposite@ == opp,
                self.opposite == old(self).opposite,
                start == start_corner as int,
                n == self.corner_to_vertex@.len(),
                max_iters == n + 1,
                self.left_most_corner == old(self).left_most_corner,
                self.num_vertices == old(self).num_vertices,
                self.vertex_alias == old(self).vertex_alias,
                forall|x: int|
                    0 <= x < n ==> #[trigger] self.corner_to_vertex@[x] == if on_merge_walk(
                        opp,
                        start,
                        iters as int,
                        x,
                    ) {
                        vert_p
                    } else {
                        old_ctv[x]
                    },
            ensures
                self.wf(),
                forall|x: int|
                    0 <= x < n ==> #[trigger] self.corner_to_vertex@[x] == if on_merge_walk(
                        opp,
                        start,
                        n + 2,
                        x,
                    ) {
                        vert_p
                    } else {
                        old_ctv[x]
                    },
            decreases max_iters - iters,
        {
            let ghost before = iters;
            let ghost c_old = c as int;
            proof {
                assert forall|x: int|
                    on_merge_walk(opp, start, before + 1, x) == (on_merge_walk(
                        opp,
                        start,
                        before as int,
                        x,
                    ) || x == c) by {
                    if on_merge_walk(opp, start, before + 1, x) {
                        let k = choose|k: nat|
                            k < before + 1 && #[trigger] merge_walk(opp, start, k) == Some(x);
                        if k < before {
                        } else {
                            assert(k == before);
                        }
                    }
                    if x == c {
                        assert(merge_walk(opp, start, before as nat) == Some(x));
                    }
                }
            }
            self.corner_to_vertex.set(c, vert_p);
            iters = iters + 1;
            if iters > max_iters {
                break;
            }
            assert(merge_walk(opp, start, before as nat) == Some(c_old));
            assert(merge_walk(opp, start, iters as nat) == match swing_left_spec(opp, c_old) {
                Some(m) => if m == start {
                    None
                } else {
                    Some(m)
                },
                None => None,
            });
            proof {
                lemma_next_in_table(c as int, n as int);
            }
            let nxt = next(c);
            let o = self.opposite[nxt];
            if o == NO_CORNER {
                proof {
                    assert(swing_left_spec(opp, c_old) is None);
                    assert(merge_walk(opp, start, iters as nat) is None);
                    lemma_merge_walk_stopped(opp, start, iters as nat, (n + 2) as nat);
                    assert forall|x: int|
                        on_merge_walk(opp, start, n + 2, x) == on_merge_walk(
                            opp,
                            start,
                            iters as int,
                            x,
                        ) by {
                        if on_merge_walk(opp, start, n + 2, x) {
                            let k = choose|k: nat|
                                k < n + 2 && #[trigger] merge_walk(opp, start, k) == Some(x);
                            if k >= iters {
                                lemma_merge_walk_stopped(opp, start, iters as nat, k);
                            }
                        }
                    }
                }
                break;
            }
            proof {
                lemma_next_in_table(o as int, n as int);
            }
            let nn = next(o);
            assert(swing_left_spec(opp, c_old) == Some(nn as int));
            if nn == start_corner {
                proof {
                    assert(merge_walk(opp, start, iters as nat) is None);
                    assert forall|x: int|
                        on_merge_walk(opp, start, n + 2, x) == on_merge_walk(
                            opp,
                            start,
                            iters as int,
                            x,
                        ) by {
                        if on_merge_walk(opp, start, n + 2, x) {
                            let k = choose|k: nat|
                                k < n + 2 && #[trigger] merge_walk(opp, start, k) == Some(x);
                            if k >= iters {
                                lemma_merge_walk_stopped(opp, start, iters as nat, k);
                            }
                        }
                    }
                }
                break;
            }
            c = nn;
            assert(merge_walk(opp, start, iters as nat) == Some(c as int));
        }
        self.left_most_corner.set(vert_n, NO_CORNER);
    }

    /// The survivor at the end of `v`'s alias chain.
    pub fn resolve_alias(&self, v: usize) -> (r: usize)
        requires
            chains_end(self.vertex_alias@),
        ensures
            r == resolve_spec(self.vertex_alias@, v as int),
            is_survivor(self.vertex_alias@, r as int),
    {
        let ghost alias = self.vertex_alias@;
        assert(reaches_survivor(alias, v as int));
        let ghost n0: nat = choose|n: nat| is_survivor(alias, #[trigger] follow(alias, v as int, n));
        proof {
            lemma_resolve_is(alias, v as int, n0);
        }
        let ghost mut n: nat = n0;
        let mut cur = v;
        while cur < self.vertex_alias.len() && self.vertex_alias[cur] != usize::MAX
            invariant
                alias == self.vertex_alias@,
                is_survivor(alias, follow(alias, cur as int, n)),
                resolve_spec(alias, v as int) == follow(alias, cur as int, n),
            decreases n,
        {
            assert(n > 0);
            cur = self.vertex_alias[cur];
            proof {
                n = (n - 1) as nat;
            }
        }
        cur
    }

    /// Replaces every alias by the survivor at the end of its chain, so
    /// that resolving afterwards takes at most one hop.
    pub fn compress_alias_chains(&mut self)
        requires
            chains_end(old(self).vertex_alias@),
        ensures
            final(self).vertex_alias@ == flatten(old(self).vertex_alias@),
            chains_end(final(self).vertex_alias@),
            final(self).opposite == old(self).opposite,
            final(self).corner_to_vertex == old(self).corner_to_vertex,
            final(self).left_most_corner == old(self).left_most_corner,
            final(self).num_vertices == old(self).num_vertices,
    {
        let ghost alias = self.vertex_alias@;
        let n = self.vertex_alias.len();
        let mut i: usize = 0;
        while i < n
            invariant
                n == alias.len(),
                self.vertex_alias@.len() == n,
                i <= n,
                chains_end(self.vertex_alias@),
                forall|v: int| #[trigger]
                    resolve_spec(self.vertex_alias@, v) == resolve_spec(alias, v),
                forall|j: int| 0 <= j < i ==> #[trigger] self.vertex_alias@[j] == flatten(alias)[j],
                forall|j: int| i <= j < n ==> #[trigger] self.vertex_alias@[j] == alias[j],
                self.opposite == old(self).opposite,
                self.corner_to_vertex == old(self).corner_to_vertex,
                self.left_most_corner == old(self).left_most_corner,
                self.num_vertices == old(self).num_vertices,
            decreases n - i,
        {
            if self.vertex_alias[i] != usize::MAX {
                let ghost cur = self.vertex_alias@;
                let t = self.resolve_alias(self.vertex_alias[i]);
                proof {
                    lemma_resolve_step(cur, i as int);
                    lemma_shortcut(cur, i as int, t);
                    assert(resolve_spec(cur, i as int) == resolve_spec(alias, i as int));
                }
                self.vertex_alias.set(i, t);
            }
            i = i + 1;
        }
        assert(self.vertex_alias@ =~= flatten(alias));
    }

    /// Records that `merged_out` was merged into `survivor`.
    pub fn record_alias(&mut self, merged_out: usize, survivor: usize)
        requires
            chains_end(old(self).vertex_alias@),
            merged_out < usize::MAX,
            survivor < usize::MAX,
            merged_out != survivor,
            is_survivor(old(self).vertex_alias@, merged_out as int),
            is_survivor(old(self).vertex_alias@, survivor as int),
        ensures
            final(self).vertex_alias@ == with_alias(
                old(self).vertex_alias@,
                merged_out as int,
                survivor,
            ),
            chains_end(final(self).vertex_alias@),
            forall|v: int| #[trigger]
                resolve_spec(final(self).vertex_alias@, v) == if resolve_spec(
                    old(self).vertex_alias@,
                    v,
                ) == merged_out {
                    survivor as int
                } else {
                    resolve_spec(old(self).vertex_alias@, v)
                },
            final(self).opposite == old(self).opposite,
            final(self).corner_to_vertex == old(self).corner_to_vertex,
            final(self).left_most_corner == old(self).left_most_corner,
            final(self).num_vertices == old(self).num_vertices,
    {
        let ghost alias = self.vertex_alias@;
        proof {
            lemma_record_alias(alias, merged_out as int, survivor);
        }
        while self.vertex_alias.len() <= merged_out
            invariant
                alias.len() <= self.vertex_alias@.len(),
                self.vertex_alias@.len() > alias.len() ==> self.vertex_alias@.len() <= merged_out + 1,
                forall|j: int| 0 <= j < alias.len() ==> #[trigger] self.vertex_alias@[j] == alias[j],
                forall|j: int|
                    alias.len() <= j < self.vertex_alias@.len() ==> #[trigger] self.vertex_alias@[j]
                        == usize::MAX,
                merged_out < usize::MAX,
                self.opposite == old(self).opposite,
                self.corner_to_vertex == old(self).corner_to_vertex,
                self.left_most_corner == old(self).left_most_corner,
                self.num_vertices == old(self).num_vertices,
            decreases merged_out + 1 - self.vertex_alias@.len(),
        {
            self.vertex_alias.push(usize::MAX);
        }
        self.vertex_alias.set(merged_out, survivor);
        assert(self.vertex_alias@ =~= with_alias(alias, merged_out as int, survivor));
    }
}

} // verus!
