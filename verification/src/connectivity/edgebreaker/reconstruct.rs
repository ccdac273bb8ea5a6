//! Corner-table reconstruction from the edgebreaker symbols: replays the
//! symbol stream over a stack of active corners (C/R/L/S/E), merging
//! vertices on S, closing start-face fans, and compacting isolated vertices.

use vstd::prelude::*;
use crate::connectivity::corner::{next, next_spec, previous, prev_spec, INVALID, lemma_corner_cycle};
use crate::connectivity::edgebreaker::traversal::{opposite_wf, Symbol, TopologySplit, TraversalDecoder};
use crate::error::DecodeError;

verus! {

/// The reconstructed connectivity.
pub struct Reconstruction {
    /// Per-corner opposite corner ([`INVALID`] on boundaries).
    pub opposite: Vec<usize>,
    /// Per-corner position vertex.
    pub corner_to_vertex: Vec<usize>,
    /// Left-most corner per position vertex ([`INVALID`] for isolated
    /// vertices).
    pub vertex_corners: Vec<usize>,
    /// Number of position vertices after isolated-vertex compaction.
    pub num_vertices: usize,
    /// Per-vertex boundary flag (indexed by the vertex id before compaction).
    pub is_vert_hole: Vec<bool>,
    /// Seed corners of each component, in the order start faces were
    /// resolved.
    pub init_corners: Vec<usize>,
}

/// The corner table under construction.
struct CornerTableBuilder {
    opposite: Vec<usize>,
    corner_to_vertex: Vec<usize>,
    vertex_corners: Vec<usize>,
}

/// The table is consistent once the corners below `built` are placed:
/// opposites pair up, placed corners name live vertices, unplaced corners
/// are untouched, and every left-most corner is placed.
spec fn builder_wf(ct: CornerTableBuilder, nc: nat, built: nat) -> bool {
    &&& ct.opposite@.len() == nc
    &&& ct.corner_to_vertex@.len() == nc
    &&& built <= nc
    &&& nc < usize::MAX / 4
    &&& nc % 3 == 0
    &&& opposite_wf(ct.opposite@)
    &&& forall|c: int| built <= c < nc ==> #[trigger] ct.opposite@[c] == INVALID
    &&& forall|c: int| built <= c < nc ==> #[trigger] ct.corner_to_vertex@[c] == INVALID
    &&& forall|c: int| 0 <= c < built ==> #[trigger] ct.corner_to_vertex@[c] < ct.vertex_corners@.len()
    &&& forall|v: int| 0 <= v < ct.vertex_corners@.len() ==> #[trigger] ct.vertex_corners@[v] == INVALID || ct.vertex_corners@[v] < built
}

/// Pairing two unpaired distinct corners keeps the opposite table
/// consistent.
proof fn lemma_pair(opp: Seq<usize>, a: int, b: int)
    requires
        opposite_wf(opp),
        0 <= a < opp.len(),
        0 <= b < opp.len(),
        a != b,
        opp[a] == INVALID,
        opp[b] == INVALID,
        opp.len() < INVALID,
    ensures
        opposite_wf(opp.update(a, b as usize).update(b, a as usize)),
{
    let o = opp.update(a, b as usize).update(b, a as usize);
    assert forall|c: int| 0 <= c < o.len() implies (#[trigger] o[c] == INVALID || (o[c] < o.len() && o[o[c] as int] == c && o[c] != c)) by {
        if c != a && c != b && opp[c] != INVALID {
            assert(opp[opp[c] as int] == c);
            assert(opp[c] != a && opp[c] != b);
        }
    }
}

impl CornerTableBuilder {
    /// Pairs corners `a` and `b` as opposites.
    fn set_opposite_corners(&mut self, a: usize, b: usize)
        requires
            opposite_wf(old(self).opposite@),
            a < old(self).opposite@.len(),
            b < old(self).opposite@.len(),
            a != b,
            old(self).opposite@[a as int] == INVALID,
            old(self).opposite@[b as int] == INVALID,
            old(self).opposite@.len() < INVALID,
        ensures
            final(self).opposite@ == old(self).opposite@.update(a as int, b).update(b as int, a),
            final(self).corner_to_vertex@ == old(self).corner_to_vertex@,
            final(self).vertex_corners@ == old(self).vertex_corners@,
            opposite_wf(final(self).opposite@),
    {
        proof {
            lemma_pair(self.opposite@, a as int, b as int);
        }
        self.opposite.set(a, b);
        self.opposite.set(b, a);
    }

    /// The left-most corner of `v`, if `v` is not isolated.
    fn left_most_corner(&self, v: usize) -> (r: Option<usize>)
        requires
            v < self.vertex_corners@.len(),
        ensures
            r == (if self.vertex_corners@[v as int] == INVALID {
                None
            } else {
                Some(self.vertex_corners@[v as int])
            }),
    {
        let c = self.vertex_corners[v];
        if c == INVALID {
            None
        } else {
            Some(c)
        }
    }

    /// The corner reached by swinging left around `c`'s vertex, if the edge
    /// crossed is not a boundary.
    fn swing_left(&self, c: usize) -> (r: Option<usize>)
        requires
            c < self.opposite@.len(),
            self.opposite@.len() % 3 == 0,
            self.opposite@.len() < usize::MAX / 4,
            opposite_wf(self.opposite@),
        ensures
            r matches Some(d) ==> d < self.opposite@.len(),
            r == (if self.opposite@[next_spec(c as int)] == INVALID {
                None
            } else {
                Some(next_spec(self.opposite@[next_spec(c as int)] as int) as usize)
            }),
    {
        proof {
            lemma_corner_cycle(c as int);
            assert(next_spec(c as int) / 3 == (c as int) / 3);
        }
        let o = self.opposite[next(c)];
        if o == INVALID {
            None
        } else {
            proof {
                lemma_corner_cycle(o as int);
            }
            Some(next(o))
        }
    }

    /// The corner reached by swinging right around `c`'s vertex, if the edge
    /// crossed is not a boundary.
    fn swing_right(&self, c: usize) -> (r: Option<usize>)
        requires
            c < self.opposite@.len(),
            self.opposite@.len() % 3 == 0,
            self.opposite@.len() < usize::MAX / 4,
            opposite_wf(self.opposite@),
        ensures
            r matches Some(d) ==> d < self.opposite@.len(),
            r == (if self.opposite@[prev_spec(c as int)] == INVALID {
                None
            } else {
                Some(prev_spec(self.opposite@[prev_spec(c as int)] as int) as usize)
            }),
    {
        proof {
            lemma_corner_cycle(c as int);
        }
        let o = self.opposite[previous(c)];
        if o == INVALID {
            None
        } else {
            proof {
                lemma_corner_cycle(o as int);
            }
            Some(previous(o))
        }
    }
}

/// Places a `C` face: it closes the gap between the active corner `a` and
/// the corner after the left-most corner of `a`'s next vertex. Returns the
/// vertex the face closes over.
fn place_c(ct: &mut CornerTableBuilder, a: usize, c0: usize, nc: Ghost<nat>) -> (r: Result<usize, DecodeError>)
    requires
        builder_wf(*old(ct), nc@, c0 as nat),
        c0 % 3 == 0,
        c0 + 3 <= nc@,
        a < c0,
    ensures
        final(ct).vertex_corners@.len() == old(ct).vertex_corners@.len(),
        r matches Ok(v) ==> (builder_wf(*final(ct), nc@, (c0 + 3) as nat) && v < final(ct).vertex_corners@.len()),
        ({
            let o = *old(ct);
            let x = o.corner_to_vertex@[next_spec(a as int)];
            let ap = o.corner_to_vertex@[prev_spec(a as int)];
            let lmc = o.vertex_corners@[x as int];
            let b = next_spec(lmc as int);
            if lmc == INVALID || a == b || o.opposite@[a as int] != INVALID || o.opposite@[b] != INVALID
                || x == o.corner_to_vertex@[next_spec(b)] || x == ap {
                r == Err::<usize, DecodeError>(DecodeError::MalformedConnectivity("invalid edgebreaker symbol stream"))
            } else {
                let bn = o.corner_to_vertex@[next_spec(b)];
                &&& r == Ok::<usize, DecodeError>(x)
                &&& final(ct).opposite@ == o.opposite@.update(a as int, (c0 + 1) as usize).update(c0 + 1, a).update(
                    b,
                    (c0 + 2) as usize,
                ).update(c0 + 2, b as usize)
                &&& final(ct).corner_to_vertex@ == o.corner_to_vertex@.update(c0 as int, x).update(c0 + 1, bn).update(c0 + 2, ap)
                &&& final(ct).vertex_corners@ == o.vertex_corners@.update(ap as int, (c0 + 2) as usize)
            }
        }),
{
    proof {
        lemma_corner_cycle(a as int);
        assert((a as int) / 3 < (c0 as int) / 3);
    }
    let vertex_x = ct.corner_to_vertex[next(a)];
    let vert_a_prev = ct.corner_to_vertex[previous(a)];
    let lmc = match ct.left_most_corner(vertex_x) {
        Some(c) => c,
        None => return Err(DecodeError::MalformedConnectivity("invalid edgebreaker symbol stream")),
    };
    proof {
        lemma_corner_cycle(lmc as int);
        assert((lmc as int) / 3 < (c0 as int) / 3);
    }
    let b = next(lmc);
    if a == b {
        return Err(DecodeError::MalformedConnectivity("invalid edgebreaker symbol stream"));
    }
    proof {
        lemma_corner_cycle(b as int);
    }
    if ct.opposite[a] != INVALID || ct.opposite[b] != INVALID {
        return Err(DecodeError::MalformedConnectivity("invalid edgebreaker symbol stream"));
    }
    proof {
        lemma_corner_cycle(b as int);
    }
    let vert_b_next = ct.corner_to_vertex[next(b)];
    if vertex_x == vert_a_prev || vertex_x == vert_b_next {
        return Err(DecodeError::MalformedConnectivity("invalid edgebreaker symbol stream"));
    }
    ct.set_opposite_corners(a, c0 + 1);
    ct.set_opposite_corners(b, c0 + 2);
    ct.corner_to_vertex.set(c0, vertex_x);
    ct.corner_to_vertex.set(c0 + 1, vert_b_next);
    ct.corner_to_vertex.set(c0 + 2, vert_a_prev);
    ct.vertex_corners.set(vert_a_prev, c0 + 2);
    Ok(vertex_x)
}

/// Places an `R` (`is_r`) or `L` face on the active corner `a`, with one new
/// vertex opposite `a`.
fn place_rl(ct: &mut CornerTableBuilder, a: usize, c0: usize, is_r: bool, max_num_vertices: usize, nc: Ghost<nat>) -> (r: Result<(), DecodeError>)
    requires
        builder_wf(*old(ct), nc@, c0 as nat),
        c0 % 3 == 0,
        c0 + 3 <= nc@,
        a < c0,
        old(ct).vertex_corners@.len() <= max_num_vertices,
    ensures
        r is Ok ==> builder_wf(*final(ct), nc@, (c0 + 3) as nat),
        final(ct).vertex_corners@.len() <= max_num_vertices,
        final(ct).vertex_corners@.len() >= old(ct).vertex_corners@.len(),
        ({
            let o = *old(ct);
            let vn = o.corner_to_vertex@[next_spec(a as int)];
            let vp = o.corner_to_vertex@[prev_spec(a as int)];
            let (opp_corner, corner_l, corner_r) = if is_r {
                (c0 + 2, c0 + 1, c0 + 0)
            } else {
                (c0 + 1, c0 + 0, c0 + 2)
            };
            let nv = o.vertex_corners@.len();
            if o.opposite@[a as int] != INVALID || nv >= max_num_vertices {
                r == Err::<(), DecodeError>(DecodeError::MalformedConnectivity("invalid edgebreaker symbol stream"))
            } else {
                &&& r is Ok
                &&& final(ct).opposite@ == o.opposite@.update(opp_corner, a).update(a as int, opp_corner as usize)
                &&& final(ct).corner_to_vertex@ == o.corner_to_vertex@.update(opp_corner, nv as usize).update(
                    corner_r,
                    vp,
                ).update(corner_l, vn)
                &&& final(ct).vertex_corners@ == o.vertex_corners@.push(opp_corner as usize).update(vp as int, corner_r as usize)
            }
        }),
{
    proof {
        lemma_corner_cycle(a as int);
        assert((a as int) / 3 < (c0 as int) / 3);
    }
    if ct.opposite[a] != INVALID {
        return Err(DecodeError::MalformedConnectivity("invalid edgebreaker symbol stream"));
    }
    let v_next_a = ct.corner_to_vertex[next(a)];
    let v_prev_a = ct.corner_to_vertex[previous(a)];
    let (opp_corner, corner_l, corner_r) = if is_r {
        (c0 + 2, c0 + 1, c0)
    } else {
        (c0 + 1, c0, c0 + 2)
    };
    if ct.vertex_corners.len() >= max_num_vertices {
        return Err(DecodeError::MalformedConnectivity("invalid edgebreaker symbol stream"));
    }
    ct.set_opposite_corners(opp_corner, a);
    let new_vert = ct.vertex_corners.len();
    ct.vertex_corners.push(opp_corner);
    ct.corner_to_vertex.set(opp_corner, new_vert);
    ct.corner_to_vertex.set(corner_r, v_prev_a);
    ct.vertex_corners.set(v_prev_a, corner_r);
    ct.corner_to_vertex.set(corner_l, v_next_a);
    Ok(())
}

/// Places an `E` face: three new vertices.
fn place_e(ct: &mut CornerTableBuilder, c0: usize, max_num_vertices: usize, nc: Ghost<nat>) -> (r: Result<(), DecodeError>)
    requires
        builder_wf(*old(ct), nc@, c0 as nat),
        c0 % 3 == 0,
        c0 + 3 <= nc@,
        old(ct).vertex_corners@.len() <= max_num_vertices,
    ensures
        r is Ok ==> builder_wf(*final(ct), nc@, (c0 + 3) as nat),
        final(ct).vertex_corners@.len() <= max_num_vertices,
        final(ct).vertex_corners@.len() >= old(ct).vertex_corners@.len(),
        ({
            let o = *old(ct);
            let first = o.vertex_corners@.len();
            if max_num_vertices - first < 3 {
                r == Err::<(), DecodeError>(DecodeError::MalformedConnectivity("invalid edgebreaker symbol stream"))
            } else {
                &&& r is Ok
                &&& final(ct).opposite@ == o.opposite@
                &&& final(ct).corner_to_vertex@ == o.corner_to_vertex@.update(c0 as int, first as usize).update(
                    c0 + 1,
                    (first + 1) as usize,
                ).update(c0 + 2, (first + 2) as usize)
                &&& final(ct).vertex_corners@ == o.vertex_corners@ + seq![c0, (c0 + 1) as usize, (c0 + 2) as usize]
            }
        }),
{
    if max_num_vertices - ct.vertex_corners.len() < 3 {
        return Err(DecodeError::MalformedConnectivity("invalid edgebreaker symbol stream"));
    }
    let first = ct.vertex_corners.len();
    ct.vertex_corners.push(c0);
    ct.vertex_corners.push(c0 + 1);
    ct.vertex_corners.push(c0 + 2);
    ct.corner_to_vertex.set(c0, first);
    ct.corner_to_vertex.set(c0 + 1, first + 1);
    ct.corner_to_vertex.set(c0 + 2, first + 2);
    Ok(())
}

/// The corners around a vertex from `c` on, walked counter-clockwise until
/// a boundary edge ends the fan: `None` where the walk comes back to `first`
/// or runs past `fuel` steps.
pub open spec fn left_walk(opp: Seq<usize>, c: int, first: int, fuel: nat) -> Option<Seq<usize>>
    decreases fuel,
{
    let o = opp[next_spec(c)];
    if o == INVALID {
        Some(seq![c as usize])
    } else {
        let d = next_spec(o as int);
        if d == first || fuel == 0 {
            None
        } else {
            prefixed(seq![c as usize], left_walk(opp, d, first, (fuel - 1) as nat))
        }
    }
}

/// The opposite table after an `S` face at `c0` joins the active corners
/// `a` and `b`.
pub open spec fn s_opposite(o: Seq<usize>, a: int, b: int, c0: int) -> Seq<usize> {
    o.update(a, (c0 + 2) as usize).update(c0 + 2, a as usize).update(b, (c0 + 1) as usize).update(
        c0 + 1,
        b as usize,
    )
}

/// The corner vertices after an `S` face at `c0` takes its vertices from
/// around `a` and `b`.
pub open spec fn s_corner_vertices(v: Seq<usize>, a: int, b: int, c0: int) -> Seq<usize> {
    v.update(c0, v[prev_spec(a)]).update(c0 + 1, v[next_spec(a)]).update(c0 + 2, v[prev_spec(b)])
}

/// The left-most corners after an `S` face at `c0` gives the vertex before
/// `b` its corner `c0 + 2`.
spec fn s_vertex_corners(o: CornerTableBuilder, b: int, c0: int) -> Seq<usize> {
    o.vertex_corners@.update(o.corner_to_vertex@[prev_spec(b)] as int, (c0 + 2) as usize)
}

/// Whether an `S` face between `a` and `b` is refused before its fan is
/// walked: the corners coincide or already have opposites, or the vertex
/// after `b` has no corner.
spec fn s_rejects(o: CornerTableBuilder, a: int, b: int, c0: int) -> bool {
    a == b || o.opposite@[a] != INVALID || o.opposite@[b] != INVALID || s_vertex_corners(o, b, c0)[o.corner_to_vertex@[next_spec(b)] as int] == INVALID
}

/// `w` behind `v`, where there is a `w`.
pub open spec fn prefixed(v: Seq<usize>, w: Option<Seq<usize>>) -> Option<Seq<usize>> {
    match w {
        Some(w) => Some(v + w),
        None => None,
    }
}

/// Places an `S` face between the active corners `a` (below) and `b` (the
/// popped one), merging the vertex after `b` into the vertex before `a`.
/// Returns the merged-away vertex, now isolated.
fn place_s<T: TraversalDecoder>(
    ct: &mut CornerTableBuilder,
    traversal: &mut T,
    a: usize,
    b: usize,
    c0: usize,
    nc: Ghost<nat>,
) -> (r: Result<usize, DecodeError>)
    requires
        builder_wf(*old(ct), nc@, c0 as nat),
        c0 % 3 == 0,
        c0 + 3 <= nc@,
        a < c0,
        b < c0,
        old(traversal).inv(),
        old(traversal).vertex_capacity() >= old(ct).vertex_corners@.len(),
    ensures
        final(ct).vertex_corners@.len() == old(ct).vertex_corners@.len(),
        final(traversal).inv(),
        final(traversal).vertex_capacity() == old(traversal).vertex_capacity(),
        final(traversal).num_streams() == old(traversal).num_streams(),
        final(traversal).symbol_log() == old(traversal).symbol_log(),
        final(traversal).config_log() == old(traversal).config_log(),
        final(traversal).origin() == old(traversal).origin(),
        final(traversal).seam_states() == old(traversal).seam_states(),
        r matches Ok(v) ==> (builder_wf(*final(ct), nc@, (c0 + 3) as nat) && v < final(ct).vertex_corners@.len()),
        ({
            let o = *old(ct);
            let vp = o.corner_to_vertex@[prev_spec(a as int)];
            let vn = o.corner_to_vertex@[next_spec(b as int)];
            let vc1 = s_vertex_corners(o, b as int, c0 as int);
            if s_rejects(o, a as int, b as int, c0 as int) {
                r == Err::<usize, DecodeError>(
                    DecodeError::MalformedConnectivity("invalid edgebreaker symbol stream"),
                )
            } else {
                match left_walk(
                    s_opposite(o.opposite@, a as int, b as int, c0 as int),
                    next_spec(b as int),
                    next_spec(b as int),
                    nc@,
                ) {
                    None => r == Err::<usize, DecodeError>(
                        DecodeError::MalformedConnectivity("invalid edgebreaker symbol stream"),
                    ),
                    Some(w) => {
                        &&& r == Ok::<usize, DecodeError>(vn)
                        &&& final(ct).opposite@ == s_opposite(o.opposite@, a as int, b as int, c0 as int)
                        &&& final(ct).vertex_corners@ == vc1.update(vp as int, vc1[vn as int]).update(
                            vn as int,
                            INVALID,
                        )
                        &&& final(ct).corner_to_vertex@.len() == o.corner_to_vertex@.len()
                        &&& forall|k: int|
                            0 <= k < o.corner_to_vertex@.len() ==> #[trigger] final(ct).corner_to_vertex@[k]
                                == if w.contains(k as usize) {
                                vp
                            } else {
                                s_corner_vertices(o.corner_to_vertex@, a as int, b as int, c0 as int)[k]
                            }
                    },
                }
            }
        }),
{
    proof {
        lemma_corner_cycle(a as int);
        lemma_corner_cycle(b as int);
        assert((a as int) / 3 < (c0 as int) / 3);
        assert((b as int) / 3 < (c0 as int) / 3);
    }
    if a == b {
        return Err(DecodeError::MalformedConnectivity("invalid edgebreaker symbol stream"));
    }
    if ct.opposite[a] != INVALID || ct.opposite[b] != INVALID {
        return Err(DecodeError::MalformedConnectivity("invalid edgebreaker symbol stream"));
    }
    ct.set_opposite_corners(a, c0 + 2);
    ct.set_opposite_corners(b, c0 + 1);
    let vertex_p = ct.corner_to_vertex[previous(a)];
    let vertex_a_next = ct.corner_to_vertex[next(a)];
    ct.corner_to_vertex.set(c0, vertex_p);
    ct.corner_to_vertex.set(c0 + 1, vertex_a_next);
    let vert_b_prev = ct.corner_to_vertex[previous(b)];
    ct.corner_to_vertex.set(c0 + 2, vert_b_prev);
    ct.vertex_corners.set(vert_b_prev, c0 + 2);
    let corner_n = next(b);
    let vertex_n = ct.corner_to_vertex[corner_n];
    traversal.merge_vertices(vertex_p, vertex_n);
    let vertex_n_corner = match ct.left_most_corner(vertex_n) {
        Some(c) => c,
        None => return Err(DecodeError::MalformedConnectivity("invalid edgebreaker symbol stream")),
    };
    ct.vertex_corners.set(vertex_p, vertex_n_corner);
    let ghost built = (c0 + 3) as nat;
    assert(builder_wf(*ct, nc@, built));
    let num_corners = ct.opposite.len();
    let first = corner_n;
    let mut c = corner_n;
    let mut steps: usize = 0;
    let ghost opp1 = ct.opposite@;
    let ghost c2v1 = ct.corner_to_vertex@;
    let ghost vc2 = ct.vertex_corners@;
    proof {
        let o = *old(ct);
        assert(opp1 == s_opposite(o.opposite@, a as int, b as int, c0 as int));
        assert(c2v1 =~= s_corner_vertices(o.corner_to_vertex@, a as int, b as int, c0 as int));
        assert(first == next_spec(b as int));
        assert(!s_rejects(o, a as int, b as int, c0 as int));
    }
    let mut failed = false;
    let ghost total = left_walk(opp1, first as int, first as int, nc@);
    let ghost mut visited: Seq<usize> = Seq::empty();
    proof {
        assert(total == prefixed(visited, total)) by {
            if total is Some {
                assert(visited + total->Some_0 =~= total->Some_0);
            }
        }
    }
    loop
        invariant_except_break
            total == prefixed(visited, left_walk(opp1, c as int, first as int, (num_corners - steps) as nat)),
            !failed,
        invariant
            ct.opposite@ == opp1,
            ct.vertex_corners@ == vc2,
            ct.corner_to_vertex@.len() == c2v1.len(),
            forall|k: int|
                0 <= k < c2v1.len() ==> #[trigger] ct.corner_to_vertex@[k] == if visited.contains(k as usize) {
                    vertex_p
                } else {
                    c2v1[k]
                },
            total == left_walk(opp1, first as int, first as int, nc@),
            builder_wf(*ct, nc@, built),
            built == c0 + 3,
            c0 % 3 == 0,
            c0 + 3 <= nc@,
            num_corners == nc@,
            nc@ % 3 == 0,
            c < built,
            vertex_p < ct.vertex_corners@.len(),
            vertex_n < ct.vertex_corners@.len(),
            ct.vertex_corners@.len() == old(ct).vertex_corners@.len(),
            steps <= num_corners,
            traversal.inv(),
            traversal.vertex_capacity() == old(traversal).vertex_capacity(),
            traversal.num_streams() == old(traversal).num_streams(),
            traversal.symbol_log() == old(traversal).symbol_log(),
            traversal.config_log() == old(traversal).config_log(),
            traversal.origin() == old(traversal).origin(),
            traversal.seam_states() == old(traversal).seam_states(),
        ensures
            failed ==> total is None,
            !failed ==> total == Some(visited),
        decreases num_corners - steps,
    {
        ct.corner_to_vertex.set(c, vertex_p);
        let ghost vbefore = visited;
        proof {
            visited = visited.push(c);
            assert forall|k: int| 0 <= k < c2v1.len() implies #[trigger] ct.corner_to_vertex@[k] == if visited.contains(
                k as usize,
            ) {
                vertex_p
            } else {
                c2v1[k]
            } by {
                vstd::seq_lib::lemma_seq_contains_after_push(vbefore, c, k as usize);
            }
        }
        match ct.swing_left(c) {
            None => {
                proof {
                    assert(vbefore + seq![c] =~= visited);
                }
                break;
            },
            Some(d) => {
                if d == first || steps == num_corners {
                    failed = true;
                    break;
                }
                proof {
                    let rest = left_walk(opp1, d as int, first as int, (num_corners - steps - 1) as nat);
                    if rest is Some {
                        assert(vbefore + (seq![c] + rest->Some_0) =~= visited + rest->Some_0);
                    }
                }
                proof {
                    lemma_corner_cycle(c as int);
                    let o = ct.opposite@[next_spec(c as int)];
                    assert(next_spec(c as int) / 3 == (c as int) / 3);
                    assert(o != INVALID);
                    assert(ct.opposite@[o as int] == next_spec(c as int));
                    assert(o < built);
                    lemma_corner_cycle(o as int);
                    assert((o as int) / 3 < (built as int) / 3);
                    assert(d < built);
                }
                steps = steps + 1;
                c = d;
            },
        }
    }
    if failed {
        return Err(DecodeError::MalformedConnectivity("invalid edgebreaker symbol stream"));
    }
    ct.vertex_corners.set(vertex_n, INVALID);
    Ok(vertex_n)
}

/// Every corner in `s` lies below `bound`.
pub open spec fn all_below(s: Seq<usize>, bound: nat) -> bool {
    forall|i: int| 0 <= i < s.len() ==> #[trigger] s[i] < bound
}

/// Every entry of `s` is [`INVALID`] or lies below `bound`.
pub open spec fn invalid_or_below(s: Seq<usize>, bound: nat) -> bool {
    forall|i: int| 0 <= i < s.len() ==> #[trigger] s[i] == INVALID || s[i] < bound
}

/// The consistency of a reconstruction over `num_faces` faces with at most
/// `max_num_vertices` vertices: the opposite table pairs corners up, every
/// corner names a vertex of the table, every left-most corner and seed
/// corner is a corner of the table.
pub open spec fn reconstruction_wf(rec: Reconstruction, num_faces: nat, max_num_vertices: nat) -> bool {
    &&& rec.opposite@.len() == 3 * num_faces
    &&& rec.corner_to_vertex@.len() == 3 * num_faces
    &&& opposite_wf(rec.opposite@)
    &&& all_below(rec.corner_to_vertex@, rec.vertex_corners@.len())
    &&& invalid_or_below(rec.vertex_corners@, 3 * num_faces)
    &&& rec.vertex_corners@.len() <= max_num_vertices
    &&& rec.num_vertices <= rec.vertex_corners@.len()
    &&& rec.is_vert_hole@.len() == max_num_vertices
    &&& all_below(rec.init_corners@, 3 * num_faces)
}

/// A vector of `n` copies of `x`.
fn filled<X: Copy>(n: usize, x: X) -> (v: Vec<X>)
    ensures
        v@.len() == n,
        forall|i: int| 0 <= i < n ==> #[trigger] v@[i] == x,
{
    let mut v: Vec<X> = Vec::new();
    let mut i: usize = 0;
    while i < n
        invariant
            i <= n,
            v@.len() == i,
            forall|j: int| 0 <= j < i ==> #[trigger] v@[j] == x,
        decreases n - i,
    {
        v.push(x);
        i += 1;
    }
    v
}

/// Closes a start face on the active corner `corner` as the new face at
/// `c0`. Returns the face's three vertices.
fn place_start_face(ct: &mut CornerTableBuilder, corner: usize, c0: usize, nc: Ghost<nat>) -> (r: Result<(usize, usize, usize), DecodeError>)
    requires
        builder_wf(*old(ct), nc@, c0 as nat),
        c0 % 3 == 0,
        c0 + 3 <= nc@,
        corner < c0,
    ensures
        final(ct).vertex_corners@.len() == old(ct).vertex_corners@.len(),
        r matches Ok((x, y, z)) ==> (builder_wf(*final(ct), nc@, (c0 + 3) as nat) && x < final(ct).vertex_corners@.len()
            && y < final(ct).vertex_corners@.len() && z < final(ct).vertex_corners@.len()),
        ({
            let o = *old(ct);
            let vn = o.corner_to_vertex@[next_spec(corner as int)];
            let lb = o.vertex_corners@[vn as int];
            let cb = next_spec(lb as int);
            let vx = o.corner_to_vertex@[next_spec(cb)];
            let lc = o.vertex_corners@[vx as int];
            let cc = next_spec(lc as int);
            if lb == INVALID || lc == INVALID || corner == cb || corner == cc || cb == cc || o.opposite@[corner as int]
                != INVALID || o.opposite@[cb] != INVALID || o.opposite@[cc] != INVALID {
                r == Err::<(usize, usize, usize), DecodeError>(
                    DecodeError::MalformedConnectivity("invalid edgebreaker symbol stream"),
                )
            } else {
                let vp = o.corner_to_vertex@[next_spec(cc)];
                &&& r == Ok::<(usize, usize, usize), DecodeError>((vx, vp, vn))
                &&& final(ct).opposite@ == o.opposite@.update(c0 as int, corner).update(corner as int, c0).update(
                    c0 + 1,
                    cb as usize,
                ).update(cb, (c0 + 1) as usize).update(c0 + 2, cc as usize).update(cc, (c0 + 2) as usize)
                &&& final(ct).corner_to_vertex@ == o.corner_to_vertex@.update(c0 as int, vx).update(c0 + 1, vp).update(
                    c0 + 2,
                    vn,
                )
                &&& final(ct).vertex_corners@ == o.vertex_corners@
            }
        }),
{
    proof {
        lemma_corner_cycle(corner as int);
        assert((corner as int) / 3 < (c0 as int) / 3);
    }
    let vert_n = ct.corner_to_vertex[next(corner)];
    let lb = match ct.left_most_corner(vert_n) {
        Some(c) => c,
        None => return Err(DecodeError::MalformedConnectivity("invalid edgebreaker symbol stream")),
    };
    proof {
        lemma_corner_cycle(lb as int);
        assert((lb as int) / 3 < (c0 as int) / 3);
    }
    let corner_b = next(lb);
    proof {
        lemma_corner_cycle(corner_b as int);
    }
    let vert_x = ct.corner_to_vertex[next(corner_b)];
    let lc = match ct.left_most_corner(vert_x) {
        Some(c) => c,
        None => return Err(DecodeError::MalformedConnectivity("invalid edgebreaker symbol stream")),
    };
    proof {
        lemma_corner_cycle(lc as int);
        assert((lc as int) / 3 < (c0 as int) / 3);
    }
    let corner_c = next(lc);
    proof {
        lemma_corner_cycle(corner_c as int);
    }
    if corner == corner_b || corner == corner_c || corner_b == corner_c {
        return Err(DecodeError::MalformedConnectivity("invalid edgebreaker symbol stream"));
    }
    if ct.opposite[corner] != INVALID || ct.opposite[corner_b] != INVALID || ct.opposite[corner_c] != INVALID {
        return Err(DecodeError::MalformedConnectivity("invalid edgebreaker symbol stream"));
    }
    let vert_p = ct.corner_to_vertex[next(corner_c)];
    ct.set_opposite_corners(c0, corner);
    ct.set_opposite_corners(c0 + 1, corner_b);
    ct.set_opposite_corners(c0 + 2, corner_c);
    ct.corner_to_vertex.set(c0, vert_x);
    ct.corner_to_vertex.set(c0 + 1, vert_p);
    ct.corner_to_vertex.set(c0 + 2, vert_n);
    Ok((vert_x, vert_p, vert_n))
}

/// The corners met walking right around a vertex from corner `c` of
/// opposite table `opp`: `c`, then on until a boundary, the corner `start`
/// again, or `fuel` further steps.
pub open spec fn walk_right(opp: Seq<usize>, c: int, start: int, fuel: nat) -> Seq<usize>
    decreases fuel,
{
    let o = opp[prev_spec(c)];
    seq![c as usize] + if o == INVALID {
        Seq::empty()
    } else {
        let d = prev_spec(o as int);
        if d == start || fuel == 0 {
            Seq::empty()
        } else {
            walk_right(opp, d, start, (fuel - 1) as nat)
        }
    }
}

/// The corners around vertex `v`, walked clockwise from its left-most
/// corner; at most one lap.
fn corners_around(ct: &CornerTableBuilder, v: usize, nc: Ghost<nat>) -> (out: Vec<usize>)
    requires
        builder_wf(*ct, nc@, nc@),
        v < ct.vertex_corners@.len(),
    ensures
        all_below(out@, nc@),
        out@ == if ct.vertex_corners@[v as int] == INVALID {
            Seq::<usize>::empty()
        } else {
            walk_right(ct.opposite@, ct.vertex_corners@[v as int] as int, ct.vertex_corners@[v as int] as int, nc@)
        },
{
    let mut out: Vec<usize> = Vec::new();
    let start = match ct.left_most_corner(v) {
        Some(c) => c,
        None => return out,
    };
    let num_corners = ct.opposite.len();
    let ghost total = walk_right(ct.opposite@, start as int, start as int, nc@);
    let mut c = start;
    let mut steps: usize = 0;
    proof {
        assert(out@ + total =~= total);
    }
    loop
        invariant_except_break
            out@ + walk_right(ct.opposite@, c as int, start as int, (num_corners - steps) as nat) == total,
        invariant
            builder_wf(*ct, nc@, nc@),
            num_corners == nc@,
            c < nc@,
            all_below(out@, nc@),
            steps <= num_corners,
            total == walk_right(ct.opposite@, start as int, start as int, nc@),
        ensures
            all_below(out@, nc@),
            out@ == total,
        decreases num_corners - steps,
    {
        let ghost before = out@;
        out.push(c);
        proof {
            lemma_corner_cycle(c as int);
        }
        match ct.swing_right(c) {
            None => {
                proof {
                    assert(out@ =~= before + walk_right(ct.opposite@, c as int, start as int, (num_corners - steps) as nat));
                }
                break;
            },
            Some(d) => {
                if d == start || steps == num_corners {
                    proof {
                        assert(out@ =~= before + walk_right(ct.opposite@, c as int, start as int, (num_corners - steps) as nat));
                    }
                    break;
                }
                proof {
                    assert(before + walk_right(ct.opposite@, c as int, start as int, (num_corners - steps) as nat)
                        =~= out@ + walk_right(ct.opposite@, d as int, start as int, (num_corners - steps - 1) as nat));
                }
                steps += 1;
                c = d;
            },
        }
    }
    out
}

/// Moves the last non-isolated vertices into the slots that S symbols left
/// isolated, so that the live vertices come first.
fn compact_vertices(ct: &mut CornerTableBuilder, invalid_vertices: &Vec<usize>, is_vert_hole: &mut Vec<bool>, nc: Ghost<nat>) -> (num_vertices: usize)
    requires
        builder_wf(*old(ct), nc@, nc@),
        all_below(invalid_vertices@, old(ct).vertex_corners@.len()),
        old(is_vert_hole)@.len() >= old(ct).vertex_corners@.len(),
    ensures
        builder_wf(*final(ct), nc@, nc@),
        final(ct).opposite@ == old(ct).opposite@,
        final(ct).vertex_corners@.len() == old(ct).vertex_corners@.len(),
        final(is_vert_hole)@.len() == old(is_vert_hole)@.len(),
        num_vertices <= final(ct).vertex_corners@.len(),
        forall|v: int|
            num_vertices <= v < final(ct).vertex_corners@.len() ==> #[trigger] final(ct).vertex_corners@[v]
                == INVALID,
        forall|q: int|
            0 <= q < invalid_vertices@.len() && #[trigger] invalid_vertices@[q] < num_vertices
                ==> final(ct).vertex_corners@[invalid_vertices@[q] as int] != INVALID,
{
    let mut num_vertices = ct.vertex_corners.len();
    let mut k: usize = 0;
    while k < invalid_vertices.len()
        invariant
            builder_wf(*ct, nc@, nc@),
            ct.opposite@ == old(ct).opposite@,
            ct.vertex_corners@.len() == old(ct).vertex_corners@.len(),
            all_below(invalid_vertices@, ct.vertex_corners@.len()),
            is_vert_hole@.len() == old(is_vert_hole)@.len(),
            is_vert_hole@.len() >= ct.vertex_corners@.len(),
            num_vertices <= ct.vertex_corners@.len(),
            k <= invalid_vertices@.len(),
            forall|v: int|
                num_vertices <= v < ct.vertex_corners@.len() ==> #[trigger] ct.vertex_corners@[v] == INVALID,
            forall|q: int|
                0 <= q < k && #[trigger] invalid_vertices@[q] < num_vertices
                    ==> ct.vertex_corners@[invalid_vertices@[q] as int] != INVALID,
        ensures
            builder_wf(*ct, nc@, nc@),
            ct.opposite@ == old(ct).opposite@,
            ct.vertex_corners@.len() == old(ct).vertex_corners@.len(),
            is_vert_hole@.len() == old(is_vert_hole)@.len(),
            num_vertices <= ct.vertex_corners@.len(),
            forall|v: int|
                num_vertices <= v < ct.vertex_corners@.len() ==> #[trigger] ct.vertex_corners@[v] == INVALID,
            forall|q: int|
                0 <= q < invalid_vertices@.len() && #[trigger] invalid_vertices@[q] < num_vertices
                    ==> ct.vertex_corners@[invalid_vertices@[q] as int] != INVALID,
        decreases invalid_vertices.len() - k,
    {
        let invalid_vert = invalid_vertices[k];
        let ghost nv0 = num_vertices;
        while num_vertices > 0 && ct.vertex_corners[num_vertices - 1] == INVALID
            invariant
                num_vertices <= nv0,
                nv0 <= ct.vertex_corners@.len(),
                forall|v: int|
                    num_vertices <= v < ct.vertex_corners@.len() ==> #[trigger] ct.vertex_corners@[v]
                        == INVALID,
            decreases num_vertices,
        {
            num_vertices -= 1;
        }
        if num_vertices == 0 {
            break;
        }
        let src_vert = num_vertices - 1;
        if src_vert >= invalid_vert {
            let corners = corners_around(ct, src_vert, nc);
            let ghost vc0 = ct.vertex_corners@;
            let mut j: usize = 0;
            while j < corners.len()
                invariant
                    builder_wf(*ct, nc@, nc@),
                    ct.opposite@ == old(ct).opposite@,
                    ct.vertex_corners@ == vc0,
                    ct.vertex_corners@.len() == old(ct).vertex_corners@.len(),
                    all_below(corners@, nc@),
                    invalid_vert < ct.vertex_corners@.len(),
                    j <= corners@.len(),
                decreases corners.len() - j,
            {
                ct.corner_to_vertex.set(corners[j], invalid_vert);
                j += 1;
            }
            let lmc = ct.vertex_corners[src_vert];
            ct.vertex_corners.set(invalid_vert, lmc);
            ct.vertex_corners.set(src_vert, INVALID);
            let h = is_vert_hole[src_vert];
            is_vert_hole.set(invalid_vert, h);
            is_vert_hole.set(src_vert, false);
            num_vertices -= 1;
        }
        k += 1;
    }
    num_vertices
}

/// The error a symbol stream that cannot be replayed gives.
pub open spec fn bad_stream() -> DecodeError {
    DecodeError::MalformedConnectivity("invalid edgebreaker symbol stream")
}

/// The tables after a `C` face at `c0` on the active corner `a`, with the
/// vertex it closes over; or the error.
pub open spec fn c_face(opp: Seq<usize>, c2v: Seq<usize>, vc: Seq<usize>, a: int, c0: int) -> Result<
    (Seq<usize>, Seq<usize>, Seq<usize>, usize),
    DecodeError,
> {
    let x = c2v[next_spec(a)];
    let ap = c2v[prev_spec(a)];
    let lmc = vc[x as int];
    let b = next_spec(lmc as int);
    if lmc == INVALID || a == b || opp[a] != INVALID || opp[b] != INVALID || x == c2v[next_spec(b)] || x == ap {
        Err(bad_stream())
    } else {
        Ok(
            (
                opp.update(a, (c0 + 1) as usize).update(c0 + 1, a as usize).update(b, (c0 + 2) as usize).update(
                    c0 + 2,
                    b as usize,
                ),
                c2v.update(c0, x).update(c0 + 1, c2v[next_spec(b)]).update(c0 + 2, ap),
                vc.update(ap as int, (c0 + 2) as usize),
                x,
            ),
        )
    }
}

/// The tables after an `R` (`is_r`) or `L` face at `c0` on the active
/// corner `a`, with one new vertex; or the error.
pub open spec fn rl_face(
    opp: Seq<usize>,
    c2v: Seq<usize>,
    vc: Seq<usize>,
    a: int,
    c0: int,
    is_r: bool,
    max_nv: nat,
) -> Result<(Seq<usize>, Seq<usize>, Seq<usize>), DecodeError> {
    let vn = c2v[next_spec(a)];
    let vp = c2v[prev_spec(a)];
    let (opp_corner, corner_l, corner_r) = if is_r {
        (c0 + 2, c0 + 1, c0 + 0)
    } else {
        (c0 + 1, c0 + 0, c0 + 2)
    };
    let nv = vc.len();
    if opp[a] != INVALID || nv >= max_nv {
        Err(bad_stream())
    } else {
        Ok(
            (
                opp.update(opp_corner, a as usize).update(a, opp_corner as usize),
                c2v.update(opp_corner, nv as usize).update(corner_r, vp).update(corner_l, vn),
                vc.push(opp_corner as usize).update(vp as int, corner_r as usize),
            ),
        )
    }
}

/// The tables after an `E` face at `c0`, with three new vertices; or the
/// error.
pub open spec fn e_face(c2v: Seq<usize>, vc: Seq<usize>, c0: int, max_nv: nat) -> Result<
    (Seq<usize>, Seq<usize>),
    DecodeError,
> {
    let first = vc.len();
    if max_nv - first < 3 {
        Err(bad_stream())
    } else {
        Ok(
            (
                c2v.update(c0, first as usize).update(c0 + 1, (first + 1) as usize).update(
                    c0 + 2,
                    (first + 2) as usize,
                ),
                vc + seq![c0 as usize, (c0 + 1) as usize, (c0 + 2) as usize],
            ),
        )
    }
}

/// The tables after an `S` face at `c0` between the active corners `a` and
/// `b`, with the vertex merged away; or the error.
pub open spec fn s_face(
    opp: Seq<usize>,
    c2v: Seq<usize>,
    vc: Seq<usize>,
    a: int,
    b: int,
    c0: int,
    nc: nat,
) -> Result<(Seq<usize>, Seq<usize>, Seq<usize>, usize), DecodeError> {
    let vp = c2v[prev_spec(a)];
    let vn = c2v[next_spec(b)];
    let vc1 = vc.update(c2v[prev_spec(b)] as int, (c0 + 2) as usize);
    if a == b || opp[a] != INVALID || opp[b] != INVALID || vc1[vn as int] == INVALID {
        Err(bad_stream())
    } else {
        match left_walk(s_opposite(opp, a, b, c0), next_spec(b), next_spec(b), nc) {
            None => Err(bad_stream()),
            Some(w) => Ok(
                (
                    s_opposite(opp, a, b, c0),
                    Seq::new(
                        c2v.len(),
                        |k: int|
                            if w.contains(k as usize) {
                                vp
                            } else {
                                s_corner_vertices(c2v, a, b, c0)[k]
                            },
                    ),
                    vc1.update(vp as int, vc1[vn as int]).update(vn as int, INVALID),
                    vn,
                ),
            ),
        }
    }
}

/// The tables after closing a start face at `c0` on the active corner
/// `corner`, with the face's three vertices; or the error.
pub open spec fn start_face(opp: Seq<usize>, c2v: Seq<usize>, vc: Seq<usize>, corner: int, c0: int) -> Result<
    (Seq<usize>, Seq<usize>, (usize, usize, usize)),
    DecodeError,
> {
    let vn = c2v[next_spec(corner)];
    let lb = vc[vn as int];
    let cb = next_spec(lb as int);
    let vx = c2v[next_spec(cb)];
    let lc = vc[vx as int];
    let cc = next_spec(lc as int);
    if lb == INVALID || lc == INVALID || corner == cb || corner == cc || cb == cc || opp[corner] != INVALID
        || opp[cb] != INVALID || opp[cc] != INVALID {
        Err(bad_stream())
    } else {
        let vp = c2v[next_spec(cc)];
        Ok(
            (
                opp.update(c0, corner as usize).update(corner, c0 as usize).update(c0 + 1, cb as usize).update(
                    cb,
                    (c0 + 1) as usize,
                ).update(c0 + 2, cc as usize).update(cc, (c0 + 2) as usize),
                c2v.update(c0, vx).update(c0 + 1, vp).update(c0 + 2, vn),
                (vx, vp, vn),
            ),
        )
    }
}

/// What a reconstruction is run with: the symbol count, the corner count,
/// the vertex bound, whether isolated vertices are collected, and the face
/// count.
pub struct RecParams {
    pub num_symbols: nat,
    pub num_corners: nat,
    pub max_vertices: nat,
    pub collect_isolated: bool,
    pub num_faces: nat,
}

/// The state of a reconstruction while the symbols are replayed: the
/// opposite, corner-vertex and left-most-corner tables, the boundary flags,
/// the active-corner stack, the split map, the isolated vertices and the
/// topology splits not yet applied.
#[verifier::ext_equal]
pub struct RecState {
    pub opp: Seq<usize>,
    pub c2v: Seq<usize>,
    pub vc: Seq<usize>,
    pub hole: Seq<bool>,
    pub stack: Seq<usize>,
    pub split_map: Seq<usize>,
    pub invalid: Seq<usize>,
    pub splits: Seq<TopologySplit>,
}

/// The split map and splits after the topology splits whose source is the
/// encoder's symbol `enc` are applied from the back, on the active corner
/// `top`; or the error an out-of-order split gives.
#[verifier::opaque]
pub open spec fn apply_splits(
    split_map: Seq<usize>,
    splits: Seq<TopologySplit>,
    top: usize,
    enc: int,
    num_symbols: nat,
) -> Result<(Seq<usize>, Seq<TopologySplit>), DecodeError>
    decreases splits.len(),
{
    if splits.len() == 0 {
        Ok((split_map, splits))
    } else {
        let back = splits.last();
        if back.source_symbol_id > enc {
            Err(DecodeError::MalformedConnectivity("topology split id out of order"))
        } else if back.source_symbol_id != enc {
            Ok((split_map, splits))
        } else if back.split_symbol_id > enc {
            Err(DecodeError::MalformedConnectivity("topology split id out of order"))
        } else {
            let na = if back.source_edge_right {
                next_spec(top as int)
            } else {
                prev_spec(top as int)
            };
            apply_splits(
                split_map.update(num_symbols - back.split_symbol_id - 1, na as usize),
                splits.drop_last(),
                top,
                enc,
                num_symbols,
            )
        }
    }
}

/// The state after the face of symbol `i`, `sym`, with whether the face
/// can trigger topology splits; or the error.
#[verifier::opaque]
pub open spec fn rec_face(st: RecState, sym: Symbol, i: nat, p: RecParams) -> Result<(RecState, bool), DecodeError> {
    let c0 = 3 * i;
    match sym {
        Symbol::C => if st.stack.len() == 0 {
            Err(bad_stream())
        } else {
            match c_face(st.opp, st.c2v, st.vc, st.stack.last() as int, c0 as int) {
                Err(e) => Err(e),
                Ok((o, c, v, x)) => Ok(
                    (
                        RecState {
                            opp: o,
                            c2v: c,
                            vc: v,
                            hole: st.hole.update(x as int, false),
                            stack: st.stack.update(st.stack.len() - 1, c0 as usize),
                            ..st
                        },
                        false,
                    ),
                ),
            }
        },
        Symbol::R | Symbol::L => if st.stack.len() == 0 {
            Err(bad_stream())
        } else {
            match rl_face(st.opp, st.c2v, st.vc, st.stack.last() as int, c0 as int, sym == Symbol::R, p.max_vertices) {
                Err(e) => Err(e),
                Ok((o, c, v)) => Ok(
                    (
                        RecState { opp: o, c2v: c, vc: v, stack: st.stack.update(st.stack.len() - 1, c0 as usize), ..st },
                        true,
                    ),
                ),
            }
        },
        Symbol::S => if st.stack.len() == 0 {
            Err(bad_stream())
        } else {
            let b = st.stack.last();
            let s1 = st.stack.drop_last();
            let m = st.split_map[i as int];
            let s2 = if m != INVALID {
                s1.push(m)
            } else {
                s1
            };
            if s2.len() == 0 {
                Err(bad_stream())
            } else {
                match s_face(st.opp, st.c2v, st.vc, s2.last() as int, b as int, c0 as int, p.num_corners) {
                    Err(e) => Err(e),
                    Ok((o, c, v, vn)) => Ok(
                        (
                            RecState {
                                opp: o,
                                c2v: c,
                                vc: v,
                                invalid: if p.collect_isolated {
                                    st.invalid.push(vn)
                                } else {
                                    st.invalid
                                },
                                stack: s2.update(s2.len() - 1, c0 as usize),
                                ..st
                            },
                            false,
                        ),
                    ),
                }
            }
        },
        Symbol::E => match e_face(st.c2v, st.vc, c0 as int, p.max_vertices) {
            Err(e) => Err(e),
            Ok((c, v)) => Ok((RecState { c2v: c, vc: v, stack: st.stack.push(c0 as usize), ..st }, true)),
        },
    }
}

/// The state after the face of symbol `i`, `sym`, and the splits it
/// triggers; or the error.
pub open spec fn rec_symbol(st: RecState, sym: Symbol, i: nat, p: RecParams) -> Result<RecState, DecodeError> {
    if 3 * i + 3 > p.num_corners {
        Err(rec_face_past_end(st, sym, i, p))
    } else {
        rec_symbol_in(st, sym, i, p)
    }
}

/// The error a symbol whose face lies past the last face gives: the
/// stream's own error where the face's checks before it is placed fail,
/// else that there are more symbols than faces.
pub open spec fn rec_face_past_end(st: RecState, sym: Symbol, i: nat, p: RecParams) -> DecodeError {
    let over = DecodeError::MalformedConnectivity("more symbols than faces");
    match sym {
        Symbol::C => if st.stack.len() == 0 {
            bad_stream()
        } else {
            let a = st.stack.last() as int;
            let x = st.c2v[next_spec(a)];
            let lmc = st.vc[x as int];
            let b = next_spec(lmc as int);
            if lmc == INVALID || a == b || st.opp[a] != INVALID || st.opp[b] != INVALID {
                bad_stream()
            } else {
                over
            }
        },
        Symbol::R | Symbol::L => if st.stack.len() == 0 || st.opp[st.stack.last() as int] != INVALID {
            bad_stream()
        } else {
            over
        },
        Symbol::S => if st.stack.len() == 0 {
            bad_stream()
        } else {
            let b = st.stack.last();
            let s1 = st.stack.drop_last();
            let m = st.split_map[i as int];
            let s2 = if m != INVALID {
                s1.push(m)
            } else {
                s1
            };
            if s2.len() == 0 || s2.last() == b || st.opp[s2.last() as int] != INVALID || st.opp[b as int] != INVALID {
                bad_stream()
            } else {
                over
            }
        },
        Symbol::E => if p.max_vertices - st.vc.len() < 3 {
            bad_stream()
        } else {
            over
        },
    }
}

/// The state after the face of symbol `i`, `sym`, within the faces, and
/// the splits it triggers; or the error.
pub open spec fn rec_symbol_in(st: RecState, sym: Symbol, i: nat, p: RecParams) -> Result<RecState, DecodeError> {
    match rec_face(st, sym, i, p) {
        Err(e) => Err(e),
        Ok((s2, check)) => if s2.stack.len() == 0 {
            Err(bad_stream())
        } else if check {
            match apply_splits(s2.split_map, s2.splits, s2.stack.last(), p.num_symbols - i - 1, p.num_symbols) {
                Err(e) => Err(e),
                Ok((sm, sp)) => Ok(RecState { split_map: sm, splits: sp, ..s2 }),
            }
        } else {
            Ok(s2)
        },
    }
}

/// The state a reconstruction starts in, with the given topology splits.
pub open spec fn rec_init(p: RecParams, splits: Seq<TopologySplit>) -> RecState {
    RecState {
        opp: Seq::new(p.num_corners, |i: int| INVALID),
        c2v: Seq::new(p.num_corners, |i: int| INVALID),
        vc: Seq::empty(),
        hole: Seq::new(p.max_vertices, |i: int| true),
        stack: Seq::empty(),
        split_map: Seq::new(p.num_symbols, |i: int| INVALID),
        invalid: Seq::empty(),
        splits,
    }
}

/// The state after replaying the traversal's answers `log`, symbol `i` for
/// answer `i`; or the first error, the traversal's own included.
pub open spec fn rec_symbols(log: Seq<Result<Symbol, DecodeError>>, p: RecParams, splits: Seq<TopologySplit>) -> Result<
    RecState,
    DecodeError,
>
    decreases log.len(),
{
    if log.len() == 0 {
        Ok(rec_init(p, splits))
    } else {
        match rec_symbols(log.drop_last(), p, splits) {
            Err(e) => Err(e),
            Ok(st) => match log.last() {
                Err(e) => Err(e),
                Ok(sym) => rec_symbol(st, sym, (log.len() - 1) as nat, p),
            },
        }
    }
}

/// A reconstruction while its start faces are resolved: the state, the
/// seed corners so far and the faces built.
pub struct FaceState {
    pub st: RecState,
    pub init: Seq<usize>,
    pub built: nat,
}

/// One start face taken off the active stack with configuration bit `bit`:
/// an interior one closes a new face, a boundary one only seeds.
pub open spec fn face_step(fs: FaceState, bit: bool, p: RecParams) -> Result<FaceState, DecodeError> {
    if fs.st.stack.len() == 0 {
        Err(bad_stream())
    } else {
        let corner = fs.st.stack.last();
        let st1 = RecState { stack: fs.st.stack.drop_last(), ..fs.st };
        if bit {
            if fs.built >= p.num_faces {
                Err(bad_stream())
            } else {
                let c0 = 3 * fs.built;
                match start_face(st1.opp, st1.c2v, st1.vc, corner as int, c0 as int) {
                    Err(e) => Err(e),
                    Ok((o, c, (x, y, z))) => Ok(
                        FaceState {
                            st: RecState {
                                opp: o,
                                c2v: c,
                                hole: st1.hole.update(x as int, false).update(y as int, false).update(z as int, false),
                                ..st1
                            },
                            init: fs.init.push(c0 as usize),
                            built: fs.built + 1,
                        },
                    ),
                }
            }
        } else {
            Ok(FaceState { st: st1, init: fs.init.push(corner), built: fs.built })
        }
    }
}

/// The start faces resolved with the configuration bits `bits`, one per
/// active corner taken off the stack.
pub open spec fn faces_run(st: RecState, bits: Seq<bool>, p: RecParams) -> Result<FaceState, DecodeError>
    decreases bits.len(),
{
    if bits.len() == 0 {
        Ok(FaceState { st, init: Seq::empty(), built: p.num_symbols })
    } else {
        match faces_run(st, bits.drop_last(), p) {
            Err(e) => Err(e),
            Ok(fs) => face_step(fs, bits.last(), p),
        }
    }
}

/// The reconstruction the traversal's symbol answers `log` and start-face
/// bits `bits` give: the replayed symbols, the resolved start faces, and a
/// face count that must come out at `num_faces`; or the first error.
pub open spec fn rec_outcome(
    log: Seq<Result<Symbol, DecodeError>>,
    bits: Seq<bool>,
    p: RecParams,
    splits: Seq<TopologySplit>,
) -> Result<FaceState, DecodeError> {
    match rec_symbols(log, p, splits) {
        Err(e) => Err(e),
        Ok(st) => match faces_run(st, bits, p) {
            Err(e) => Err(e),
            Ok(fs) => if fs.built != p.num_faces {
                Err(bad_stream())
            } else {
                Ok(fs)
            },
        },
    }
}

/// Whether `r` is the reconstruction the traversal's answers give: the
/// symbol answers `log` (no more than the symbols asked for, and fewer only
/// where replaying them failed) and start-face bits `bits` replayed as
/// [`rec_outcome`] describes. The opposite table and seed corners are
/// always the replayed ones; with attribute data, so are the vertex tables,
/// the boundary flags and the vertex count.
#[verifier::opaque]
pub open spec fn reconstructed(
    log: Seq<Result<Symbol, DecodeError>>,
    bits: Seq<bool>,
    p: RecParams,
    splits: Seq<TopologySplit>,
    with_attribute_data: bool,
    r: Result<Reconstruction, DecodeError>,
) -> bool {
    &&& log.len() <= p.num_symbols
    &&& (log.len() < p.num_symbols ==> rec_symbols(log, p, splits) is Err)
    &&& (log.len() == p.num_symbols && rec_symbols(log, p, splits) is Ok) ==> {
        let st = rec_symbols(log, p, splits)->Ok_0;
        &&& bits.len() <= st.stack.len()
        &&& bits.len() < st.stack.len() ==> faces_run(st, bits, p) is Err
    }
    &&& match rec_outcome(log, bits, p, splits) {
        Err(e) => r == Err::<Reconstruction, DecodeError>(e),
        Ok(fs) => r matches Ok(rec) && rec.opposite@ == fs.st.opp && rec.init_corners@ == fs.init && (
        with_attribute_data ==> (rec.corner_to_vertex@ == fs.st.c2v && rec.vertex_corners@ == fs.st.vc
            && rec.is_vert_hole@ == fs.st.hole && rec.num_vertices == fs.st.vc.len())),
    }
}

/// A replay that fails on the symbols fails the reconstruction.
proof fn lemma_symbols_fail(
    log: Seq<Result<Symbol, DecodeError>>,
    bits: Seq<bool>,
    p: RecParams,
    splits: Seq<TopologySplit>,
    wad: bool,
    e: DecodeError,
)
    requires
        log.len() <= p.num_symbols,
        rec_symbols(log, p, splits) == Err::<RecState, DecodeError>(e),
    ensures
        reconstructed(log, bits, p, splits, wad, Err::<Reconstruction, DecodeError>(e)),
{
    reveal(reconstructed);
}

/// A replay of all the symbols whose start faces fail fails the
/// reconstruction.
proof fn lemma_faces_fail(
    log: Seq<Result<Symbol, DecodeError>>,
    bits: Seq<bool>,
    p: RecParams,
    splits: Seq<TopologySplit>,
    wad: bool,
    st: RecState,
    e: DecodeError,
)
    requires
        log.len() == p.num_symbols,
        rec_symbols(log, p, splits) == Ok::<RecState, DecodeError>(st),
        faces_run(st, bits, p) == Err::<FaceState, DecodeError>(e),
        bits.len() <= st.stack.len(),
    ensures
        reconstructed(log, bits, p, splits, wad, Err::<Reconstruction, DecodeError>(e)),
{
    reveal(reconstructed);
}

/// A replay of all the symbols and start faces that builds the wrong number
/// of faces fails the reconstruction.
proof fn lemma_count_fail(
    log: Seq<Result<Symbol, DecodeError>>,
    bits: Seq<bool>,
    p: RecParams,
    splits: Seq<TopologySplit>,
    wad: bool,
    st: RecState,
    fs: FaceState,
)
    requires
        log.len() == p.num_symbols,
        rec_symbols(log, p, splits) == Ok::<RecState, DecodeError>(st),
        faces_run(st, bits, p) == Ok::<FaceState, DecodeError>(fs),
        fs.built != p.num_faces,
        bits.len() == st.stack.len(),
    ensures
        reconstructed(log, bits, p, splits, wad, Err::<Reconstruction, DecodeError>(bad_stream())),
{
    reveal(reconstructed);
}

/// A successful replay gives the reconstruction that holds its tables.
proof fn lemma_replayed(
    log: Seq<Result<Symbol, DecodeError>>,
    bits: Seq<bool>,
    p: RecParams,
    splits: Seq<TopologySplit>,
    wad: bool,
    st: RecState,
    fs: FaceState,
    rec: Reconstruction,
)
    requires
        log.len() == p.num_symbols,
        rec_symbols(log, p, splits) == Ok::<RecState, DecodeError>(st),
        faces_run(st, bits, p) == Ok::<FaceState, DecodeError>(fs),
        fs.built == p.num_faces,
        bits.len() == st.stack.len(),
        rec.opposite@ == fs.st.opp,
        rec.init_corners@ == fs.init,
        wad ==> (rec.corner_to_vertex@ == fs.st.c2v && rec.vertex_corners@ == fs.st.vc && rec.is_vert_hole@
            == fs.st.hole && rec.num_vertices == fs.st.vc.len()),
    ensures
        reconstructed(log, bits, p, splits, wad, Ok::<Reconstruction, DecodeError>(rec)),
{
    reveal(reconstructed);
}

/// The view of a reconstruction in progress.
spec fn state_of(
    ct: CornerTableBuilder,
    hole: Seq<bool>,
    stack: Seq<usize>,
    split_map: Seq<usize>,
    invalid: Seq<usize>,
    splits: Seq<TopologySplit>,
) -> RecState {
    RecState {
        opp: ct.opposite@,
        c2v: ct.corner_to_vertex@,
        vc: ct.vertex_corners@,
        hole,
        stack,
        split_map,
        invalid,
        splits,
    }
}

/// The error of a symbol whose face lies past the last face (see
/// [`rec_face_past_end`]).
fn past_end_error(
    ct: &CornerTableBuilder,
    stack: &Vec<usize>,
    split_map: &Vec<usize>,
    symbol: Symbol,
    symbol_id: usize,
    max_num_vertices: usize,
    Ghost(hole): Ghost<Seq<bool>>,
    Ghost(invalid): Ghost<Seq<usize>>,
    Ghost(splits): Ghost<Seq<TopologySplit>>,
    Ghost(gnc): Ghost<nat>,
    Ghost(p): Ghost<RecParams>,
) -> (e: DecodeError)
    requires
        builder_wf(*ct, gnc, gnc),
        all_below(stack@, gnc),
        symbol_id < split_map@.len(),
        invalid_or_below(split_map@, gnc),
        max_num_vertices == p.max_vertices,
        ct.vertex_corners@.len() <= max_num_vertices,
    ensures
        e == rec_face_past_end(state_of(*ct, hole, stack@, split_map@, invalid, splits), symbol, symbol_id as nat, p),
{
    let bad = DecodeError::MalformedConnectivity("invalid edgebreaker symbol stream");
    let over = DecodeError::MalformedConnectivity("more symbols than faces");
    match symbol {
        Symbol::C => {
            if stack.len() == 0 {
                return bad;
            }
            let a = stack[stack.len() - 1];
            proof {
                lemma_corner_cycle(a as int);
                assert((a as int) / 3 < (gnc as int) / 3);
            }
            let x = ct.corner_to_vertex[next(a)];
            let lmc = ct.vertex_corners[x];
            if lmc == INVALID {
                return bad;
            }
            proof {
                lemma_corner_cycle(lmc as int);
                assert((lmc as int) / 3 < (gnc as int) / 3);
            }
            let b = next(lmc);
            if a == b || ct.opposite[a] != INVALID || ct.opposite[b] != INVALID {
                bad
            } else {
                over
            }
        },
        Symbol::R | Symbol::L => {
            if stack.len() == 0 || ct.opposite[stack[stack.len() - 1]] != INVALID {
                bad
            } else {
                over
            }
        },
        Symbol::S => {
            if stack.len() == 0 {
                return bad;
            }
            let b = stack[stack.len() - 1];
            let m = split_map[symbol_id];
            let a = if m != INVALID {
                m
            } else if stack.len() >= 2 {
                stack[stack.len() - 2]
            } else {
                return bad;
            };
            proof {
                let s1 = stack@.drop_last();
                if m == INVALID {
                    assert(s1.last() == stack@[stack@.len() - 2]);
                }
            }
            if a == b || ct.opposite[a] != INVALID || ct.opposite[b] != INVALID {
                bad
            } else {
                over
            }
        },
        Symbol::E => {
            if max_num_vertices - ct.vertex_corners.len() < 3 {
                bad
            } else {
                over
            }
        },
    }
}

/// Places the face of symbol `symbol_id`, `symbol`: the `C`, `R`/`L`, `S`
/// or `E` step on the active-corner stack. Returns whether the face can
/// trigger topology splits.
fn place_face<T: TraversalDecoder>(
    ct: &mut CornerTableBuilder,
    is_vert_hole: &mut Vec<bool>,
    stack: &mut Vec<usize>,
    split_map: &Vec<usize>,
    invalid_vertices: &mut Vec<usize>,
    splits: &Vec<TopologySplit>,
    traversal: &mut T,
    symbol: Symbol,
    symbol_id: usize,
    remove_invalid_vertices: bool,
    max_num_vertices: usize,
    Ghost(gnc): Ghost<nat>,
    Ghost(p): Ghost<RecParams>,
) -> (r: Result<bool, DecodeError>)
    requires
        builder_wf(*old(ct), gnc, (3 * symbol_id) as nat),
        all_below(old(stack)@, (3 * symbol_id) as nat),
        symbol_id < p.num_symbols,
        3 * symbol_id + 3 <= gnc,
        gnc == p.num_corners,
        split_map@.len() == p.num_symbols,
        invalid_or_below(split_map@, (3 * symbol_id) as nat),
        all_below(old(invalid_vertices)@, old(ct).vertex_corners@.len()),
        old(is_vert_hole)@.len() == max_num_vertices,
        old(ct).vertex_corners@.len() <= max_num_vertices,
        max_num_vertices == p.max_vertices,
        remove_invalid_vertices == p.collect_isolated,
        old(traversal).inv(),
        old(traversal).vertex_capacity() >= max_num_vertices,
    ensures
        final(traversal).inv(),
        final(traversal).vertex_capacity() == old(traversal).vertex_capacity(),
        final(traversal).num_streams() == old(traversal).num_streams(),
        final(traversal).symbol_log() == old(traversal).symbol_log(),
        final(traversal).config_log() == old(traversal).config_log(),
        final(traversal).origin() == old(traversal).origin(),
        final(traversal).seam_states() == old(traversal).seam_states(),
        match rec_face(
            state_of(*old(ct), old(is_vert_hole)@, old(stack)@, split_map@, old(invalid_vertices)@, splits@),
            symbol,
            symbol_id as nat,
            p,
        ) {
            Err(e) => r == Err::<bool, DecodeError>(e),
            Ok((s2, check)) => r == Ok::<bool, DecodeError>(check) && state_of(
                *final(ct),
                final(is_vert_hole)@,
                final(stack)@,
                split_map@,
                final(invalid_vertices)@,
                splits@,
            ) == s2,
        },
        r is Ok ==> {
            &&& builder_wf(*final(ct), gnc, (3 * symbol_id + 3) as nat)
            &&& all_below(final(stack)@, (3 * symbol_id + 3) as nat)
            &&& all_below(final(invalid_vertices)@, final(ct).vertex_corners@.len())
            &&& final(is_vert_hole)@.len() == max_num_vertices
            &&& final(ct).vertex_corners@.len() <= max_num_vertices
        },
{
    proof {
        reveal(rec_face);
    }
    let c0 = 3 * symbol_id;
    let ghost st0 = state_of(*ct, is_vert_hole@, stack@, split_map@, invalid_vertices@, splits@);
    let ghost built = (c0 + 3) as nat;
    let check = match symbol {
        Symbol::C => {
            if stack.len() == 0 {
                return Err(DecodeError::MalformedConnectivity("invalid edgebreaker symbol stream"));
            }
            let a = stack[stack.len() - 1];
            let vertex_x = match place_c(ct, a, c0, Ghost(gnc)) {
                Ok(v) => v,
                Err(e) => {
                    return Err(e);
                },
            };
            is_vert_hole.set(vertex_x, false);
            let top = stack.len() - 1;
            stack.set(top, c0);
            false
        },
        Symbol::R | Symbol::L => {
            if stack.len() == 0 {
                return Err(DecodeError::MalformedConnectivity("invalid edgebreaker symbol stream"));
            }
            let a = stack[stack.len() - 1];
            match place_rl(ct, a, c0, symbol == Symbol::R, max_num_vertices, Ghost(gnc)) {
                Ok(()) => {},
                Err(e) => {
                    return Err(e);
                },
            }
            let top = stack.len() - 1;
            stack.set(top, c0);
            true
        },
        Symbol::S => {
            let b = match stack.pop() {
                Some(c) => c,
                None => return Err(DecodeError::MalformedConnectivity("invalid edgebreaker symbol stream")),
            };
            let m = split_map[symbol_id];
            if m != INVALID {
                stack.push(m);
            }
            if stack.len() == 0 {
                return Err(DecodeError::MalformedConnectivity("invalid edgebreaker symbol stream"));
            }
            let a = stack[stack.len() - 1];
            let ghost ct_before = *ct;
            let vertex_n = match place_s(ct, traversal, a, b, c0, Ghost(gnc)) {
                Ok(v) => v,
                Err(e) => {
                    return Err(e);
                },
            };
            proof {
                let w = left_walk(
                    s_opposite(ct_before.opposite@, a as int, b as int, c0 as int),
                    next_spec(b as int),
                    next_spec(b as int),
                    gnc,
                )->Some_0;
                assert(ct.corner_to_vertex@ =~= Seq::new(
                    ct_before.corner_to_vertex@.len(),
                    |k: int|
                        if w.contains(k as usize) {
                            ct_before.corner_to_vertex@[prev_spec(a as int)]
                        } else {
                            s_corner_vertices(ct_before.corner_to_vertex@, a as int, b as int, c0 as int)[k]
                        },
                ));
            }
            if remove_invalid_vertices {
                invalid_vertices.push(vertex_n);
            }
            let top = stack.len() - 1;
            stack.set(top, c0);
            false
        },
        Symbol::E => {
            match place_e(ct, c0, max_num_vertices, Ghost(gnc)) {
                Ok(()) => {},
                Err(e) => {
                    return Err(e);
                },
            }
            stack.push(c0);
            true
        },
    };
    assert(all_below(stack@, built)) by {
        assert forall|i: int| 0 <= i < stack@.len() implies #[trigger] stack@[i] < built by {
        }
    }
    Ok(check)
}

/// Applies, from the back, the topology splits whose source is the
/// encoder's symbol `encoder_symbol_id`, on the active corner `active_top`.
fn apply_split_list(
    split_map: &mut Vec<usize>,
    splits: &mut Vec<TopologySplit>,
    active_top: usize,
    encoder_symbol_id: usize,
    num_symbols: usize,
    Ghost(built): Ghost<nat>,
) -> (r: Result<(), DecodeError>)
    requires
        old(split_map)@.len() == num_symbols,
        invalid_or_below(old(split_map)@, built),
        active_top < built,
        built % 3 == 0,
        built < usize::MAX / 4,
        encoder_symbol_id < num_symbols,
    ensures
        final(split_map)@.len() == num_symbols,
        r is Ok ==> invalid_or_below(final(split_map)@, built),
        match apply_splits(old(split_map)@, old(splits)@, active_top, encoder_symbol_id as int, num_symbols as nat) {
            Err(e) => r == Err::<(), DecodeError>(e),
            Ok((sm, sp)) => r is Ok && final(split_map)@ == sm && final(splits)@ == sp,
        },
{
    proof {
        reveal(apply_splits);
        lemma_corner_cycle(active_top as int);
        assert((active_top as int) / 3 < (built as int) / 3);
    }
    while splits.len() > 0
        invariant
            split_map@.len() == num_symbols,
            invalid_or_below(split_map@, built),
            active_top < built,
            built % 3 == 0,
            built < usize::MAX / 4,
            encoder_symbol_id < num_symbols,
            next_spec(active_top as int) < built,
            prev_spec(active_top as int) < built,
            next_spec(active_top as int) >= 0,
            prev_spec(active_top as int) >= 0,
            apply_splits(old(split_map)@, old(splits)@, active_top, encoder_symbol_id as int, num_symbols as nat)
                == apply_splits(split_map@, splits@, active_top, encoder_symbol_id as int, num_symbols as nat),
            splits@.len() == 0 ==> apply_splits(split_map@, splits@, active_top, encoder_symbol_id as int, num_symbols as nat)
                == Ok::<(Seq<usize>, Seq<TopologySplit>), DecodeError>((split_map@, splits@)),
        ensures
            split_map@.len() == num_symbols,
            invalid_or_below(split_map@, built),
            apply_splits(old(split_map)@, old(splits)@, active_top, encoder_symbol_id as int, num_symbols as nat)
                == Ok::<(Seq<usize>, Seq<TopologySplit>), DecodeError>((split_map@, splits@)),
        decreases splits.len(),
    {
        proof {
            reveal(apply_splits);
        }
        let back = splits[splits.len() - 1];
        if back.source_symbol_id > encoder_symbol_id {
            return Err(DecodeError::MalformedConnectivity("topology split id out of order"));
        }
        if back.source_symbol_id != encoder_symbol_id {
            break;
        }
        let ghost sp_before = splits@;
        let _ = splits.pop();
        proof {
            assert(splits@ =~= sp_before.drop_last());
        }
        if back.split_symbol_id > encoder_symbol_id {
            return Err(DecodeError::MalformedConnectivity("topology split id out of order"));
        }
        let new_active = if back.source_edge_right {
            next(active_top)
        } else {
            previous(active_top)
        };
        let decoder_split_symbol_id = num_symbols - back.split_symbol_id - 1;
        split_map.set(decoder_split_symbol_id, new_active);
    }
    Ok(())
}

/// Runs the reconstruction over a traversal variant: replays the symbols
/// (face `i` for symbol `i`), applies the topology splits, closes the start
/// faces left on the active stack, and, without attribute data, compacts the
/// vertices S symbols isolated.
#[verifier::rlimit(100)]
#[verifier::spinoff_prover]
#[verifier::loop_isolation(false)]
pub fn reconstruct<T: TraversalDecoder>(
    traversal: &mut T,
    num_symbols: usize,
    num_encoded_vertices: usize,
    num_split_symbols: usize,
    num_faces: usize,
    num_attribute_data: usize,
    splits: Vec<TopologySplit>,
) -> (r: Result<Reconstruction, DecodeError>)
    requires
        old(traversal).inv(),
        3 * num_faces < usize::MAX / 4,
        num_encoded_vertices + num_split_symbols <= usize::MAX,
        old(traversal).vertex_capacity() >= num_encoded_vertices + num_split_symbols,
    ensures
        final(traversal).inv(),
        final(traversal).num_streams() == old(traversal).num_streams(),
        final(traversal).origin() == old(traversal).origin(),
        final(traversal).seam_states() == old(traversal).seam_states(),
        r matches Ok(rec) ==> reconstruction_wf(rec, num_faces as nat, (num_encoded_vertices + num_split_symbols) as nat),
        final(traversal).symbol_log().len() >= old(traversal).symbol_log().len(),
        final(traversal).symbol_log().take(old(traversal).symbol_log().len() as int) == old(traversal).symbol_log(),
        final(traversal).config_log().len() >= old(traversal).config_log().len(),
        final(traversal).config_log().take(old(traversal).config_log().len() as int) == old(traversal).config_log(),
        forall|j: int|
            0 <= j < final(traversal).symbol_log().len() - old(traversal).symbol_log().len() - 1
                ==> #[trigger] final(traversal).symbol_log().skip(old(traversal).symbol_log().len() as int)[j] is Ok,
        reconstructed(
            final(traversal).symbol_log().skip(old(traversal).symbol_log().len() as int),
            final(traversal).config_log().skip(old(traversal).config_log().len() as int),
            RecParams {
                num_symbols: num_symbols as nat,
                num_corners: (3 * num_faces) as nat,
                max_vertices: (num_encoded_vertices + num_split_symbols) as nat,
                collect_isolated: num_attribute_data == 0,
                num_faces: num_faces as nat,
            },
            splits@,
            num_attribute_data > 0,
            r,
        ),
{
    let nc = 3 * num_faces;
    let ghost gnc = nc as nat;
    let ghost splits0 = splits@;
    let ghost log0 = traversal.symbol_log();
    let ghost cfg0 = traversal.config_log();
    let ghost p = RecParams {
        num_symbols: num_symbols as nat,
        num_corners: (3 * num_faces) as nat,
        max_vertices: (num_encoded_vertices + num_split_symbols) as nat,
        collect_isolated: num_attribute_data == 0,
        num_faces: num_faces as nat,
    };
    let mut ct = CornerTableBuilder {
        opposite: filled(nc, INVALID),
        corner_to_vertex: filled(nc, INVALID),
        vertex_corners: Vec::new(),
    };
    let max_num_vertices = num_encoded_vertices + num_split_symbols;
    let mut is_vert_hole = filled(max_num_vertices, true);
    let mut stack: Vec<usize> = Vec::new();
    let mut split_map: Vec<usize> = filled(num_symbols, INVALID);
    let mut invalid_vertices: Vec<usize> = Vec::new();
    let remove_invalid_vertices = num_attribute_data == 0;
    let mut splits = splits;
    let ghost cap = traversal.vertex_capacity();
    proof {
        assert(traversal.symbol_log().skip(log0.len() as int) =~= Seq::<Result<Symbol, DecodeError>>::empty());
        assert(state_of(ct, is_vert_hole@, stack@, split_map@, invalid_vertices@, splits@) =~= rec_init(p, splits0));
    }
    let mut symbol_id: usize = 0;
    while symbol_id < num_symbols
        invariant
            symbol_id <= num_symbols,
            symbol_id <= num_faces,
            nc == 3 * num_faces,
            gnc == nc,
            nc < usize::MAX / 4,
            builder_wf(ct, gnc, (3 * symbol_id) as nat),
            all_below(stack@, (3 * symbol_id) as nat),
            split_map@.len() == num_symbols,
            invalid_or_below(split_map@, (3 * symbol_id) as nat),
            all_below(invalid_vertices@, ct.vertex_corners@.len()),
            is_vert_hole@.len() == max_num_vertices,
            ct.vertex_corners@.len() <= max_num_vertices,
            max_num_vertices == num_encoded_vertices + num_split_symbols,
            remove_invalid_vertices == (num_attribute_data == 0),
            p == (RecParams {
                num_symbols: num_symbols as nat,
                num_corners: (3 * num_faces) as nat,
                max_vertices: (num_encoded_vertices + num_split_symbols) as nat,
                collect_isolated: num_attribute_data == 0,
                num_faces: num_faces as nat,
            }),
            traversal.inv(),
            traversal.vertex_capacity() == cap,
            cap >= max_num_vertices,
            traversal.num_streams() == old(traversal).num_streams(),
            traversal.origin() == old(traversal).origin(),
            traversal.seam_states() == old(traversal).seam_states(),
            log0 == old(traversal).symbol_log(),
            cfg0 == old(traversal).config_log(),
            traversal.config_log() == cfg0,
            traversal.symbol_log().len() == log0.len() + symbol_id,
            traversal.symbol_log().take(log0.len() as int) == log0,
            rec_symbols(traversal.symbol_log().skip(log0.len() as int), p, splits0) == Ok::<RecState, DecodeError>(
                state_of(ct, is_vert_hole@, stack@, split_map@, invalid_vertices@, splits@),
            ),
            forall|j: int| 0 <= j < symbol_id ==> #[trigger] traversal.symbol_log().skip(log0.len() as int)[j] is Ok,
        decreases num_symbols - symbol_id,
    {
        let ghost st0 = state_of(ct, is_vert_hole@, stack@, split_map@, invalid_vertices@, splits@);
        let ghost logb = traversal.symbol_log();
        let rs = traversal.decode_symbol();
        let ghost log_new = traversal.symbol_log().skip(log0.len() as int);
        let ghost bits0 = traversal.config_log().skip(cfg0.len() as int);
        proof {
            assert(log_new.drop_last() =~= logb.skip(log0.len() as int));
            assert(log_new.last() == rs);
            assert(traversal.symbol_log().take(log0.len() as int) =~= log0);
            assert(traversal.config_log().take(cfg0.len() as int) =~= cfg0);
            assert(log_new.len() == symbol_id + 1);
            assert forall|j: int| 0 <= j < symbol_id implies #[trigger] log_new[j] is Ok by {
                assert(log_new[j] == log_new.drop_last()[j]);
            }
        }
        let symbol = match rs {
            Ok(s) => s,
            Err(e) => {
                proof {
                    lemma_symbols_fail(log_new, bits0, p, splits0, num_attribute_data > 0, e);
                }
                return Err(e);
            },
        };
        if symbol_id >= num_faces {
            let e = past_end_error(
                &ct,
                &stack,
                &split_map,
                symbol,
                symbol_id,
                max_num_vertices,
                Ghost(is_vert_hole@),
                Ghost(invalid_vertices@),
                Ghost(splits@),
                Ghost(gnc),
                Ghost(p),
            );
            proof {
                lemma_symbols_fail(log_new, bits0, p, splits0, num_attribute_data > 0, e);
            }
            return Err(e);
        }
        let check_topology_split = match place_face(
            &mut ct,
            &mut is_vert_hole,
            &mut stack,
            &split_map,
            &mut invalid_vertices,
            &splits,
            traversal,
            symbol,
            symbol_id,
            remove_invalid_vertices,
            max_num_vertices,
            Ghost(gnc),
            Ghost(p),
        ) {
            Ok(c) => c,
            Err(e) => {
                proof {
                    lemma_symbols_fail(log_new, bits0, p, splits0, num_attribute_data > 0, e);
                }
                return Err(e);
            },
        };
        let ghost s2 = state_of(ct, is_vert_hole@, stack@, split_map@, invalid_vertices@, splits@);
        let ghost built = (3 * symbol_id + 3) as nat;
        if stack.len() == 0 {
            proof {
                lemma_symbols_fail(log_new, bits0, p, splits0, num_attribute_data > 0, bad_stream());
            }
            return Err(DecodeError::MalformedConnectivity("invalid edgebreaker symbol stream"));
        }
        let active_top = stack[stack.len() - 1];
        proof {
            lemma_corner_cycle(active_top as int);
            assert((active_top as int) / 3 < (built as int) / 3);
        }
        traversal.new_active_corner_reached(
            ct.corner_to_vertex[active_top],
            ct.corner_to_vertex[next(active_top)],
            ct.corner_to_vertex[previous(active_top)],
        );
        if check_topology_split {
            let encoder_symbol_id = num_symbols - symbol_id - 1;
            match apply_split_list(&mut split_map, &mut splits, active_top, encoder_symbol_id, num_symbols, Ghost(built)) {
                Ok(()) => {},
                Err(e) => {
                    proof {
                        lemma_symbols_fail(log_new, bits0, p, splits0, num_attribute_data > 0, e);
                    }
                    return Err(e);
                },
            }
        }
        proof {
            let st_new = state_of(ct, is_vert_hole@, stack@, split_map@, invalid_vertices@, splits@);
            assert(rec_symbol(st0, symbol, symbol_id as nat, p) == Ok::<RecState, DecodeError>(st_new));
        }
        symbol_id += 1;
    }
    let ghost st_sym = state_of(ct, is_vert_hole@, stack@, split_map@, invalid_vertices@, splits@);
    let ghost log_end = traversal.symbol_log();
    let ghost log_sym = log_end.skip(log0.len() as int);
    let mut num_faces_built = num_symbols;
    let mut init_corners: Vec<usize> = Vec::new();
    proof {
        assert(traversal.config_log().skip(cfg0.len() as int) =~= Seq::<bool>::empty());
        assert(log_sym.len() == num_symbols);
    }
    while stack.len() > 0
        invariant
            num_faces_built <= num_faces,
            nc == 3 * num_faces,
            gnc == nc,
            builder_wf(ct, gnc, (3 * num_faces_built) as nat),
            all_below(stack@, (3 * num_faces_built) as nat),
            all_below(init_corners@, (3 * num_faces_built) as nat),
            all_below(invalid_vertices@, ct.vertex_corners@.len()),
            is_vert_hole@.len() == max_num_vertices,
            ct.vertex_corners@.len() <= max_num_vertices,
            traversal.inv(),
            traversal.num_streams() == old(traversal).num_streams(),
            traversal.origin() == old(traversal).origin(),
            traversal.seam_states() == old(traversal).seam_states(),
            cfg0 == old(traversal).config_log(),
            traversal.config_log().len() >= cfg0.len(),
            traversal.config_log().take(cfg0.len() as int) == cfg0,
            traversal.symbol_log() == log_end,
            log0 == old(traversal).symbol_log(),
            log_end.len() >= log0.len(),
            log_end.take(log0.len() as int) == log0,
            log_sym == log_end.skip(log0.len() as int),
            forall|j: int| 0 <= j < num_symbols ==> #[trigger] log_sym[j] is Ok,
            faces_run(st_sym, traversal.config_log().skip(cfg0.len() as int), p) == Ok::<FaceState, DecodeError>(
                FaceState {
                    st: state_of(ct, is_vert_hole@, stack@, split_map@, invalid_vertices@, splits@),
                    init: init_corners@,
                    built: num_faces_built as nat,
                },
            ),
            p.num_faces == num_faces,
            p.num_symbols == num_symbols,
            log_sym.len() == num_symbols,
            rec_symbols(log_sym, p, splits0) == Ok::<RecState, DecodeError>(st_sym),
            traversal.config_log().len() - cfg0.len() + stack@.len() == st_sym.stack.len(),
        decreases stack.len(),
    {
        let ghost fs0 = FaceState {
            st: state_of(ct, is_vert_hole@, stack@, split_map@, invalid_vertices@, splits@),
            init: init_corners@,
            built: num_faces_built as nat,
        };
        let ghost cfgb = traversal.config_log();
        let corner = stack[stack.len() - 1];
        let _ = stack.pop();
        let interior = traversal.decode_start_face_config();
        let ghost bits = traversal.config_log().skip(cfg0.len() as int);
        proof {
            assert(bits.drop_last() =~= cfgb.skip(cfg0.len() as int));
            assert(bits.last() == interior);
            assert(traversal.config_log().take(cfg0.len() as int) =~= cfg0);
        }
        if interior {
            if num_faces_built >= num_faces {
                proof {
                    lemma_faces_fail(log_sym, bits, p, splits0, num_attribute_data > 0, st_sym, bad_stream());
                }
                return Err(DecodeError::MalformedConnectivity("invalid edgebreaker symbol stream"));
            }
            let c0 = 3 * num_faces_built;
            let (x, y, z) = match place_start_face(&mut ct, corner, c0, Ghost(gnc)) {
                Ok(v) => v,
                Err(e) => {
                    proof {
                        lemma_faces_fail(log_sym, bits, p, splits0, num_attribute_data > 0, st_sym, e);
                    }
                    return Err(e);
                },
            };
            is_vert_hole.set(x, false);
            is_vert_hole.set(y, false);
            is_vert_hole.set(z, false);
            init_corners.push(c0);
            num_faces_built += 1;
        } else {
            init_corners.push(corner);
        }
        assert(all_below(stack@, (3 * num_faces_built) as nat)) by {
            assert forall|i: int| 0 <= i < stack@.len() implies #[trigger] stack@[i] < 3 * num_faces_built by {
            }
        }
        assert(all_below(init_corners@, (3 * num_faces_built) as nat)) by {
            assert forall|i: int| 0 <= i < init_corners@.len() implies #[trigger] init_corners@[i] < 3 * num_faces_built by {
            }
        }
        proof {
            let fs1 = FaceState {
                st: state_of(ct, is_vert_hole@, stack@, split_map@, invalid_vertices@, splits@),
                init: init_corners@,
                built: num_faces_built as nat,
            };
            assert(face_step(fs0, interior, p) == Ok::<FaceState, DecodeError>(fs1));
        }
    }
    let ghost bits_end = traversal.config_log().skip(cfg0.len() as int);
    let ghost fs_end = FaceState {
        st: state_of(ct, is_vert_hole@, stack@, split_map@, invalid_vertices@, splits@),
        init: init_corners@,
        built: num_faces_built as nat,
    };
    if num_faces_built != num_faces {
        proof {
            lemma_count_fail(log_sym, bits_end, p, splits0, num_attribute_data > 0, st_sym, fs_end);
        }
        return Err(DecodeError::MalformedConnectivity("invalid edgebreaker symbol stream"));
    }
    let num_vertices = if remove_invalid_vertices {
        compact_vertices(&mut ct, &invalid_vertices, &mut is_vert_hole, Ghost(gnc))
    } else {
        ct.vertex_corners.len()
    };
    let rec = Reconstruction {
        opposite: ct.opposite,
        corner_to_vertex: ct.corner_to_vertex,
        vertex_corners: ct.vertex_corners,
        num_vertices,
        is_vert_hole,
        init_corners,
    };
    proof {
        lemma_replayed(log_sym, bits_end, p, splits0, num_attribute_data > 0, st_sym, fs_end, rec);
    }
    Ok(rec)
}

} // verus!
