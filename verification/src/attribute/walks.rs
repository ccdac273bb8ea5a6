//! The order in which the group walks of an edgebreaker mesh run: two
//! waves, the second for the attributes predicted from a decoded position,
//! with two-component normals fused into their position's first-wave walk
//! where they can be.

use vstd::prelude::*;
use crate::error::DecodeError;

verus! {

/// The first attribute in `lo..hi` that can parent a geometric
/// prediction.
pub open spec fn first_parent_from(parent_ok: Seq<bool>, lo: int, hi: int) -> Option<int>
    decreases hi - lo,
{
    if lo >= hi {
        None
    } else if parent_ok[lo] {
        Some(lo)
    } else {
        first_parent_from(parent_ok, lo + 1, hi)
    }
}

/// Whether attribute `i` is a normal fused into the first-wave walk of its
/// group: a two-component normal whose first possible parent before it
/// walks in that same first wave.
pub open spec fn fused_normal(ids: Seq<usize>, needs_parent: Seq<bool>, fusable: Seq<bool>, parent_ok: Seq<bool>, i: int) -> bool {
    &&& needs_parent[i]
    &&& fusable[i]
    &&& match first_parent_from(parent_ok, 0, i) {
        Some(j) => ids[j] == ids[i] && !needs_parent[j],
        None => false,
    }
}

/// The wave attribute `i` is decoded in: the second for the schemes that
/// predict from a decoded position (unless fused into the first), the
/// first otherwise.
pub open spec fn wave_of(ids: Seq<usize>, needs_parent: Seq<bool>, fusable: Seq<bool>, parent_ok: Seq<bool>, i: int) -> u8 {
    if needs_parent[i] && !fused_normal(ids, needs_parent, fusable, parent_ok, i) {
        1
    } else {
        0
    }
}

/// Whether attribute `j` is decoded before the second-wave walk of group
/// `rep` runs: in the first wave, or in the second by a group led earlier.
pub open spec fn decoded_before(ids: Seq<usize>, needs_parent: Seq<bool>, fusable: Seq<bool>, parent_ok: Seq<bool>, j: int, rep: int) -> bool {
    wave_of(ids, needs_parent, fusable, parent_ok, j) == 0 || ids[j] < rep
}

/// The first attribute in `lo..hi` that can parent a geometric prediction
/// and is decoded before the second-wave walk of group `rep`.
pub open spec fn first_decoded_parent_from(
    ids: Seq<usize>,
    needs_parent: Seq<bool>,
    fusable: Seq<bool>,
    parent_ok: Seq<bool>,
    lo: int,
    hi: int,
    rep: int,
) -> Option<int>
    decreases hi - lo,
{
    if lo >= hi {
        None
    } else if parent_ok[lo] && decoded_before(ids, needs_parent, fusable, parent_ok, lo, rep) {
        Some(lo)
    } else {
        first_decoded_parent_from(ids, needs_parent, fusable, parent_ok, lo + 1, hi, rep)
    }
}

/// The order of the group walks over an edgebreaker mesh. Walks run in two
/// waves, groups in order of their first attribute within a wave; the
/// second wave decodes the attributes predicted from a decoded position.
pub struct WalkPlan {
    /// Per attribute: the wave its group walk decodes it in.
    pub wave: Vec<u8>,
    /// Per attribute: for a normal fused into a first-wave walk, the
    /// position attribute whose values it is predicted from.
    pub fused_with: Vec<Option<usize>>,
    /// Per attribute: for a second-wave attribute, the decoded position
    /// attribute it is predicted from.
    pub parent: Vec<Option<usize>>,
    /// Per group (at its first attribute): whether its first-wave walk is
    /// recorded to be replayed by its second-wave walk.
    pub record_walk: Vec<bool>,
    /// The last group cut along interior seams, whose walk assembles the
    /// points.
    pub assembly_rep: Option<usize>,
}

/// Whether some attribute of group `rep` is decoded in wave `w`.
pub open spec fn group_has_wave(
    ids: Seq<usize>,
    needs_parent: Seq<bool>,
    fusable: Seq<bool>,
    parent_ok: Seq<bool>,
    rep: int,
    w: u8,
) -> bool {
    exists|i: int| 0 <= i < ids.len() && ids[i] == rep && #[trigger] wave_of(ids, needs_parent, fusable, parent_ok, i) == w
}

/// The last group lead in `0..n` cut along interior seams.
pub open spec fn last_interior_rep(ids: Seq<usize>, interior: Seq<bool>, n: int) -> Option<int>
    decreases n,
{
    if n <= 0 {
        None
    } else if ids[n - 1] == n - 1 && interior[n - 1] {
        Some(n - 1)
    } else {
        last_interior_rep(ids, interior, n - 1)
    }
}

/// Whether some walk cut along interior seams would carry a fused normal,
/// which only walks over the position connectivity can.
pub open spec fn fused_into_interior(
    ids: Seq<usize>,
    interior: Seq<bool>,
    needs_parent: Seq<bool>,
    fusable: Seq<bool>,
    parent_ok: Seq<bool>,
) -> bool {
    exists|i: int| 0 <= i < ids.len() && #[trigger] fused_normal(ids, needs_parent, fusable, parent_ok, i) && interior[ids[i] as int]
}

/// Whether some second-wave attribute finds no decoded position to be
/// predicted from.
pub open spec fn parent_missing(ids: Seq<usize>, needs_parent: Seq<bool>, fusable: Seq<bool>, parent_ok: Seq<bool>) -> bool {
    exists|i: int|
        0 <= i < ids.len() && #[trigger] wave_of(ids, needs_parent, fusable, parent_ok, i) == 1
            && first_decoded_parent_from(ids, needs_parent, fusable, parent_ok, 0, i, ids[i] as int) is None
}

proof fn lemma_first_parent_extend(parent_ok: Seq<bool>, lo: int, hi: int)
    requires
        0 <= lo <= hi,
    ensures
        first_parent_from(parent_ok, lo, hi + 1) == match first_parent_from(parent_ok, lo, hi) {
            Some(j) => Some(j),
            None => if parent_ok[hi] {
                Some(hi)
            } else {
                None
            },
        },
        first_parent_from(parent_ok, lo, hi) matches Some(j) ==> lo <= j < hi && parent_ok[j],
    decreases hi - lo,
{
    if lo < hi {
        lemma_first_parent_extend(parent_ok, lo + 1, hi);
        assert(first_parent_from(parent_ok, lo, hi + 1) == if parent_ok[lo] {
            Some(lo)
        } else {
            first_parent_from(parent_ok, lo + 1, hi + 1)
        });
    } else {
        assert(first_parent_from(parent_ok, lo + 1, hi + 1) is None);
        assert(first_parent_from(parent_ok, lo, hi) is None);
    }
}

/// For each attribute, the first attribute before it that can parent a
/// geometric prediction.
fn first_parents(parent_ok: &Vec<bool>) -> (r: Vec<Option<usize>>)
    ensures
        r@.len() == parent_ok@.len(),
        forall|i: int| 0 <= i < r@.len() ==> #[trigger] opt_int(r@[i]) == first_parent_from(parent_ok@, 0, i),
{
    let mut out: Vec<Option<usize>> = Vec::new();
    let mut first: Option<usize> = None;
    let mut i: usize = 0;
    while i < parent_ok.len()
        invariant
            i <= parent_ok@.len(),
            out@.len() == i,
            opt_int(first) == first_parent_from(parent_ok@, 0, i as int),
            forall|m: int| 0 <= m < i ==> #[trigger] opt_int(out@[m]) == first_parent_from(parent_ok@, 0, m),
        decreases parent_ok@.len() - i,
    {
        proof {
            lemma_first_parent_extend(parent_ok@, 0, i as int);
        }
        out.push(first);
        if first.is_none() && parent_ok[i] {
            first = Some(i);
        }
        i = i + 1;
    }
    out
}

/// An optional index as an optional integer.
pub open spec fn opt_int(o: Option<usize>) -> Option<int> {
    match o {
        Some(j) => Some(j as int),
        None => None,
    }
}

/// Whether `p` is the plan for attributes with groups `ids`, interior
/// flags `interior`, and the scheme and parent flags given.
pub open spec fn plan_matches(
    p: WalkPlan,
    ids: Seq<usize>,
    interior: Seq<bool>,
    needs_parent: Seq<bool>,
    fusable: Seq<bool>,
    parent_ok: Seq<bool>,
) -> bool {
    &&& p.wave@.len() == ids.len()
    &&& p.fused_with@.len() == ids.len()
    &&& p.parent@.len() == ids.len()
    &&& p.record_walk@.len() == ids.len()
    &&& opt_int(p.assembly_rep) == last_interior_rep(ids, interior, ids.len() as int)
    &&& forall|i: int| 0 <= i < ids.len() ==> {
        &&& #[trigger] p.wave@[i] == wave_of(ids, needs_parent, fusable, parent_ok, i)
        &&& opt_int(p.fused_with@[i]) == if fused_normal(ids, needs_parent, fusable, parent_ok, i) {
            first_parent_from(parent_ok, 0, i)
        } else {
            None
        }
        &&& opt_int(p.parent@[i]) == if p.wave@[i] == 1 {
            first_decoded_parent_from(ids, needs_parent, fusable, parent_ok, 0, i, ids[i] as int)
        } else {
            None
        }
        &&& p.record_walk@[i] == (ids[i] == i && group_has_wave(ids, needs_parent, fusable, parent_ok, i, 0)
            && group_has_wave(ids, needs_parent, fusable, parent_ok, i, 1))
    }
}

/// Plans the group walks: the wave of every attribute, the fused normals
/// and the decoded position each second-wave attribute is predicted from,
/// which first-wave walks are recorded, and which walk assembles the
/// points. `ids` gives each attribute's group (its first attribute),
/// `needs_parent` whether its scheme predicts from a decoded position,
/// `fusable` whether it is a two-component normal prediction, `parent_ok`
/// whether it can parent a geometric prediction.
pub fn plan_walks(
    ids: &Vec<usize>,
    interior: &Vec<bool>,
    needs_parent: &Vec<bool>,
    fusable: &Vec<bool>,
    parent_ok: &Vec<bool>,
) -> (r: Result<WalkPlan, DecodeError>)
    requires
        interior@.len() == ids@.len(),
        needs_parent@.len() == ids@.len(),
        fusable@.len() == ids@.len(),
        parent_ok@.len() == ids@.len(),
        forall|i: int| 0 <= i < ids@.len() ==> #[trigger] ids@[i] <= i,
    ensures
        fused_into_interior(ids@, interior@, needs_parent@, fusable@, parent_ok@) ==> r == Err::<WalkPlan, DecodeError>(
            DecodeError::MalformedAttribute("a walk cut along interior seams cannot carry a fused normal"),
        ),
        !fused_into_interior(ids@, interior@, needs_parent@, fusable@, parent_ok@) && parent_missing(
            ids@,
            needs_parent@,
            fusable@,
            parent_ok@,
        ) ==> r == Err::<WalkPlan, DecodeError>(
            DecodeError::MalformedAttribute("geometric prediction requires an already decoded position attribute"),
        ),
        !fused_into_interior(ids@, interior@, needs_parent@, fusable@, parent_ok@) && !parent_missing(
            ids@,
            needs_parent@,
            fusable@,
            parent_ok@,
        ) ==> (r matches Ok(p) && plan_matches(p, ids@, interior@, needs_parent@, fusable@, parent_ok@)),
{
    let n = ids.len();
    let fp = first_parents(parent_ok);
    let ghost g = ids@;
    let ghost np = needs_parent@;
    let ghost fu = fusable@;
    let ghost po = parent_ok@;
    // Waves and fused normals.
    let mut wave: Vec<u8> = Vec::new();
    let mut fused_with: Vec<Option<usize>> = Vec::new();
    let mut i: usize = 0;
    while i < n
        invariant
            n == g.len(),
            g == ids@,
            np == needs_parent@,
            fu == fusable@,
            po == parent_ok@,
            np.len() == n,
            fu.len() == n,
            po.len() == n,
            fp@.len() == n,
            forall|m: int| 0 <= m < n ==> #[trigger] opt_int(fp@[m]) == first_parent_from(po, 0, m),
            forall|m: int| 0 <= m < n ==> #[trigger] g[m] <= m,
            i <= n,
            wave@.len() == i,
            fused_with@.len() == i,
            forall|m: int| 0 <= m < i ==> #[trigger] wave@[m] == wave_of(g, np, fu, po, m),
            forall|m: int|
                0 <= m < i ==> #[trigger] opt_int(fused_with@[m]) == if fused_normal(g, np, fu, po, m) {
                    first_parent_from(po, 0, m)
                } else {
                    None
                },
        decreases n - i,
    {
        proof {
            lemma_first_parent_extend(po, 0, i as int);
            if i > 0 {
                lemma_first_parent_extend(po, 0, (i - 1) as int);
            }
        }
        let is_fused = needs_parent[i] && fusable[i] && match fp[i] {
            Some(j) => {
                proof {
                    assert(opt_int(fp@[i as int]) == first_parent_from(po, 0, i as int));
                }
                ids[j] == ids[i] && !needs_parent[j]
            },
            None => false,
        };
        wave.push(if needs_parent[i] && !is_fused { 1u8 } else { 0u8 });
        fused_with.push(if is_fused { fp[i] } else { None });
        i = i + 1;
    }
    // A fused normal cannot ride a walk cut along interior seams.
    let mut k: usize = 0;
    while k < n
        invariant
            n == g.len(),
            g == ids@,
            np == needs_parent@,
            fu == fusable@,
            po == parent_ok@,
            interior@.len() == n,
            fused_with@.len() == n,
            forall|m: int| 0 <= m < n ==> #[trigger] g[m] <= m,
            forall|m: int|
                0 <= m < n ==> #[trigger] opt_int(fused_with@[m]) == if fused_normal(g, np, fu, po, m) {
                    first_parent_from(po, 0, m)
                } else {
                    None
                },
            forall|m: int| 0 <= m < n ==> #[trigger] fused_normal(g, np, fu, po, m) ==> first_parent_from(po, 0, m) is Some,
            k <= n,
            forall|m: int| 0 <= m < k ==> !(#[trigger] fused_normal(g, np, fu, po, m) && interior@[g[m] as int]),
        decreases n - k,
    {
        proof {
            assert(opt_int(fused_with@[k as int]) == if fused_normal(g, np, fu, po, k as int) {
                first_parent_from(po, 0, k as int)
            } else {
                None
            });
            assert(fused_with@[k as int].is_some() == fused_normal(g, np, fu, po, k as int));
        }
        if fused_with[k].is_some() && interior[ids[k]] {
            proof {
                assert(fused_normal(g, np, fu, po, k as int) && interior@[g[k as int] as int]);
            }
            return Err(DecodeError::MalformedAttribute("a walk cut along interior seams cannot carry a fused normal"));
        }
        k = k + 1;
    }
    proof {
        assert(!fused_into_interior(g, interior@, np, fu, po));
    }
    // The decoded position each second-wave attribute is predicted from.
    let mut parent: Vec<Option<usize>> = Vec::new();
    let mut i: usize = 0;
    while i < n
        invariant
            n == g.len(),
            g == ids@,
            np == needs_parent@,
            fu == fusable@,
            po == parent_ok@,
            po.len() == n,
            wave@.len() == n,
            forall|m: int| 0 <= m < n ==> #[trigger] g[m] <= m,
            forall|m: int| 0 <= m < n ==> #[trigger] wave@[m] == wave_of(g, np, fu, po, m),
            !fused_into_interior(g, interior@, np, fu, po),
            i <= n,
            parent@.len() == i,
            forall|m: int| 0 <= m < i && #[trigger] wave@[m] == 1 ==> parent@[m] is Some,
            forall|m: int|
                0 <= m < i ==> #[trigger] opt_int(parent@[m]) == if wave@[m] == 1 {
                    first_decoded_parent_from(g, np, fu, po, 0, m, g[m] as int)
                } else {
                    None
                },
        decreases n - i,
    {
        if wave[i] == 1 {
            let rep = ids[i];
            let mut j: usize = 0;
            let mut found: Option<usize> = None;
            while found.is_none() && j < i
                invariant
                    n == g.len(),
                    g == ids@,
                    np == needs_parent@,
                    fu == fusable@,
                    po == parent_ok@,
                    po.len() == n,
                    wave@.len() == n,
                    forall|m: int| 0 <= m < n ==> #[trigger] wave@[m] == wave_of(g, np, fu, po, m),
                    i < n,
                    rep == g[i as int],
                    j <= i,
                    found.is_none() ==> first_decoded_parent_from(g, np, fu, po, 0, i as int, rep as int)
                        == first_decoded_parent_from(g, np, fu, po, j as int, i as int, rep as int),
                    found matches Some(f) ==> first_decoded_parent_from(g, np, fu, po, 0, i as int, rep as int)
                        == Some(f as int),
                decreases i - j + (if found.is_none() { 1int } else { 0int }),
            {
                proof {
                    assert(wave@[j as int] == wave_of(g, np, fu, po, j as int));
                }
                if parent_ok[j] && (wave[j] == 0 || ids[j] < rep) {
                    found = Some(j);
                } else {
                    j = j + 1;
                }
            }
            if found.is_none() {
                proof {
                    assert(parent_missing(g, np, fu, po)) by {
                        assert(wave_of(g, np, fu, po, i as int) == 1);
                    }
                }
                return Err(DecodeError::MalformedAttribute("geometric prediction requires an already decoded position attribute"));
            }
            parent.push(found);
        } else {
            parent.push(None);
        }
        i = i + 1;
    }
    proof {
        assert forall|m: int| 0 <= m < n && #[trigger] wave_of(g, np, fu, po, m) == 1 implies first_decoded_parent_from(
            g,
            np,
            fu,
            po,
            0,
            m,
            g[m] as int,
        ) is Some by {
            assert(wave@[m] == wave_of(g, np, fu, po, m));
            assert(parent@[m] is Some);
            assert(opt_int(parent@[m]) == first_decoded_parent_from(g, np, fu, po, 0, m, g[m] as int));
        }
        assert(!parent_missing(g, np, fu, po));
    }
    // Which first-wave walks are recorded for their second wave.
    let mut record_walk: Vec<bool> = Vec::new();
    let mut r: usize = 0;
    while r < n
        invariant
            n == g.len(),
            g == ids@,
            wave@.len() == n,
            forall|m: int| 0 <= m < n ==> #[trigger] wave@[m] == wave_of(g, np, fu, po, m),
            r <= n,
            record_walk@.len() == r,
            forall|m: int|
                0 <= m < r ==> #[trigger] record_walk@[m] == (g[m] == m && group_has_wave(g, np, fu, po, m, 0)
                    && group_has_wave(g, np, fu, po, m, 1)),
        decreases n - r,
    {
        let mut has0 = false;
        let mut has1 = false;
        let mut m: usize = 0;
        while m < n
            invariant
                n == g.len(),
                g == ids@,
                wave@.len() == n,
                forall|q: int| 0 <= q < n ==> #[trigger] wave@[q] == wave_of(g, np, fu, po, q),
                r < n,
                m <= n,
                has0 <==> exists|q: int| 0 <= q < m && g[q] == r && #[trigger] wave_of(g, np, fu, po, q) == 0,
                has1 <==> exists|q: int| 0 <= q < m && g[q] == r && #[trigger] wave_of(g, np, fu, po, q) == 1,
            decreases n - m,
        {
            if ids[m] == r {
                if wave[m] == 0 {
                    has0 = true;
                } else if wave[m] == 1 {
                    has1 = true;
                }
            }
            proof {
                assert(wave@[m as int] == wave_of(g, np, fu, po, m as int));
            }
            m = m + 1;
        }
        record_walk.push(ids[r] == r && has0 && has1);
        r = r + 1;
    }
    // The last group cut along interior seams assembles the points.
    let mut assembly_rep: Option<usize> = None;
    let mut q: usize = 0;
    while q < n
        invariant
            n == g.len(),
            g == ids@,
            interior@.len() == n,
            q <= n,
            opt_int(assembly_rep) == last_interior_rep(g, interior@, q as int),
        decreases n - q,
    {
        if ids[q] == q && interior[q] {
            assembly_rep = Some(q);
        }
        q = q + 1;
    }
    Ok(WalkPlan { wave, fused_with, parent, record_walk, assembly_rep })
}

} // verus!
