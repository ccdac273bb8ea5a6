//! Bookkeeping for the `KHR_draco_mesh_compression` glTF extension: the
//! attribute-id table, primitive modes, and bufferView renumbering.

use vstd::prelude::*;

verus! {

/// The attribute name to draco attribute id table of one primitive.
#[derive(Debug, Clone, Default)]
pub struct DracoAttributeIds {
    /// The entries, each name at most once, in first-insertion order.
    ids: Vec<(String, u32)>,
}

impl DracoAttributeIds {
    /// The entries, in first-insertion order.
    pub closed spec fn entries(&self) -> Seq<(String, u32)> {
        self.ids@
    }

    /// The table as a map from names to ids.
    pub closed spec fn id_map(&self) -> Map<Seq<char>, u32> {
        Map::new(
            |k: Seq<char>| exists|i: int| 0 <= i < self.ids@.len() && (#[trigger] self.ids@[i]).0@ == k,
            |k: Seq<char>| self.ids@[choose|i: int| 0 <= i < self.ids@.len() && (#[trigger] self.ids@[i]).0@ == k].1,
        )
    }

    /// No name occurs twice.
    pub closed spec fn wf(&self) -> bool {
        forall|i: int, j: int|
            0 <= i < j < self.ids@.len() ==> (#[trigger] self.ids@[i]).0@ != (#[trigger] self.ids@[j]).0@
    }

    /// An empty table.
    pub fn new() -> (r: Self)
        ensures
            r.wf(),
            r.entries().len() == 0,
            r.id_map() == Map::<Seq<char>, u32>::empty(),
    {
        let r = Self { ids: Vec::new() };
        assert(r.id_map() =~= Map::<Seq<char>, u32>::empty());
        r
    }

    /// The entries, each name at most once, in first-insertion order.
    pub fn ids(&self) -> (r: &[(String, u32)])
        ensures
            r@ == self.entries(),
    {
        self.ids.as_slice()
    }

    /// Maps `name` to `id`, replacing an earlier id for the same name.
    pub fn insert(&mut self, name: &str, id: u32)
        requires
            old(self).wf(),
        ensures
            final(self).wf(),
            final(self).id_map() == old(self).id_map().insert(name@, id),
            final(self).entries().len() == old(self).entries().len() + if old(self).id_map().dom().contains(name@) {
                0int
            } else {
                1int
            },
    {
        let key = name.to_owned();
        let mut i: usize = 0;
        while i < self.ids.len()
            invariant
                i <= self.ids@.len(),
                self.ids@ == old(self).ids@,
                old(self).wf(),
                key@ == name@,
                forall|j: int| 0 <= j < i ==> (#[trigger] self.ids@[j]).0@ != name@,
            decreases self.ids.len() - i,
        {
            if self.ids[i].0 == key {
                let ghost before = self.ids@;
                self.ids.set(i, (key, id));
                proof {
                    assert forall|a: int, b: int| 0 <= a < b < self.ids@.len() implies (#[trigger] self.ids@[a]).0@
                        != (#[trigger] self.ids@[b]).0@ by {
                        assert(before[a].0@ != before[b].0@);
                    }
                    assert forall|k: Seq<char>| #[trigger] self.id_map().dom().contains(k) == old(self).id_map().insert(name@, id).dom().contains(k) by {
                        if k == name@ {
                            assert(self.ids@[i as int].0@ == k);
                            assert(before[i as int].0@ == k);
                        } else if old(self).id_map().dom().contains(k) {
                            let w = choose|t: int| 0 <= t < before.len() && (#[trigger] before[t]).0@ == k;
                            assert(self.ids@[w].0@ == k);
                        } else if self.id_map().dom().contains(k) {
                            let w = choose|t: int| 0 <= t < self.ids@.len() && (#[trigger] self.ids@[t]).0@ == k;
                            assert(before[w].0@ == k);
                        }
                    }
                    assert forall|k: Seq<char>| #[trigger] self.id_map().dom().contains(k) implies self.id_map()[k] == old(self).id_map().insert(name@, id)[k] by {
                        let w = choose|t: int| 0 <= t < self.ids@.len() && (#[trigger] self.ids@[t]).0@ == k;
                        if k == name@ {
                            assert(w == i);
                        } else {
                            assert(before[w].0@ == k);
                            let w2 = choose|t: int| 0 <= t < before.len() && (#[trigger] before[t]).0@ == k;
                            assert(w2 == w);
                        }
                    }
                    assert(self.id_map() =~= old(self).id_map().insert(name@, id));
                    assert(before[i as int].0@ == name@);
                    assert(old(self).id_map().dom().contains(name@));
                }
                return;
            }
            i += 1;
        }
        let ghost before = self.ids@;
        self.ids.push((key, id));
        proof {
            let n = before.len() as int;
            assert(!old(self).id_map().dom().contains(name@));
            assert forall|a: int, b: int| 0 <= a < b < self.ids@.len() implies (#[trigger] self.ids@[a]).0@
                != (#[trigger] self.ids@[b]).0@ by {
                if b < n {
                    assert(before[a].0@ != before[b].0@);
                }
            }
            assert forall|k: Seq<char>| #[trigger] self.id_map().dom().contains(k) == old(self).id_map().insert(name@, id).dom().contains(k) by {
                if k == name@ {
                    assert(self.ids@[n].0@ == k);
                } else if old(self).id_map().dom().contains(k) {
                    let w = choose|t: int| 0 <= t < before.len() && (#[trigger] before[t]).0@ == k;
                    assert(self.ids@[w].0@ == k);
                } else if self.id_map().dom().contains(k) {
                    let w = choose|t: int| 0 <= t < self.ids@.len() && (#[trigger] self.ids@[t]).0@ == k;
                    assert(before[w].0@ == k);
                }
            }
            assert forall|k: Seq<char>| #[trigger] self.id_map().dom().contains(k) implies self.id_map()[k] == old(self).id_map().insert(name@, id)[k] by {
                let w = choose|t: int| 0 <= t < self.ids@.len() && (#[trigger] self.ids@[t]).0@ == k;
                if k == name@ {
                    assert(w == n);
                } else {
                    assert(before[w].0@ == k);
                    let w2 = choose|t: int| 0 <= t < before.len() && (#[trigger] before[t]).0@ == k;
                    assert(w2 == w);
                }
            }
            assert(self.id_map() =~= old(self).id_map().insert(name@, id));
        }
    }
}

/// The glTF name of a primitive mode.
pub fn primitive_mode_name(mode: u64) -> (r: &'static str)
    ensures
        mode == 0 ==> r@ == "POINTS"@,
        mode == 1 ==> r@ == "LINES"@,
        mode == 2 ==> r@ == "LINE_LOOP"@,
        mode == 3 ==> r@ == "LINE_STRIP"@,
        mode == 4 ==> r@ == "TRIANGLES"@,
        mode == 5 ==> r@ == "TRIANGLE_STRIP"@,
        mode == 6 ==> r@ == "TRIANGLE_FAN"@,
        mode > 6 ==> r@ == "UNKNOWN"@,
{
    match mode {
        0 => "POINTS",
        1 => "LINES",
        2 => "LINE_LOOP",
        3 => "LINE_STRIP",
        4 => "TRIANGLES",
        5 => "TRIANGLE_STRIP",
        6 => "TRIANGLE_FAN",
        _ => "UNKNOWN",
    }
}

/// Whether a primitive with the given `mode` field draws triangles; a
/// missing mode means triangles.
pub fn is_triangle_mode(mode: Option<u64>) -> (b: bool)
    ensures
        b <==> (mode is None || mode == Some(4u64)),
{
    match mode {
        Some(m) => m == 4,
        None => true,
    }
}

/// Number of kept views among the first `i`.
pub open spec fn kept_before(removed: Seq<bool>, i: int) -> nat
    decreases i,
{
    if i <= 0 {
        0
    } else {
        kept_before(removed, i - 1) + if removed[i - 1] {
            0nat
        } else {
            1nat
        }
    }
}

/// The new index of each bufferView once the views flagged in `removed` are
/// dropped: `None` for a dropped view, else the number of kept views before
/// it.
pub fn buffer_view_remap(removed: &[bool]) -> (r: Vec<Option<usize>>)
    ensures
        r@.len() == removed@.len(),
        forall|i: int|
            0 <= i < removed@.len() ==> (#[trigger] r@[i]) == if removed@[i] {
                None
            } else {
                Some(kept_before(removed@, i) as usize)
            },
{
    let mut out: Vec<Option<usize>> = Vec::new();
    let mut kept: usize = 0;
    let mut i: usize = 0;
    while i < removed.len()
        invariant
            i <= removed@.len(),
            out@.len() == i,
            kept == kept_before(removed@, i as int),
            kept <= i,
            forall|j: int|
                0 <= j < i ==> (#[trigger] out@[j]) == if removed@[j] {
                    None
                } else {
                    Some(kept_before(removed@, j) as usize)
                },
        decreases removed.len() - i,
    {
        if removed[i] {
            out.push(None);
        } else {
            out.push(Some(kept));
            kept += 1;
        }
        i += 1;
    }
    out
}

/// Pads `buf` with zeros to a multiple of four bytes.
pub fn align_to_4(buf: &mut Vec<u8>)
    ensures
        final(buf)@.len() % 4 == 0,
        final(buf)@.len() < old(buf)@.len() + 4,
        final(buf)@.subrange(0, old(buf)@.len() as int) == old(buf)@,
        forall|i: int| old(buf)@.len() <= i < final(buf)@.len() ==> final(buf)@[i] == 0,
{
    let ghost t: int = old(buf)@.len() + (4 - old(buf)@.len() % 4) % 4;
    while buf.len() % 4 != 0
        invariant
            old(buf)@.len() <= buf@.len() <= t,
            t % 4 == 0,
            t < old(buf)@.len() + 4,
            buf@.subrange(0, old(buf)@.len() as int) == old(buf)@,
            forall|i: int| old(buf)@.len() <= i < buf@.len() ==> buf@[i] == 0,
        decreases t - buf@.len(),
    {
        buf.push(0);
        proof {
            assert(buf@.subrange(0, old(buf)@.len() as int) =~= old(buf)@);
        }
    }
}

/// The glTF accessor type for a component count.
pub fn accessor_type_from_dim(dim: u8) -> (r: &'static str)
    ensures
        dim == 2 ==> r@ == "VEC2"@,
        dim == 3 ==> r@ == "VEC3"@,
        dim == 4 ==> r@ == "VEC4"@,
        !(2 <= dim <= 4) ==> r@ == "SCALAR"@,
{
    match dim {
        1 => "SCALAR",
        2 => "VEC2",
        3 => "VEC3",
        4 => "VEC4",
        _ => "SCALAR",
    }
}

} // verus!
