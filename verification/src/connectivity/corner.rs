//! Corner arithmetic: the three corners of face `f` are `3f`, `3f + 1` and
//! `3f + 2`, walked counter-clockwise by `next`.

use vstd::prelude::*;

verus! {

/// The sentinel for "no corner" and "no vertex".
pub const INVALID: usize = usize::MAX;

/// The corner after `c` in its face.
pub open spec fn next_spec(c: int) -> int {
    if c % 3 == 2 {
        c - 2
    } else {
        c + 1
    }
}

/// The corner before `c` in its face.
pub open spec fn prev_spec(c: int) -> int {
    if c % 3 == 0 {
        c + 2
    } else {
        c - 1
    }
}

/// The corner after `c` in its face.
pub fn next(c: usize) -> (r: usize)
    requires
        c < INVALID,
    ensures
        r == next_spec(c as int),
{
    if c % 3 == 2 {
        c - 2
    } else {
        c + 1
    }
}

/// The corner before `c` in its face.
pub fn previous(c: usize) -> (r: usize)
    requires
        c < INVALID - 2,
    ensures
        r == prev_spec(c as int),
{
    if c % 3 == 0 {
        c + 2
    } else {
        c - 1
    }
}

/// The face a corner belongs to.
pub fn face_of(c: usize) -> (f: usize)
    ensures
        f == c / 3,
{
    c / 3
}

/// `next` and `previous` stay in the face, undo each other, and three steps
/// of either come back.
pub proof fn lemma_corner_cycle(c: int)
    requires
        c >= 0,
    ensures
        next_spec(c) / 3 == c / 3,
        prev_spec(c) / 3 == c / 3,
        prev_spec(next_spec(c)) == c,
        next_spec(prev_spec(c)) == c,
        next_spec(next_spec(next_spec(c))) == c,
        next_spec(next_spec(c)) == prev_spec(c),
        next_spec(c) != c,
        prev_spec(c) != c,
        next_spec(c) >= 0,
        prev_spec(c) >= 0,
{
}

} // verus!
