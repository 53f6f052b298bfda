//! The slab test of an axis-aligned bounding box, over order keys of ray
//! parameters.
//!
//! On each axis a ray crosses the two planes of the box at two parameters;
//! between them it is inside the slab of that axis. The ray is inside the box
//! where it is inside all three slabs. The caller computes the crossings; the
//! library intersects the windows.

use crate::hittable::{key_max, key_min};
use vstd::prelude::*;

verus! {

/// Where the ray enters a slab: the smaller of its two crossings.
pub open spec fn slab_near(s: (i32, i32)) -> i32 {
    if s.0 < s.1 {
        s.0
    } else {
        s.1
    }
}

/// Where the ray leaves a slab: the larger of its two crossings.
pub open spec fn slab_far(s: (i32, i32)) -> i32 {
    if s.0 < s.1 {
        s.1
    } else {
        s.0
    }
}

/// The start of the window `(lo, _)` cut by the three slabs.
pub open spec fn window_low(lo: i32, slabs: [(i32, i32); 3]) -> i32 {
    key_max(
        key_max(key_max(lo, slab_near(slabs[0])), slab_near(slabs[1])),
        slab_near(slabs[2]),
    )
}

/// The end of the window `(_, hi)` cut by the three slabs.
pub open spec fn window_high(hi: i32, slabs: [(i32, i32); 3]) -> i32 {
    key_min(key_min(key_min(hi, slab_far(slabs[0])), slab_far(slabs[1])), slab_far(slabs[2]))
}

/// The part of the window `(lo, hi)` where a ray is inside a box, given the
/// keys of the ray's two crossings of the box's planes on each axis, in
/// either order: the window is narrowed slab by slab, and nothing is
/// returned as soon as it closes.
pub fn slab_window(lo: i32, hi: i32, slabs: [(i32, i32); 3]) -> (r: Option<(i32, i32)>)
    ensures
        r == if window_low(lo, slabs) < window_high(hi, slabs) {
            Some((window_low(lo, slabs), window_high(hi, slabs)))
        } else {
            None::<(i32, i32)>
        },
{
    let mut low = lo;
    let mut high = hi;
    let mut a: usize = 0;
    while a < 3
        invariant
            a <= 3,
            low == if a == 0 {
                lo
            } else if a == 1 {
                key_max(lo, slab_near(slabs[0]))
            } else if a == 2 {
                key_max(key_max(lo, slab_near(slabs[0])), slab_near(slabs[1]))
            } else {
                window_low(lo, slabs)
            },
            high == if a == 0 {
                hi
            } else if a == 1 {
                key_min(hi, slab_far(slabs[0]))
            } else if a == 2 {
                key_min(key_min(hi, slab_far(slabs[0])), slab_far(slabs[1]))
            } else {
                window_high(hi, slabs)
            },
            a > 0 ==> low < high,
        decreases 3 - a,
    {
        let (t0, t1) = slabs[a];
        let (near, far) = if t0 < t1 {
            (t0, t1)
        } else {
            (t1, t0)
        };
        if near > low {
            low = near;
        }
        if far < high {
            high = far;
        }
        if high <= low {
            // The window only narrows from here on, so it stays closed.
            return None;
        }
        a = a + 1;
    }
    Some((low, high))
}

/// Window `k` of the four that the slab test intersects: the query window
/// `(lo, hi)` for `k == 0`, else the slab of axis `k - 1`.
pub open spec fn part_window(lo: i32, hi: i32, slabs: [(i32, i32); 3], k: int) -> (i32, i32) {
    if k == 0 {
        (lo, hi)
    } else {
        (slab_near(slabs[k - 1]), slab_far(slabs[k - 1]))
    }
}

/// The slab test finds nothing exactly when two of the four windows it
/// intersects (the query window and the three slabs) are apart: one starts
/// at or after the other ends.
pub proof fn lemma_slab_window_empty(lo: i32, hi: i32, slabs: [(i32, i32); 3])
    ensures
        window_low(lo, slabs) >= window_high(hi, slabs) <==> exists|i: int, j: int|
            0 <= i < 4 && 0 <= j < 4 && #[trigger] part_window(lo, hi, slabs, i).0
                >= #[trigger] part_window(lo, hi, slabs, j).1,
{
    let low = window_low(lo, slabs);
    let high = window_high(hi, slabs);
    if low >= high {
        let i = if low == lo {
            0
        } else if low == slab_near(slabs[0]) {
            1
        } else if low == slab_near(slabs[1]) {
            2
        } else {
            3
        };
        let j = if high == hi {
            0
        } else if high == slab_far(slabs[0]) {
            1
        } else if high == slab_far(slabs[1]) {
            2
        } else {
            3
        };
        assert(part_window(lo, hi, slabs, i).0 == low);
        assert(part_window(lo, hi, slabs, j).1 == high);
    }
    assert forall|i: int, j: int|
        0 <= i < 4 && 0 <= j < 4 implies #[trigger] part_window(lo, hi, slabs, i).0 <= low
        && #[trigger] part_window(lo, hi, slabs, j).1 >= high by {}
}

/// A ray that is inside every slab and the window at some parameter `t`, as
/// one through the box's center is, hits the box, and `t` lies in the
/// window that the slab test returns.
pub proof fn lemma_slab_window_contains(lo: i32, hi: i32, slabs: [(i32, i32); 3], t: i32)
    requires
        lo < t < hi,
        forall|a: int| 0 <= a < 3 ==> slab_near(#[trigger] slabs[a]) < t < slab_far(slabs[a]),
    ensures
        window_low(lo, slabs) < t < window_high(hi, slabs),
{
    assert(slab_near(slabs[0]) < t < slab_far(slabs[0]));
    assert(slab_near(slabs[1]) < t < slab_far(slabs[1]));
    assert(slab_near(slabs[2]) < t < slab_far(slabs[2]));
}

} // verus!
