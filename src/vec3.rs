//! The three axes of 3D space.

use vstd::prelude::*;

verus! {

/// The three dimensions of 3D space.
#[derive(Copy, Clone, Debug, PartialEq, Eq, Structural)]
pub enum Dimension {
    /// The `X` dimension.
    X,
    /// The `Y` dimension.
    Y,
    /// The `Z` dimension.
    Z,
}

impl Dimension {
    /// The position of the axis in a coordinate triple: 0 for `X`, 1 for `Y`, 2 for `Z`.
    pub open spec fn spec_index(self) -> nat {
        match self {
            Dimension::X => 0,
            Dimension::Y => 1,
            Dimension::Z => 2,
        }
    }

    /// The component of the triple `(x, y, z)` on this axis.
    pub open spec fn pick(self, x: i32, y: i32, z: i32) -> i32 {
        match self {
            Dimension::X => x,
            Dimension::Y => y,
            Dimension::Z => z,
        }
    }

    /// The position of the axis in a coordinate triple.
    pub fn index(self) -> (r: usize)
        ensures
            r == self.spec_index(),
            r < 3,
    {
        match self {
            Dimension::X => 0,
            Dimension::Y => 1,
            Dimension::Z => 2,
        }
    }

    /// The axis at position `i` of a coordinate triple.
    pub fn from_index(i: usize) -> (r: Dimension)
        requires
            i < 3,
        ensures
            r.spec_index() == i,
    {
        if i == 0 {
            Dimension::X
        } else if i == 1 {
            Dimension::Y
        } else {
            Dimension::Z
        }
    }

    /// The axis of greatest extent, given the order keys of the extents on
    /// `X`, `Y` and `Z`; of equal extents the later axis wins.
    pub fn longest(x: i32, y: i32, z: i32) -> (r: Dimension)
        ensures
            forall|d: Dimension| #[trigger]
                d.pick(x, y, z) <= r.pick(x, y, z) && (d.spec_index() > r.spec_index() ==> d.pick(
                    x,
                    y,
                    z,
                ) < r.pick(x, y, z)),
    {
        if x > y {
            if x > z {
                Dimension::X
            } else {
                Dimension::Z
            }
        } else if y > z {
            Dimension::Y
        } else {
            Dimension::Z
        }
    }

    /// All three axes, in the order `X`, `Y`, `Z`.
    pub fn all() -> (r: Vec<Dimension>)
        ensures
            r@ == seq![Dimension::X, Dimension::Y, Dimension::Z],
    {
        vec![Dimension::X, Dimension::Y, Dimension::Z]
    }
}

} // verus!
