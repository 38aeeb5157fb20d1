//! The two-dimensional model with nine velocities.
//!
//! Index of the vectors:
//!     6   2   5
//!       \ | /
//!     3 - 0 - 1
//!       / | \
//!     7   4   8
use vstd::prelude::*;

use crate::lattice::{as_ints, flipped, negated, Lattice};

verus! {

/// Component 0 of vector `i`.
pub open spec fn vector_x(i: int) -> int {
    if i == 0 {
        0
    } else if i == 1 {
        1
    } else if i == 2 {
        0
    } else if i == 3 {
        -1
    } else if i == 4 {
        0
    } else if i == 5 {
        1
    } else if i == 6 {
        -1
    } else if i == 7 {
        -1
    } else {
        1
    }
}

/// Component 1 of vector `i`.
pub open spec fn vector_y(i: int) -> int {
    if i == 0 {
        0
    } else if i == 1 {
        0
    } else if i == 2 {
        1
    } else if i == 3 {
        0
    } else if i == 4 {
        -1
    } else if i == 5 {
        1
    } else if i == 6 {
        1
    } else if i == 7 {
        -1
    } else {
        -1
    }
}

/// Lattice vectors of the model.
pub fn lattice_vectors() -> (r: [[isize; 2]; 9])
    ensures
        forall|i: int| 0 <= i < 9 ==> #[trigger] r@[i]@ =~= seq![vector_x(i) as isize, vector_y(i) as isize],
{
    let r: [[isize; 2]; 9] = [
        [0, 0],
        [1, 0],
        [0, 1],
        [-1, 0],
        [0, -1],
        [1, 1],
        [-1, 1],
        [-1, -1],
        [1, -1],
    ];
    assert(forall|i: int| 0 <= i < 9 ==> #[trigger] r@[i]@ =~= seq![vector_x(i) as isize, vector_y(i) as isize]) by {
        assert(r@[0]@ =~= seq![0isize, 0]);
        assert(r@[1]@ =~= seq![1isize, 0]);
        assert(r@[2]@ =~= seq![0isize, 1]);
        assert(r@[3]@ =~= seq![-1isize, 0]);
        assert(r@[4]@ =~= seq![0isize, -1isize]);
        assert(r@[5]@ =~= seq![1isize, 1]);
        assert(r@[6]@ =~= seq![-1isize, 1]);
        assert(r@[7]@ =~= seq![-1isize, -1isize]);
        assert(r@[8]@ =~= seq![1isize, -1isize]);
    }
    r
}

/// Weight of vector `i`, as numerator and denominator: 4/9 for the rest
/// particle, 1/9 along the axes, 1/36 along the diagonals.
pub fn weight_ratio(i: usize) -> (r: (u32, u32))
    requires
        i < 9,
    ensures
        r.1 > 0,
        i == 0 ==> r == (4u32, 9u32),
        1 <= i <= 4 ==> r == (1u32, 9u32),
        5 <= i ==> r == (1u32, 36u32),
{
    if i == 0 {
        (4, 9)
    } else if i <= 4 {
        (1, 9)
    } else {
        (1, 36)
    }
}

/// Sound speed squared of the model, as numerator and denominator: 1/3.
pub fn sound_speed_squared_ratio() -> (r: (u32, u32))
    ensures
        r == (1u32, 3u32),
{
    (1, 3)
}

/// The model's vectors satisfy the stencil invariant.
pub(crate) proof fn lemma_stencil_wf(lattice: Lattice<2, 9>)
    requires
        forall|i: int| 0 <= i < 9 ==> #[trigger] lattice.lattice_vectors@[i]@ =~= seq![vector_x(i) as isize, vector_y(i) as isize],
    ensures
        lattice.stencil_wf(),
{
    assert forall|i: int| 0 <= i < 9 implies #[trigger] lattice.vector(i) =~= seq![vector_x(i), vector_y(i)] by {
        assert(lattice.lattice_vectors@[i]@ =~= seq![vector_x(i) as isize, vector_y(i) as isize]);
    }
    assert forall|i: int, d: int| 0 <= i < 9 && 0 <= d < 2 implies -1 <= #[trigger] lattice.lattice_vectors@[i]@[d] <= 1 by {
        assert(lattice.lattice_vectors@[i]@ =~= seq![vector_x(i) as isize, vector_y(i) as isize]);
    }
    assert forall|i: int, j: int| 0 <= i < 9 && 0 <= j < 9 && i != j implies #[trigger] lattice.vector(i)
        != #[trigger] lattice.vector(j) by {
        if lattice.vector(i) == lattice.vector(j) {
            assert(lattice.vector(i)[0] == lattice.vector(j)[0]);
            assert(lattice.vector(i)[1] == lattice.vector(j)[1]);
        }
    }
    assert forall|i: int| 0 <= i < 9 implies lattice.is_vector(negated(#[trigger] lattice.vector(i))) by {
        let v = negated(lattice.vector(i));
        let x = -vector_x(i);
        let y = -vector_y(i);
        assert(v =~= seq![x, y]);
        let j = index_of_vector(x, y);
        assert(lattice.vector(j) =~= v);
    }
    assert forall|i: int, d: int| 0 <= i < 9 && 0 <= d < 2 implies lattice.is_vector(
        #[trigger] flipped(lattice.vector(i), d),
    ) by {
        let v = flipped(lattice.vector(i), d);
        let x = if d == 0 { -vector_x(i) } else { vector_x(i) };
        let y = if d == 1 { -vector_y(i) } else { vector_y(i) };
        assert(v =~= seq![x, y]);
        let j = index_of_vector(x, y);
        assert(lattice.vector(j) =~= v);
    }
}

/// Index of the vector `(x, y)`, for components in {-1, 0, 1}.
pub open spec fn index_of_vector(x: int, y: int) -> int {
    if x == 0 && y == 0 {
        0
    } else if x == 1 && y == 0 {
        1
    } else if x == 0 && y == 1 {
        2
    } else if x == -1 && y == 0 {
        3
    } else if x == 0 && y == -1 {
        4
    } else if x == 1 && y == 1 {
        5
    } else if x == -1 && y == 1 {
        6
    } else if x == -1 && y == -1 {
        7
    } else {
        8
    }
}

} // verus!
