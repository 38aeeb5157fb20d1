//! The lattice geometry: grid size, stencil, boundary schemes and obstacle
//! mask, and where the streaming phase sends each population.
use vstd::prelude::*;

use crate::grid::{cell_count, cell_index, cell_index_of, in_bounds, sizes_positive};
use crate::lbgk::BoundaryScheme;

verus! {

/// Integer view of a stencil vector.
pub open spec fn as_ints(v: Seq<isize>) -> Seq<int> {
    Seq::new(v.len(), |d: int| v[d] as int)
}

/// The vector with every component negated.
pub open spec fn negated(v: Seq<int>) -> Seq<int> {
    Seq::new(v.len(), |d: int| -v[d])
}

/// The vector with component `d` negated.
pub open spec fn flipped(v: Seq<int>, d: int) -> Seq<int> {
    v.update(d, -v[d])
}

/// Whether coordinate `p + c` stays inside `[0, n)`.
pub open spec fn axis_inside(p: int, c: int, n: int) -> bool {
    0 <= p + c < n
}

/// The scheme of the side that a move along one axis leaves through.
pub open spec fn exit_scheme(p: int, c: int, low: BoundaryScheme, high: BoundaryScheme) -> BoundaryScheme {
    if p + c < 0 {
        low
    } else {
        high
    }
}

/// Whether the move along one axis ends on a coordinate of the grid.
pub open spec fn axis_lands(p: int, c: int, n: int, low: BoundaryScheme, high: BoundaryScheme) -> bool {
    axis_inside(p, c, n) || exit_scheme(p, c, low, high) == BoundaryScheme::Periodic
        || exit_scheme(p, c, low, high) == BoundaryScheme::SpecularReflection
}

/// Whether the move along one axis runs into a bounce-back side.
pub open spec fn axis_bounces(p: int, c: int, n: int, low: BoundaryScheme, high: BoundaryScheme) -> bool {
    !axis_inside(p, c, n) && exit_scheme(p, c, low, high) == BoundaryScheme::BounceBack
}

/// The coordinate where a landing move along one axis ends.
pub open spec fn axis_coord(p: int, c: int, n: int, low: BoundaryScheme, high: BoundaryScheme) -> int {
    if axis_inside(p, c, n) {
        p + c
    } else if exit_scheme(p, c, low, high) == BoundaryScheme::Periodic {
        if p + c < 0 {
            n - 1
        } else {
            0
        }
    } else {
        p
    }
}

/// The velocity component after a landing move along one axis: a specular
/// side mirrors it.
pub open spec fn axis_component(p: int, c: int, n: int, low: BoundaryScheme, high: BoundaryScheme) -> int {
    if !axis_inside(p, c, n) && exit_scheme(p, c, low, high) == BoundaryScheme::SpecularReflection {
        -c
    } else {
        c
    }
}

/// Grid size, stencil vectors, boundary schemes and obstacle mask.
pub struct Lattice<const N: usize, const B: usize> {
    pub(crate) size: [usize; N],
    pub(crate) boundary_schemes: [[BoundaryScheme; 2]; N],
    pub(crate) lattice_vectors: [[isize; N]; B],
    pub(crate) object: Vec<bool>,
}

impl<const N: usize, const B: usize> Lattice<N, B> {
    pub open(crate) spec fn sizes(self) -> Seq<usize> {
        self.size@
    }

    /// Stencil vector `i`.
    pub open(crate) spec fn vector(self, i: int) -> Seq<int> {
        as_ints(self.lattice_vectors@[i]@)
    }

    pub open(crate) spec fn low(self, d: int) -> BoundaryScheme {
        self.boundary_schemes@[d]@[0]
    }

    pub open(crate) spec fn high(self, d: int) -> BoundaryScheme {
        self.boundary_schemes@[d]@[1]
    }

    /// Whether the cell with flat index `t` is solid.
    pub open(crate) spec fn is_obstacle(self, t: int) -> bool {
        self.object@[t]
    }

    pub open(crate) spec fn is_vector(self, v: Seq<int>) -> bool {
        exists|j: int| 0 <= j < B && #[trigger] self.vector(j) == v
    }

    /// Stencil vectors have components in {-1, 0, 1}, are pairwise distinct,
    /// and the stencil holds the negation of each vector and each vector with
    /// one component negated.
    pub open(crate) spec fn stencil_wf(self) -> bool {
        &&& forall|i: int, d: int|
            0 <= i < B && 0 <= d < N ==> -1 <= #[trigger] self.lattice_vectors@[i]@[d] <= 1
        &&& forall|i: int, j: int|
            0 <= i < B && 0 <= j < B && i != j ==> #[trigger] self.vector(i) != #[trigger] self.vector(j)
        &&& forall|i: int| 0 <= i < B ==> self.is_vector(negated(#[trigger] self.vector(i)))
        &&& forall|i: int, d: int| 0 <= i < B && 0 <= d < N ==> self.is_vector(#[trigger] flipped(self.vector(i), d))
    }

    pub open(crate) spec fn wf(self) -> bool {
        &&& sizes_positive(self.size@)
        &&& cell_count(self.size@) <= usize::MAX
        &&& self.object@.len() == cell_count(self.size@)
        &&& self.stencil_wf()
    }

    pub open(crate) spec fn lands(self, pos: Seq<usize>, i: int, d: int) -> bool {
        axis_lands(pos[d] as int, self.vector(i)[d], self.size@[d] as int, self.low(d), self.high(d))
    }

    pub open(crate) spec fn bounces(self, pos: Seq<usize>, i: int, d: int) -> bool {
        axis_bounces(pos[d] as int, self.vector(i)[d], self.size@[d] as int, self.low(d), self.high(d))
    }

    /// Whether the move of population `i` from `pos` ends on a cell.
    pub open(crate) spec fn lands_all(self, pos: Seq<usize>, i: int) -> bool {
        forall|d: int| 0 <= d < N ==> #[trigger] self.lands(pos, i, d)
    }

    /// Whether the move of population `i` from `pos` runs into a bounce-back side.
    pub open(crate) spec fn hits_wall(self, pos: Seq<usize>, i: int) -> bool {
        exists|d: int| 0 <= d < N && #[trigger] self.bounces(pos, i, d)
    }

    /// The cell where a landing move of population `i` from `pos` ends.
    pub open(crate) spec fn landing_pos(self, pos: Seq<usize>, i: int) -> Seq<usize> {
        Seq::new(
            N as nat,
            |d: int|
                axis_coord(pos[d] as int, self.vector(i)[d], self.size@[d] as int, self.low(d), self.high(d)) as usize,
        )
    }

    /// The velocity of a landing move of population `i` from `pos` after the
    /// specular sides have mirrored it.
    pub open(crate) spec fn landing_vector(self, pos: Seq<usize>, i: int) -> Seq<int> {
        Seq::new(
            N as nat,
            |d: int| axis_component(pos[d] as int, self.vector(i)[d], self.size@[d] as int, self.low(d), self.high(d)),
        )
    }

    /// Whether population `i` of the cell at `pos` bounces back into that cell:
    /// its move runs into a bounce-back side or ends on a solid cell.
    pub open(crate) spec fn reflects(self, pos: Seq<usize>, i: int) -> bool {
        self.hits_wall(pos, i) || (self.lands_all(pos, i) && self.is_obstacle(
            cell_index(self.landing_pos(pos, i), self.size@),
        ))
    }

    /// Where streaming sends population `i` of the cell at `pos`: the flat
    /// index of the receiving cell and the velocity it arrives with, or none
    /// when it leaves through an open side.
    pub open(crate) spec fn stream_target(self, pos: Seq<usize>, i: int) -> Option<(int, Seq<int>)> {
        if self.reflects(pos, i) {
            Some((cell_index(pos, self.size@), negated(self.vector(i))))
        } else if self.lands_all(pos, i) {
            Some((cell_index(self.landing_pos(pos, i), self.size@), self.landing_vector(pos, i)))
        } else {
            None
        }
    }

    /// Whether streaming writes population `i` of the fluid cell at `p` into
    /// slot `j` of cell `t`.
    pub open(crate) spec fn feeds(self, p: Seq<usize>, i: int, t: int, j: int) -> bool {
        &&& in_bounds(p, self.size@)
        &&& !self.is_obstacle(cell_index(p, self.size@))
        &&& 0 <= i < B
        &&& 0 <= j < B
        &&& self.stream_target(p, i) == Some((t, self.vector(j)))
    }

    /// A landing move ends inside the grid.
    pub(crate) proof fn lemma_landing_in_bounds(self, pos: Seq<usize>, i: int)
        requires
            self.wf(),
            in_bounds(pos, self.size@),
            0 <= i < B,
            self.lands_all(pos, i),
        ensures
            in_bounds(self.landing_pos(pos, i), self.size@),
    {
        assert forall|d: int| 0 <= d < N implies #[trigger] self.landing_pos(pos, i)[d] < self.size@[d] by {
            assert(self.lands(pos, i, d));
            assert(self.size@[d] >= 1);
        }
    }

    /// Streaming sends a population to a cell of the grid.
    pub(crate) proof fn lemma_target_in_grid(self, pos: Seq<usize>, i: int)
        requires
            self.wf(),
            in_bounds(pos, self.size@),
            0 <= i < B,
        ensures
            self.stream_target(pos, i) matches Some((t, v)) ==> 0 <= t < cell_count(self.size@),
    {
        crate::grid::lemma_cell_index_bound(pos, self.size@);
        if self.lands_all(pos, i) {
            self.lemma_landing_in_bounds(pos, i);
            crate::grid::lemma_cell_index_bound(self.landing_pos(pos, i), self.size@);
        }
    }

    /// Coordinate of side `s` (0 the low side, 1 the high side) of dimension `d`.
    pub open(crate) spec fn edge(self, d: int, s: int) -> int {
        if s == 0 {
            0
        } else {
            self.size@[d] - 1
        }
    }

    /// Scheme of side `s` of dimension `d`.
    pub open(crate) spec fn side_scheme(self, d: int, s: int) -> BoundaryScheme {
        if s == 0 {
            self.low(d)
        } else {
            self.high(d)
        }
    }

    /// Whether side `s` of dimension `d` is an inflow or an outflow side.
    pub open(crate) spec fn is_open(self, d: int, s: int) -> bool {
        self.side_scheme(d, s) == BoundaryScheme::Inflow || self.side_scheme(d, s) == BoundaryScheme::Outflow
    }

    /// Whether `q` is a grid position on the hyperplane of side `s` of dimension `d`.
    pub open(crate) spec fn on_side(self, q: Seq<usize>, d: int, s: int) -> bool {
        in_bounds(q, self.size@) && q[d] == self.edge(d, s)
    }

    /// The interior neighbour of a position on side `s` of dimension `d`.
    pub open(crate) spec fn inward(self, q: Seq<usize>, d: int, s: int) -> Seq<usize> {
        q.update(
            d,
            (if s == 0 {
                q[d] + 1
            } else {
                q[d] - 1
            }) as usize,
        )
    }

    /// What maintaining side `s` of dimension `d` writes into the fluid cell at
    /// `q`: `source` on an inflow side, the interior neighbour's
    /// state on an outflow side.
    pub open(crate) spec fn boundary_value<T>(
        self,
        cells: Seq<T>,
        source: T,
        q: Seq<usize>,
        d: int,
        s: int,
    ) -> T {
        if self.side_scheme(d, s) == BoundaryScheme::Inflow {
            source
        } else {
            cells[cell_index(self.inward(q, d, s), self.size@)]
        }
    }

    /// Whether `q` is a fluid position on side `s` of dimension `d` with flat index `t`.
    pub open(crate) spec fn side_cell(self, q: Seq<usize>, d: int, s: int, t: int) -> bool {
        self.on_side(q, d, s) && cell_index(q, self.size@) == t && !self.is_obstacle(t)
    }

    /// The cells after side `s` of dimension `d` has been maintained.
    pub open(crate) spec fn side_updated<T>(self, cells: Seq<T>, source: T, d: int, s: int) -> Seq<
        T,
    > {
        if !self.is_open(d, s) {
            cells
        } else {
            Seq::new(
                cells.len(),
                |t: int|
                    if exists|q: Seq<usize>| #[trigger] self.side_cell(q, d, s, t) {
                        self.boundary_value(cells, source, choose|q: Seq<usize>| #[trigger] self.side_cell(q, d, s, t), d, s)
                    } else {
                        cells[t]
                    },
            )
        }
    }

    /// The cells after the first `k` sides have been maintained, side `k` being
    /// the low side of dimension `k / 2` for even `k` and its high side for odd `k`.
    pub open(crate) spec fn sides_updated<T>(self, cells: Seq<T>, source: T, k: nat) -> Seq<
        T,
    >
        decreases k,
    {
        if k == 0 {
            cells
        } else {
            self.side_updated(self.sides_updated(cells, source, (k - 1) as nat), source, (k - 1) / 2, (k - 1) % 2)
        }
    }

    /// Streaming never writes into a solid cell.
    pub(crate) proof fn lemma_target_fluid(self, p: Seq<usize>, i: int)
        requires
            self.wf(),
            in_bounds(p, self.sizes()),
            !self.is_obstacle(cell_index(p, self.sizes())),
            0 <= i < B,
        ensures
            self.stream_target(p, i) matches Some((t, v)) ==> !self.is_obstacle(t),
    {
    }

    pub(crate) proof fn lemma_sides_len<T>(self, cells: Seq<T>, source: T, k: nat)
        ensures
            self.sides_updated(cells, source, k).len() == cells.len(),
        decreases k,
    {
        if k > 0 {
            self.lemma_sides_len(cells, source, (k - 1) as nat);
        }
    }

    /// Maintaining the sides leaves solid cells alone.
    pub(crate) proof fn lemma_sides_keep_obstacle<T>(self, cells: Seq<T>, source: T, t: int, k: nat)
        requires
            0 <= t < cells.len(),
            self.is_obstacle(t),
        ensures
            self.sides_updated(cells, source, k)[t] == cells[t],
        decreases k,
    {
        if k > 0 {
            self.lemma_sides_keep_obstacle(cells, source, t, (k - 1) as nat);
            self.lemma_sides_len(cells, source, (k - 1) as nat);
        }
    }

    /// A side leaves a cell alone unless it is open and holds the cell.
    pub(crate) proof fn lemma_side_keeps<T>(self, cells: Seq<T>, source: T, p: Seq<usize>, d: int, s: int)
        requires
            in_bounds(p, self.sizes()),
            0 <= cell_index(p, self.sizes()) < cells.len(),
            !(self.is_open(d, s) && self.on_side(p, d, s)),
        ensures
            self.side_updated(cells, source, d, s)[cell_index(p, self.sizes())] == cells[cell_index(p, self.sizes())],
    {
        let t = cell_index(p, self.sizes());
        if self.is_open(d, s) && exists|q: Seq<usize>| #[trigger] self.side_cell(q, d, s, t) {
            let q = choose|q: Seq<usize>| #[trigger] self.side_cell(q, d, s, t);
            crate::grid::lemma_cell_index_injective(q, p, self.sizes());
        }
    }

    /// An open side writes its boundary value into each fluid cell it holds.
    pub(crate) proof fn lemma_side_writes<T>(self, cells: Seq<T>, source: T, p: Seq<usize>, d: int, s: int)
        requires
            self.is_open(d, s),
            self.on_side(p, d, s),
            !self.is_obstacle(cell_index(p, self.sizes())),
            0 <= cell_index(p, self.sizes()) < cells.len(),
        ensures
            self.side_updated(cells, source, d, s)[cell_index(p, self.sizes())] == self.boundary_value(
                cells,
                source,
                p,
                d,
                s,
            ),
    {
        let t = cell_index(p, self.sizes());
        assert(self.side_cell(p, d, s, t));
        let q = choose|q: Seq<usize>| #[trigger] self.side_cell(q, d, s, t);
        crate::grid::lemma_cell_index_injective(q, p, self.sizes());
    }

    /// Sides `m..k` that do not hold `p` leave its cell alone.
    pub(crate) proof fn lemma_sides_untouched<T>(self, cells: Seq<T>, source: T, p: Seq<usize>, m: nat, k: nat)
        requires
            in_bounds(p, self.sizes()),
            cells.len() == cell_count(self.sizes()),
            m <= k,
            forall|j: int|
                m <= j < k ==> !(self.is_open(j / 2, j % 2) && #[trigger] self.on_side(p, j / 2, j % 2)),
        ensures
            self.sides_updated(cells, source, k)[cell_index(p, self.sizes())] == self.sides_updated(
                cells,
                source,
                m,
            )[cell_index(p, self.sizes())],
        decreases k - m,
    {
        if k > m {
            self.lemma_sides_untouched(cells, source, p, m, (k - 1) as nat);
            self.lemma_sides_len(cells, source, (k - 1) as nat);
            crate::grid::lemma_cell_index_bound(p, self.sizes());
            let j = k - 1;
            assert(!(self.is_open(j / 2, j % 2) && self.on_side(p, j / 2, j % 2)));
            self.lemma_side_keeps(self.sides_updated(cells, source, (k - 1) as nat), source, p, j / 2, j % 2);
        }
    }

    /// Whether every outflow side that holds `q` has at least two cells
    /// across, and copies into `q` from a fluid neighbour that lies on no
    /// outflow side.
    pub open(crate) spec fn outflow_feeds_fluid(self, q: Seq<usize>) -> bool {
        forall|d2: int, s2: int|
            0 <= d2 < N && 0 <= s2 < 2 && #[trigger] self.on_side(q, d2, s2) && self.side_scheme(d2, s2)
                == BoundaryScheme::Outflow ==> {
                &&& self.sizes()[d2] >= 2
                &&& !self.is_obstacle(cell_index(self.inward(q, d2, s2), self.sizes()))
                &&& forall|d3: int, s3: int|
                    0 <= d3 < N && 0 <= s3 < 2 && #[trigger] self.on_side(self.inward(q, d2, s2), d3, s3)
                        ==> self.side_scheme(d3, s3) != BoundaryScheme::Outflow
            }
    }

    proof fn lemma_pinned_from<T>(self, cells: Seq<T>, source: T, q: Seq<usize>, d: int, s: int, k: nat)
        requires
            cells.len() == cell_count(self.sizes()),
            0 <= d < N,
            0 <= s < 2,
            2 * d + s < k <= 2 * N,
            self.on_side(q, d, s),
            self.side_scheme(d, s) == BoundaryScheme::Inflow,
            !self.is_obstacle(cell_index(q, self.sizes())),
            self.outflow_feeds_fluid(q),
        ensures
            self.sides_updated(cells, source, k)[cell_index(q, self.sizes())] == source,
        decreases k,
    {
        let j = k - 1;
        let prev = self.sides_updated(cells, source, j as nat);
        self.lemma_sides_len(cells, source, j as nat);
        crate::grid::lemma_cell_index_bound(q, self.sizes());
        assert(0 <= j / 2 < N && 0 <= j % 2 < 2);
        if j == 2 * d + s {
            assert(j / 2 == d && j % 2 == s);
            self.lemma_side_writes(prev, source, q, d, s);
        } else {
            self.lemma_pinned_from(cells, source, q, d, s, j as nat);
            let d2 = j / 2;
            let s2 = j % 2;
            if self.is_open(d2, s2) && self.on_side(q, d2, s2) {
                self.lemma_side_writes(prev, source, q, d2, s2);
                if self.side_scheme(d2, s2) == BoundaryScheme::Outflow {
                    let n = self.inward(q, d2, s2);
                    assert(self.sizes()[d2] >= 2);
                    assert(d2 != d) by {
                        if d2 == d {
                            assert(s2 != s);
                        }
                    }
                    assert(in_bounds(n, self.sizes()));
                    assert(self.on_side(n, d, s));
                    assert forall|d3: int, s3: int|
                        0 <= d3 < N && 0 <= s3 < 2 && #[trigger] self.on_side(n, d3, s3) && self.side_scheme(d3, s3)
                            == BoundaryScheme::Outflow implies false by {}
                    assert(self.outflow_feeds_fluid(n));
                    self.lemma_pinned_from(cells, source, n, d, s, j as nat);
                }
            } else {
                self.lemma_side_keeps(prev, source, q, d2, s2);
            }
        }
    }

    /// Maintaining the sides leaves every fluid cell of an inflow side with the
    /// reference state `source`, provided each outflow side that also holds
    /// the cell copies into it from a fluid neighbour on no outflow side
    /// (vacuous for a cell on no outflow side).
    pub proof fn lemma_inflow_pinned<T>(self, cells: Seq<T>, source: T, q: Seq<usize>, d: int, s: int)
        requires
            cells.len() == cell_count(self.sizes()),
            0 <= d < N,
            0 <= s < 2,
            self.on_side(q, d, s),
            self.side_scheme(d, s) == BoundaryScheme::Inflow,
            !self.is_obstacle(cell_index(q, self.sizes())),
            self.outflow_feeds_fluid(q),
        ensures
            self.sides_updated(cells, source, (2 * N) as nat)[cell_index(q, self.sizes())] == source,
    {
        self.lemma_pinned_from(cells, source, q, d, s, (2 * N) as nat);
    }

    /// Maintaining the sides copies into a fluid cell of an outflow side the
    /// state that its interior neighbour had before, where the cell lies on no
    /// other open side and the neighbour on none.
    pub proof fn lemma_outflow_copies<T>(self, cells: Seq<T>, source: T, q: Seq<usize>, d: int, s: int)
        requires
            cells.len() == cell_count(self.sizes()),
            0 <= d < N,
            0 <= s < 2,
            self.sizes()[d] >= 2,
            self.on_side(q, d, s),
            self.side_scheme(d, s) == BoundaryScheme::Outflow,
            !self.is_obstacle(cell_index(q, self.sizes())),
            forall|d2: int, s2: int|
                0 <= d2 < N && 0 <= s2 < 2 && self.is_open(d2, s2) && #[trigger] self.on_side(q, d2, s2) ==> d2 == d
                    && s2 == s,
            forall|d2: int, s2: int|
                0 <= d2 < N && 0 <= s2 < 2 ==> !(self.is_open(d2, s2) && #[trigger] self.on_side(
                    self.inward(q, d, s),
                    d2,
                    s2,
                )),
        ensures
            self.sides_updated(cells, source, (2 * N) as nat)[cell_index(q, self.sizes())] == cells[cell_index(
                self.inward(q, d, s),
                self.sizes(),
            )],
    {
        let n = self.inward(q, d, s);
        let m = (2 * d + s) as nat;
        assert(in_bounds(n, self.sizes()));
        assert forall|j: int| 0 <= j < m implies !(self.is_open(j / 2, j % 2) && #[trigger] self.on_side(
            n,
            j / 2,
            j % 2,
        )) by {
            assert(0 <= j / 2 < N && 0 <= j % 2 < 2);
        }
        self.lemma_sides_untouched(cells, source, n, 0, m);
        self.lemma_sides_len(cells, source, m);
        crate::grid::lemma_cell_index_bound(q, self.sizes());
        assert(m / 2 == d && m % 2 == s);
        self.lemma_side_writes(self.sides_updated(cells, source, m), source, q, d, s);
        assert forall|j: int| m + 1 <= j < 2 * N implies !(self.is_open(j / 2, j % 2) && #[trigger] self.on_side(
            q,
            j / 2,
            j % 2,
        )) by {
            assert(0 <= j / 2 < N && 0 <= j % 2 < 2);
            if self.is_open(j / 2, j % 2) && self.on_side(q, j / 2, j % 2) {
                assert(j / 2 == d && j % 2 == s);
            }
        }
        self.lemma_sides_untouched(cells, source, q, m + 1, (2 * N) as nat);
    }

    /// Whether every side of every dimension is periodic.
    pub open(crate) spec fn all_periodic(self) -> bool {
        forall|d: int|
            0 <= d < N ==> #[trigger] self.low(d) == BoundaryScheme::Periodic && self.high(d) == BoundaryScheme::Periodic
    }

    /// Whether no cell is solid.
    pub open(crate) spec fn no_obstacles(self) -> bool {
        forall|t: int| 0 <= t < self.object@.len() ==> !#[trigger] self.is_obstacle(t)
    }

    /// The coordinate that a move by `c` from it carries to `q` on a periodic
    /// axis of length `n`.
    pub open spec fn periodic_source(q: int, c: int, n: int) -> int {
        if q - c < 0 {
            n - 1
        } else if q - c >= n {
            0
        } else {
            q - c
        }
    }

    /// With every side periodic and no solid cell, streaming permutes the
    /// populations: each slot `j` of each cell receives exactly one population,
    /// and it is one that moves in direction `j`.
    pub proof fn lemma_periodic_streaming_permutes(self, q: Seq<usize>, j: int)
        requires
            self.wf(),
            self.all_periodic(),
            self.no_obstacles(),
            in_bounds(q, self.sizes()),
            0 <= j < B,
        ensures
            exists|p: Seq<usize>| #[trigger] self.feeds(p, j, cell_index(q, self.sizes()), j),
            forall|p1: Seq<usize>, i1: int, p2: Seq<usize>, i2: int|
                #[trigger] self.feeds(p1, i1, cell_index(q, self.sizes()), j) && #[trigger] self.feeds(
                    p2,
                    i2,
                    cell_index(q, self.sizes()),
                    j,
                ) ==> p1 == p2 && i1 == i2 && i1 == j,
    {
        let size = self.sizes();
        let t = cell_index(q, size);
        let p = Seq::new(
            N as nat,
            |d: int| Self::periodic_source(q[d] as int, self.vector(j)[d], size[d] as int) as usize,
        );
        assert forall|d: int| 0 <= d < N implies #[trigger] p[d] < size[d] && self.lands(p, j, d)
            && self.landing_pos(p, j)[d] == q[d] && self.landing_vector(p, j)[d] == self.vector(j)[d]
            && !self.bounces(p, j, d) by {
            assert(-1 <= self.lattice_vectors@[j]@[d] <= 1);
            assert(self.low(d) == BoundaryScheme::Periodic && self.high(d) == BoundaryScheme::Periodic);
            assert(q[d] < size[d]);
        }
        assert(in_bounds(p, size));
        assert(self.landing_pos(p, j) =~= q);
        assert(self.landing_vector(p, j) =~= self.vector(j));
        assert(!self.hits_wall(p, j));
        assert(self.lands_all(p, j));
        crate::grid::lemma_cell_index_bound(p, size);
        crate::grid::lemma_cell_index_bound(q, size);
        assert(self.feeds(p, j, t, j));
        assert forall|p1: Seq<usize>, i1: int, p2: Seq<usize>, i2: int|
            #[trigger] self.feeds(p1, i1, t, j) && #[trigger] self.feeds(p2, i2, t, j) implies p1 == p2 && i1 == i2
            && i1 == j by {
            self.lemma_periodic_target(p1, i1);
            self.lemma_periodic_target(p2, i2);
            assert(self.vector(i1) == self.vector(j));
            assert(self.vector(i2) == self.vector(j));
            let l1 = self.landing_pos(p1, i1);
            let l2 = self.landing_pos(p2, i2);
            crate::grid::lemma_cell_index_injective(l1, l2, size);
            assert forall|d: int| 0 <= d < N implies #[trigger] p1[d] == p2[d] by {
                assert(l1[d] == l2[d]);
                assert(-1 <= self.lattice_vectors@[j]@[d] <= 1);
                assert(self.low(d) == BoundaryScheme::Periodic && self.high(d) == BoundaryScheme::Periodic);
                assert(p1[d] < size[d] && p2[d] < size[d]);
            }
            assert(p1 =~= p2);
        }
    }

    /// With every side periodic and no solid cell, a population moves to the
    /// wrapped neighbour in its own direction.
    proof fn lemma_periodic_target(self, p: Seq<usize>, i: int)
        requires
            self.wf(),
            self.all_periodic(),
            self.no_obstacles(),
            in_bounds(p, self.sizes()),
            0 <= i < B,
        ensures
            !self.reflects(p, i),
            self.lands_all(p, i),
            in_bounds(self.landing_pos(p, i), self.sizes()),
            self.stream_target(p, i) == Some(
                (cell_index(self.landing_pos(p, i), self.sizes()), self.vector(i)),
            ),
    {
        assert forall|d: int| 0 <= d < N implies #[trigger] self.lands(p, i, d) && !self.bounces(p, i, d)
            && self.landing_vector(p, i)[d] == self.vector(i)[d] by {
            assert(self.low(d) == BoundaryScheme::Periodic && self.high(d) == BoundaryScheme::Periodic);
        }
        assert(self.landing_vector(p, i) =~= self.vector(i));
        self.lemma_landing_in_bounds(p, i);
        crate::grid::lemma_cell_index_bound(self.landing_pos(p, i), self.sizes());
    }

    /// A population whose move runs into a bounce-back side, or onto a solid
    /// cell, returns to its own cell with every velocity component negated,
    /// into a direction of the stencil.
    pub proof fn lemma_bounce_back_reverses(self, p: Seq<usize>, i: int)
        requires
            self.wf(),
            in_bounds(p, self.sizes()),
            0 <= i < B,
            self.hits_wall(p, i) || (self.lands_all(p, i) && self.is_obstacle(
                cell_index(self.landing_pos(p, i), self.sizes()),
            )),
        ensures
            self.stream_target(p, i) == Some((cell_index(p, self.sizes()), negated(self.vector(i)))),
            self.is_vector(negated(self.vector(i))),
    {
    }

    /// Whether two stencil vectors are equal.
    fn same_vector(a: &[isize; N], b: &[isize; N]) -> (r: bool)
        ensures
            r == (as_ints(a@) == as_ints(b@)),
    {
        let mut d: usize = 0;
        while d < N
            invariant
                d <= N,
                forall|e: int| 0 <= e < d ==> a@[e] == b@[e],
            decreases N - d,
        {
            if a[d] != b[d] {
                assert(as_ints(a@)[d as int] != as_ints(b@)[d as int]);
                return false;
            }
            d += 1;
        }
        assert(as_ints(a@) =~= as_ints(b@));
        true
    }

    /// Index of the stencil vector equal to `v`.
    fn find_direction(&self, v: &[isize; N]) -> (r: usize)
        requires
            self.is_vector(as_ints(v@)),
        ensures
            r < B,
            self.vector(r as int) == as_ints(v@),
    {
        let mut j: usize = 0;
        while j < B
            invariant
                j <= B,
                self.is_vector(as_ints(v@)),
                forall|k: int| 0 <= k < j ==> #[trigger] self.vector(k) != as_ints(v@),
            decreases B - j,
        {
            if Self::same_vector(&self.lattice_vectors[j], v) {
                return j;
            }
            j += 1;
        }
        proof {
            let k = choose|k: int| 0 <= k < B && #[trigger] self.vector(k) == as_ints(v@);
            assert(self.vector(k) != as_ints(v@));
        }
        0
    }

    /// Slot that streaming writes population `i` of the cell at `pos` into:
    /// the flat index of the receiving cell and the receiving direction.
    pub(crate) fn stream_target_of(&self, pos: &[usize; N], i: usize) -> (r: Option<(usize, usize)>)
        requires
            self.wf(),
            in_bounds(pos@, self.size@),
            i < B,
        ensures
            match self.stream_target(pos@, i as int) {
                Some((t, v)) => r.is_some() && r.unwrap().0 == t && r.unwrap().1 < B
                    && self.vector(r.unwrap().1 as int) == v,
                None => r.is_none(),
            },
    {
        let c = self.lattice_vectors[i];
        let mut new_pos = pos.clone();
        let mut new_c = c;
        let mut lands = true;
        let mut bounce = false;
        let mut changed = false;
        let mut d: usize = 0;
        assert(as_ints(new_c@) == self.vector(i as int));
        while d < N
            invariant
                d <= N,
                self.wf(),
                in_bounds(pos@, self.size@),
                i < B,
                c@ == self.lattice_vectors@[i as int]@,
                new_pos@.len() == N,
                lands == forall|e: int| 0 <= e < d ==> #[trigger] self.lands(pos@, i as int, e),
                bounce == exists|e: int| 0 <= e < d && #[trigger] self.bounces(pos@, i as int, e),
                forall|e: int|
                    0 <= e < d && #[trigger] self.lands(pos@, i as int, e) ==> new_pos@[e] as int
                        == axis_coord(
                        pos@[e] as int,
                        self.vector(i as int)[e],
                        self.size@[e] as int,
                        self.low(e),
                        self.high(e),
                    ),
                forall|e: int|
                    0 <= e < d ==> #[trigger] new_c@[e] as int == axis_component(
                        pos@[e] as int,
                        self.vector(i as int)[e],
                        self.size@[e] as int,
                        self.low(e),
                        self.high(e),
                    ),
                forall|e: int| d <= e < N ==> #[trigger] new_c@[e] == c@[e],
                !changed ==> new_c@ == c@,
                self.is_vector(as_ints(new_c@)),
            decreases N - d,
        {
            let p = pos[d];
            let cd = c[d];
            let n = self.size[d];
            let low = self.boundary_schemes[d][0];
            let high = self.boundary_schemes[d][1];
            assert(-1 <= self.lattice_vectors@[i as int]@[d as int] <= 1);
            assert(self.vector(i as int)[d as int] == cd as int);
            let ghost before = new_c@;
            let ghost lands_before = lands;
            let ghost bounce_before = bounce;
            let ghost new_pos_before = new_pos@;
            let outside = if cd < 0 {
                p == 0
            } else {
                cd > 0 && p + 1 >= n
            };
            if outside {
                let scheme = if cd < 0 {
                    low
                } else {
                    high
                };
                match scheme {
                    BoundaryScheme::Periodic => {
                        new_pos[d] = if cd < 0 {
                            n - 1
                        } else {
                            0
                        };
                    },
                    BoundaryScheme::BounceBack => {
                        bounce = true;
                        lands = false;
                    },
                    BoundaryScheme::SpecularReflection => {
                        new_pos[d] = p;
                        new_c[d] = -cd;
                        changed = true;
                        proof {
                            let j = choose|j: int| 0 <= j < B && #[trigger] self.vector(j) == as_ints(before);
                            assert(as_ints(new_c@) =~= flipped(self.vector(j), d as int));
                            assert(self.is_vector(flipped(self.vector(j), d as int)));
                        }
                    },
                    _ => {
                        lands = false;
                    },
                }
            } else {
                new_pos[d] = if cd < 0 {
                    p - 1
                } else if cd > 0 {
                    p + 1
                } else {
                    p
                };
            }
            proof {
                let dd = d as int;
                assert(outside == !axis_inside(pos@[dd] as int, self.vector(i as int)[dd], self.size@[dd] as int));
                assert(lands == (lands_before && self.lands(pos@, i as int, dd)));
                assert(bounce == (bounce_before || self.bounces(pos@, i as int, dd)));
                if lands {
                    assert forall|e: int| 0 <= e < d + 1 implies #[trigger] self.lands(pos@, i as int, e) by {
                        if e < dd {
                        }
                    }
                } else if lands_before {
                    assert(!self.lands(pos@, i as int, dd));
                } else {
                    let e = choose|e: int| 0 <= e < dd && !#[trigger] self.lands(pos@, i as int, e);
                }
                if bounce {
                    if !bounce_before {
                        assert(self.bounces(pos@, i as int, dd));
                    } else {
                        let e = choose|e: int| 0 <= e < dd && #[trigger] self.bounces(pos@, i as int, e);
                    }
                } else {
                    assert forall|e: int| 0 <= e < d + 1 implies !#[trigger] self.bounces(pos@, i as int, e) by {
                        if e < dd {
                        }
                    }
                }
                assert forall|e: int| 0 <= e < d + 1 && #[trigger] self.lands(pos@, i as int, e) implies new_pos@[e] as int
                    == axis_coord(
                    pos@[e] as int,
                    self.vector(i as int)[e],
                    self.size@[e] as int,
                    self.low(e),
                    self.high(e),
                ) by {
                    if e < dd {
                        assert(new_pos@[e] == new_pos_before[e]);
                    }
                }
                assert(new_c@[d as int] as int == axis_component(
                    pos@[d as int] as int,
                    self.vector(i as int)[d as int],
                    self.size@[d as int] as int,
                    self.low(d as int),
                    self.high(d as int),
                ));
                if !changed {
                    assert(new_c@ =~= c@);
                }
            }
            d += 1;
        }
        assert(lands == self.lands_all(pos@, i as int));
        assert(bounce == self.hits_wall(pos@, i as int));
        let from = cell_index_of(pos, &self.size);
        let mut reflect = bounce;
        let mut to: usize = 0;
        if !bounce && lands {
            proof {
                assert forall|e: int| 0 <= e < N implies #[trigger] new_pos@[e] == self.landing_pos(pos@, i as int)[e] by {
                    assert(self.lands(pos@, i as int, e));
                    assert(pos@[e] < self.size@[e]);
                    assert(-1 <= self.lattice_vectors@[i as int]@[e] <= 1);
                }
                assert(new_pos@ =~= self.landing_pos(pos@, i as int));
                assert(in_bounds(new_pos@, self.size@));
                crate::grid::lemma_cell_index_bound(new_pos@, self.size@);
            }
            to = cell_index_of(&new_pos, &self.size);
            reflect = self.object[to];
        }
        if reflect {
            let mut opposite = c;
            let mut e: usize = 0;
            while e < N
                invariant
                    e <= N,
                    self.wf(),
                    i < B,
                    c@ == self.lattice_vectors@[i as int]@,
                    opposite@.len() == N,
                    forall|k: int| 0 <= k < e ==> #[trigger] opposite@[k] == -c@[k],
                    forall|k: int| e <= k < N ==> #[trigger] opposite@[k] == c@[k],
                decreases N - e,
            {
                assert(-1 <= self.lattice_vectors@[i as int]@[e as int] <= 1);
                opposite[e] = -c[e];
                e += 1;
            }
            assert(as_ints(opposite@) =~= negated(self.vector(i as int)));
            let j = self.find_direction(&opposite);
            Some((from, j))
        } else if lands {
            assert(as_ints(new_c@) =~= self.landing_vector(pos@, i as int));
            let j = if changed {
                self.find_direction(&new_c)
            } else {
                i
            };
            Some((to, j))
        } else {
            None
        }
    }
}

} // verus!
