//! The lattice Boltzmann solver with the BGK collision operator.
use vstd::prelude::*;

use crate::grid::{cell_count, cell_index, cell_index_of, in_bounds, lemma_cell_index_bound, lemma_rank_zero_enabled};
use crate::lattice::Lattice;
use crate::scalar::Scalar;
use parameters::d2q9;

pub mod parameters;

verus! {

/// Boundary schemes.
#[derive(Clone, Copy, Debug, PartialEq, Eq, Structural)]
pub enum BoundaryScheme {
    Inflow,
    Outflow,
    Periodic,
    BounceBack,
    SpecularReflection,
}


/// State of one cell.
#[derive(Clone, Copy)]
pub struct AlgorithmValues<S, const N: usize, const B: usize> {
    /// Populations before collision.
    pub distributions: [S; B],
    /// Populations after collision, before streaming.
    pub collision_distributions: [S; B],
    pub density: S,
    pub velocity_vector: [S; N],
}

/// Implementation of the lattice Boltzmann method for the
/// Bhatnagar-Gross-Krook (BGK) model of relaxation, over an `N`-dimensional
/// grid with a stencil of `B` velocities.
pub struct Lbgk<S, const N: usize, const B: usize> {
    pub(crate) lattice: Lattice<N, B>,
    pub(crate) weights: [S; B],
    pub(crate) sound_speed_squared: S,
    pub(crate) source_algorithm_values: AlgorithmValues<S, N, B>,
    // flat vectors reduce cache loads
    pub(crate) algorithm_values: Vec<AlgorithmValues<S, N, B>>,
}

/// `a[0] * b[0] + ... + a[n-1] * b[n-1]`, summed from zero in index order.
pub open spec fn dot_spec<S: Scalar>(a: Seq<S>, b: Seq<S>, n: nat) -> S
    decreases n,
{
    if n == 0 {
        S::spec_zero()
    } else {
        dot_spec(a, b, (n - 1) as nat).spec_plus(a[n - 1].spec_times(b[n - 1]))
    }
}

/// `c . u` over the first `n` components, the integer vector `c` converted
/// component by component.
pub open spec fn lattice_dot_spec<S: Scalar>(c: Seq<isize>, u: Seq<S>, n: nat) -> S
    decreases n,
{
    if n == 0 {
        S::spec_zero()
    } else {
        lattice_dot_spec(c, u, (n - 1) as nat).spec_plus(S::spec_from_integer(c[n - 1]).spec_times(u[n - 1]))
    }
}

/// Equilibrium population of the direction with vector `c` and weight `w`:
/// `w * density * (1 + c.u / cs2 + (c.u)^2 / (2 cs2^2) - u.u / (2 cs2))`.
pub open spec fn equilibrium_spec<S: Scalar>(c: Seq<isize>, w: S, cs2: S, density: S, u: Seq<S>) -> S {
    let cs2x2 = cs2.spec_plus(cs2);
    let cs4 = cs2.spec_times(cs2);
    let cs4x2 = cs4.spec_plus(cs4);
    let u_dot_u = dot_spec(u, u, u.len());
    let c_dot_u = lattice_dot_spec(c, u, u.len());
    let bracket = S::spec_from_integer(1).spec_plus(c_dot_u.spec_over(cs2)).spec_plus(
        c_dot_u.spec_times(c_dot_u).spec_over(cs4x2),
    ).spec_minus(u_dot_u.spec_over(cs2x2));
    w.spec_times(density).spec_times(bracket)
}

/// BGK relaxation of population `f` toward `f_eq`: `f - (f - f_eq) / tau`.
pub open spec fn relax_spec<S: Scalar>(f: S, f_eq: S, tau: S) -> S {
    f.spec_minus(f.spec_minus(f_eq).spec_over(tau))
}

/// Sum of the first `n` populations, from zero in index order.
pub open spec fn sum_spec<S: Scalar>(f: Seq<S>, n: nat) -> S
    decreases n,
{
    if n == 0 {
        S::spec_zero()
    } else {
        sum_spec(f, (n - 1) as nat).spec_plus(f[n - 1])
    }
}

/// Component `d` of the momentum of the first `n` populations:
/// `c_0[d] f_0 + ... + c_{n-1}[d] f_{n-1}`, from zero in index order.
pub open spec fn momentum_spec<S: Scalar, const N: usize>(vectors: Seq<[isize; N]>, f: Seq<S>, d: int, n: nat) -> S
    decreases n,
{
    if n == 0 {
        S::spec_zero()
    } else {
        momentum_spec(vectors, f, d, (n - 1) as nat).spec_plus(
            S::spec_from_integer(vectors[n - 1]@[d]).spec_times(f[n - 1]),
        )
    }
}

/// Dot product of two vectors.
fn dot_product<S: Scalar, const D: usize>(a: &[S; D], b: &[S; D]) -> (r: S)
    ensures
        r == dot_spec(a@, b@, D as nat),
{
    let mut result = S::zero();
    let mut d: usize = 0;
    while d < D
        invariant
            d <= D,
            result == dot_spec(a@, b@, d as nat),
        decreases D - d,
    {
        result = result.plus(a[d].times(b[d]));
        d += 1;
    }
    result
}

impl<S: Scalar> Lbgk<S, 2, 9> {
    /// Creates a solver with the D2Q9 stencil whose every cell, and the
    /// reference state of the inflow sides, is at equilibrium for the given
    /// density and velocity.
    pub fn new_d2q9(
        size: &[usize; 2],
        boundary_schemes: &[[BoundaryScheme; 2]; 2],
        density: S,
        velocity_vector: &[S; 2],
    ) -> (r: Self)
        requires
            size[0] >= 1,
            size[1] >= 1,
            size[0] * size[1] <= usize::MAX,
            forall|d: int|
                0 <= d < 2 && (boundary_schemes[d][0] == BoundaryScheme::Outflow || boundary_schemes[d][1]
                    == BoundaryScheme::Outflow) ==> #[trigger] size[d] >= 2,
        ensures
            r.wf(),
            r.sizes() == size@,
            r.schemes() == *boundary_schemes,
            r.cells().len() == size[0] * size[1],
            r.cells().len() == cell_count(size@),
            forall|t: int| 0 <= t < r.cells().len() ==> !#[trigger] r.obstacles()[t],
            forall|t: int| 0 <= t < r.cells().len() ==> #[trigger] r.cells()[t] == r.source(),
            r.source().density == density,
            r.source().velocity_vector == *velocity_vector,
            forall|i: int|
                0 <= i < 9 ==> #[trigger] r.vector(i) == seq![d2q9::vector_x(i), d2q9::vector_y(i)],
            r.weights()@[0] == S::spec_from_ratio(4, 9),
            forall|i: int| 1 <= i <= 4 ==> #[trigger] r.weights()@[i] == S::spec_from_ratio(1, 9),
            forall|i: int| 5 <= i < 9 ==> #[trigger] r.weights()@[i] == S::spec_from_ratio(1, 36),
            r.cs2() == S::spec_from_ratio(1, 3),
            forall|i: int|
                0 <= i < 9 ==> #[trigger] r.source().distributions@[i] == r.equilibrium(i, density, velocity_vector@),
    {
        let lattice_vectors = d2q9::lattice_vectors();
        let zero = S::zero();
        let mut weights = [zero; 9];
        let mut i: usize = 0;
        while i < 9
            invariant
                i <= 9,
                forall|k: int| 0 <= k < i && k == 0 ==> #[trigger] weights@[k] == S::spec_from_ratio(4, 9),
                forall|k: int| 0 <= k < i && 1 <= k <= 4 ==> #[trigger] weights@[k] == S::spec_from_ratio(1, 9),
                forall|k: int| 0 <= k < i && 5 <= k ==> #[trigger] weights@[k] == S::spec_from_ratio(1, 36),
            decreases 9 - i,
        {
            let (numerator, denominator) = d2q9::weight_ratio(i);
            weights[i] = S::from_ratio(numerator, denominator);
            i += 1;
        }
        let (numerator, denominator) = d2q9::sound_speed_squared_ratio();
        let sound_speed_squared = S::from_ratio(numerator, denominator);

        let distributions = Self::equilibrium_distributions(
            &lattice_vectors,
            &weights,
            sound_speed_squared,
            density,
            velocity_vector,
        );
        let source_algorithm_values = AlgorithmValues::<S, 2, 9> {
            distributions,
            collision_distributions: [zero; 9],
            density,
            velocity_vector: *velocity_vector,
        };

        let len = size[0] * size[1];
        proof {
            reveal_with_fuel(crate::grid::span_from, 3);
            assert(cell_count(size@) == size[0] * size[1]);
        }
        let mut algorithm_values: Vec<AlgorithmValues<S, 2, 9>> = Vec::new();
        let mut object: Vec<bool> = Vec::new();
        let mut k: usize = 0;
        while k < len
            invariant
                k <= len,
                algorithm_values@.len() == k,
                object@.len() == k,
                forall|t: int| 0 <= t < k ==> #[trigger] algorithm_values@[t] == source_algorithm_values,
                forall|t: int| 0 <= t < k ==> !#[trigger] object@[t],
            decreases len - k,
        {
            algorithm_values.push(source_algorithm_values);
            object.push(false);
            k += 1;
        }
        let lattice = Lattice { size: *size, boundary_schemes: *boundary_schemes, lattice_vectors, object };
        proof {
            d2q9::lemma_stencil_wf(lattice);
            assert forall|i: int| 0 <= i < 9 implies #[trigger] lattice.vector(i) == seq![
                d2q9::vector_x(i),
                d2q9::vector_y(i),
            ] by {
                assert(lattice.lattice_vectors@[i]@ =~= seq![d2q9::vector_x(i) as isize, d2q9::vector_y(i) as isize]);
                assert(lattice.vector(i) =~= seq![d2q9::vector_x(i), d2q9::vector_y(i)]);
            }
        }
        Lbgk { lattice, weights, sound_speed_squared, source_algorithm_values, algorithm_values }
    }
}

impl<S: Scalar, const N: usize, const B: usize> Lbgk<S, N, B> {
    /// The grid holds one state per cell, the lattice is well formed, and a
    /// dimension with an outflow side has an interior neighbour to copy from.
    pub open(crate) spec fn wf(self) -> bool {
        &&& self.lattice.wf()
        &&& self.algorithm_values@.len() == cell_count(self.lattice.size@)
        &&& forall|d: int|
            0 <= d < N && (self.lattice.low(d) == BoundaryScheme::Outflow || self.lattice.high(d)
                == BoundaryScheme::Outflow) ==> #[trigger] self.lattice.size@[d] >= 2
    }

    pub open(crate) spec fn sizes(self) -> Seq<usize> {
        self.lattice.size@
    }

    pub open(crate) spec fn schemes(self) -> [[BoundaryScheme; 2]; N] {
        self.lattice.boundary_schemes
    }

    pub open(crate) spec fn stencil(self) -> [[isize; N]; B] {
        self.lattice.lattice_vectors
    }

    /// Weights of the stencil directions.
    pub open(crate) spec fn weights(self) -> [S; B] {
        self.weights
    }

    /// Sound speed squared of the stencil.
    pub open(crate) spec fn cs2(self) -> S {
        self.sound_speed_squared
    }

    /// Stencil vector `i`.
    pub open(crate) spec fn vector(self, i: int) -> Seq<int> {
        self.lattice.vector(i)
    }

    /// Obstacle mask, by flat index.
    pub open(crate) spec fn obstacles(self) -> Seq<bool> {
        self.lattice.object@
    }

    /// State of every cell, by flat index.
    pub open(crate) spec fn cells(self) -> Seq<AlgorithmValues<S, N, B>> {
        self.algorithm_values@
    }

    /// The reference state written into inflow sides.
    pub open(crate) spec fn source(self) -> AlgorithmValues<S, N, B> {
        self.source_algorithm_values
    }

    /// State of the cell at `pos`.
    pub open(crate) spec fn cell_at(self, pos: Seq<usize>) -> AlgorithmValues<S, N, B> {
        self.cells()[cell_index(pos, self.sizes())]
    }

    /// Whether the cell at `pos` is solid.
    pub open(crate) spec fn object_at(self, pos: Seq<usize>) -> bool {
        self.obstacles()[cell_index(pos, self.sizes())]
    }

    /// Everything but the cell states is the same in `self` and `other`.
    pub open(crate) spec fn same_setup(self, other: Self) -> bool {
        &&& self.lattice == other.lattice
        &&& self.weights == other.weights
        &&& self.sound_speed_squared == other.sound_speed_squared
        &&& self.source_algorithm_values == other.source_algorithm_values
        &&& self.algorithm_values@.len() == other.algorithm_values@.len()
    }

    /// Flat array index for a lattice position.
    fn index(&self, pos: &[usize; N]) -> (r: usize)
        requires
            self.wf(),
            in_bounds(pos@, self.sizes()),
        ensures
            r == cell_index(pos@, self.sizes()),
            r < self.cells().len(),
    {
        proof {
            lemma_cell_index_bound(pos@, self.sizes());
        }
        cell_index_of(pos, &self.lattice.size)
    }

    /// Whether population `i` of the cell at `p` comes before the sweep
    /// point: cell `done`, direction `dir`.
    pub open(crate) spec fn swept(self, p: Seq<usize>, i: int, done: int, dir: int) -> bool {
        let k = cell_index(p, self.sizes());
        k < done || (k == done && i < dir)
    }

    /// Slot `j` of cell `t` in `after`, once the populations up to the sweep
    /// point have streamed from `before`: it holds the post-collision
    /// population of a swept source that feeds it, or, where none does, its
    /// value in `before`.
    pub open(crate) spec fn slot_streamed(
        self,
        before: Seq<AlgorithmValues<S, N, B>>,
        after: Seq<AlgorithmValues<S, N, B>>,
        t: int,
        j: int,
        done: int,
        dir: int,
    ) -> bool {
        let fed = exists|p: Seq<usize>, i: int| #[trigger] self.lattice.feeds(p, i, t, j) && self.swept(p, i, done, dir);
        &&& fed ==> exists|p: Seq<usize>, i: int|
            #[trigger] self.lattice.feeds(p, i, t, j) && self.swept(p, i, done, dir)
                && after[t].distributions@[j] == before[cell_index(p, self.sizes())].collision_distributions@[i]
        &&& !fed ==> after[t].distributions@[j] == before[t].distributions@[j]
    }

    /// Slot `j` of cell `t` after the whole streaming phase: it holds the
    /// post-collision population of a source that feeds it, or keeps its value
    /// where no source does.
    pub open(crate) spec fn streamed(
        self,
        before: Seq<AlgorithmValues<S, N, B>>,
        after: Seq<AlgorithmValues<S, N, B>>,
        t: int,
        j: int,
    ) -> bool {
        let fed = exists|p: Seq<usize>, i: int| #[trigger] self.lattice.feeds(p, i, t, j);
        &&& fed ==> exists|p: Seq<usize>, i: int|
            #[trigger] self.lattice.feeds(p, i, t, j)
                && after[t].distributions@[j] == before[cell_index(p, self.sizes())].collision_distributions@[i]
        &&& !fed ==> after[t].distributions@[j] == before[t].distributions@[j]
    }

    proof fn lemma_slot_same(
        self,
        before: Seq<AlgorithmValues<S, N, B>>,
        after: Seq<AlgorithmValues<S, N, B>>,
        t: int,
        j: int,
        d1: int,
        i1: int,
        d2: int,
        i2: int,
    )
        requires
            self.slot_streamed(before, after, t, j, d1, i1),
            forall|p: Seq<usize>, i: int|
                #[trigger] self.lattice.feeds(p, i, t, j) ==> (self.swept(p, i, d1, i1) == self.swept(p, i, d2, i2)),
        ensures
            self.slot_streamed(before, after, t, j, d2, i2),
    {
        if exists|p: Seq<usize>, i: int| #[trigger] self.lattice.feeds(p, i, t, j) && self.swept(p, i, d1, i1) {
            let (p, i) = choose|p: Seq<usize>, i: int|
                #[trigger] self.lattice.feeds(p, i, t, j) && self.swept(p, i, d1, i1)
                    && after[t].distributions@[j] == before[cell_index(p, self.sizes())].collision_distributions@[i];
            assert(self.lattice.feeds(p, i, t, j) && self.swept(p, i, d2, i2));
        } else {
            assert forall|p: Seq<usize>, i: int| #[trigger] self.lattice.feeds(p, i, t, j) implies !self.swept(p, i, d2, i2) by {
                assert(!self.swept(p, i, d1, i1));
            }
        }
    }

    proof fn lemma_write_step(
        self,
        before: Seq<AlgorithmValues<S, N, B>>,
        cur: Seq<AlgorithmValues<S, N, B>>,
        after: Seq<AlgorithmValues<S, N, B>>,
        pos: Seq<usize>,
        i: int,
        to: int,
        j0: int,
        done: int,
    )
        requires
            self.lattice.wf(),
            before.len() == cell_count(self.sizes()),
            cur.len() == before.len(),
            after.len() == before.len(),
            in_bounds(pos, self.sizes()),
            cell_index(pos, self.sizes()) == done,
            !self.lattice.is_obstacle(done),
            0 <= i < B,
            0 <= j0 < B,
            0 <= to < before.len(),
            self.lattice.stream_target(pos, i) == Some((to, self.vector(j0))),
            forall|t: int, j: int|
                0 <= t < before.len() && 0 <= j < B ==> #[trigger] self.slot_streamed(before, cur, t, j, done, i),
            after[to].distributions@ == cur[to].distributions@.update(j0, before[done].collision_distributions@[i]),
            forall|t: int| 0 <= t < before.len() && t != to ==> #[trigger] after[t] == cur[t],
        ensures
            forall|t: int, j: int|
                0 <= t < before.len() && 0 <= j < B ==> #[trigger] self.slot_streamed(before, after, t, j, done, i + 1),
    {
        assert forall|t: int, j: int| 0 <= t < before.len() && 0 <= j < B implies #[trigger] self.slot_streamed(
            before,
            after,
            t,
            j,
            done,
            i + 1,
        ) by {
            if t == to && j == j0 {
                assert(self.lattice.feeds(pos, i, t, j) && self.swept(pos, i, done, i + 1));
            } else {
                assert forall|p: Seq<usize>, k: int| #[trigger] self.lattice.feeds(p, k, t, j) implies (self.swept(
                    p,
                    k,
                    done,
                    i,
                ) == self.swept(p, k, done, i + 1)) by {
                    if cell_index(p, self.sizes()) == done && k == i {
                        crate::grid::lemma_cell_index_injective(p, pos, self.sizes());
                        assert(self.vector(j) == self.vector(j0));
                    }
                }
                self.lemma_slot_same(before, cur, t, j, done, i, done, i + 1);
                assert(after[t].distributions@[j] == cur[t].distributions@[j]);
            }
        }
    }

    proof fn lemma_skip_step(
        self,
        before: Seq<AlgorithmValues<S, N, B>>,
        cur: Seq<AlgorithmValues<S, N, B>>,
        pos: Seq<usize>,
        i: int,
        done: int,
    )
        requires
            self.lattice.wf(),
            in_bounds(pos, self.sizes()),
            cell_index(pos, self.sizes()) == done,
            self.lattice.is_obstacle(done) || self.lattice.stream_target(pos, i) is None,
            forall|t: int, j: int|
                0 <= t < before.len() && 0 <= j < B ==> #[trigger] self.slot_streamed(before, cur, t, j, done, i),
        ensures
            forall|t: int, j: int|
                0 <= t < before.len() && 0 <= j < B ==> #[trigger] self.slot_streamed(before, cur, t, j, done, i + 1),
    {
        assert forall|t: int, j: int| 0 <= t < before.len() && 0 <= j < B implies #[trigger] self.slot_streamed(
            before,
            cur,
            t,
            j,
            done,
            i + 1,
        ) by {
            assert forall|p: Seq<usize>, k: int| #[trigger] self.lattice.feeds(p, k, t, j) implies (self.swept(
                p,
                k,
                done,
                i,
            ) == self.swept(p, k, done, i + 1)) by {
                if cell_index(p, self.sizes()) == done && k == i {
                    crate::grid::lemma_cell_index_injective(p, pos, self.sizes());
                }
            }
            self.lemma_slot_same(before, cur, t, j, done, i, done, i + 1);
        }
    }

    /// Streaming phase: every post-collision population of a fluid cell moves
    /// to the slot that `Lattice::stream_target` gives.
    fn streaming_step(&mut self)
        requires
            old(self).wf(),
        ensures
            final(self).wf(),
            final(self).same_setup(*old(self)),
            forall|t: int|
                0 <= t < old(self).cells().len() ==> {
                    &&& (#[trigger] final(self).cells()[t]).collision_distributions == old(self).cells()[t].collision_distributions
                    &&& final(self).cells()[t].density == old(self).cells()[t].density
                    &&& final(self).cells()[t].velocity_vector == old(self).cells()[t].velocity_vector
                },
            forall|t: int, j: int|
                0 <= t < old(self).cells().len() && 0 <= j < B ==> #[trigger] old(self).streamed(
                    old(self).cells(),
                    final(self).cells(),
                    t,
                    j,
                ),
    {
        let ghost before = self.cells();
        let ghost len = before.len() as int;
        let mut pos = [0usize; N];
        let dims = [true; N];
        assert(dims@ =~= crate::grid::all_dims(N as nat));
        assert(in_bounds(pos@, self.sizes())) by {
            assert(crate::grid::sizes_positive(self.sizes()));
            assert forall|d: int| 0 <= d < N implies #[trigger] pos@[d] < self.sizes()[d] by {
                assert(self.sizes()[d] >= 1);
            }
        }
        proof {
            assert forall|d: int| 0 <= d < N implies #[trigger] pos@[d] == 0usize by {}
            assert(cell_index(pos@, self.sizes()) == 0) by {
                crate::grid::lemma_rank_zero(pos@, self.sizes(), dims@, 0);
            }
        }
        assert forall|t: int, j: int| 0 <= t < len && 0 <= j < B implies #[trigger] old(self).slot_streamed(
            before,
            self.cells(),
            t,
            j,
            0,
            0,
        ) by {
            assert forall|p: Seq<usize>, i: int| #[trigger] old(self).lattice.feeds(p, i, t, j) implies !old(self).swept(
                p,
                i,
                0,
                0,
            ) by {
                lemma_cell_index_bound(p, self.sizes());
            }
        }
        let ghost mut done: int = 0;
        let mut more = true;
        while more
            invariant
                self.wf(),
                self.same_setup(*old(self)),
                before == old(self).cells(),
                len == before.len(),
                dims@ == crate::grid::all_dims(N as nat),
                more ==> in_bounds(pos@, self.sizes()) && cell_index(pos@, self.sizes()) == done,
                0 <= done <= len,
                !more ==> done == len,
                forall|t: int|
                    0 <= t < len ==> {
                        &&& (#[trigger] self.cells()[t]).collision_distributions == before[t].collision_distributions
                        &&& self.cells()[t].density == before[t].density
                        &&& self.cells()[t].velocity_vector == before[t].velocity_vector
                    },
                forall|t: int, j: int|
                    0 <= t < len && 0 <= j < B ==> #[trigger] old(self).slot_streamed(
                        before,
                        self.cells(),
                        t,
                        j,
                        done,
                        0,
                    ),
            decreases len - done + (if more { 1int } else { 0int }),
        {
            let index = self.index(&pos);
            let fluid = !self.lattice.object[index];
            let mut i: usize = 0;
            while i < B
                invariant
                    self.wf(),
                    self.same_setup(*old(self)),
                    before == old(self).cells(),
                    len == before.len(),
                    in_bounds(pos@, self.sizes()),
                    index == cell_index(pos@, self.sizes()),
                    index == done,
                    0 <= done < len,
                    fluid == !self.lattice.is_obstacle(index as int),
                    i <= B,
                    forall|t: int|
                        0 <= t < len ==> {
                            &&& (#[trigger] self.cells()[t]).collision_distributions == before[t].collision_distributions
                            &&& self.cells()[t].density == before[t].density
                            &&& self.cells()[t].velocity_vector == before[t].velocity_vector
                        },
                    forall|t: int, j: int|
                        0 <= t < len && 0 <= j < B ==> #[trigger] old(self).slot_streamed(
                            before,
                            self.cells(),
                            t,
                            j,
                            done,
                            i as int,
                        ),
                decreases B - i,
            {
                let target = if fluid {
                    self.lattice.stream_target_of(&pos, i)
                } else {
                    None
                };
                let ghost cur = self.cells();
                match target {
                    Some((to, j0)) => {
                        proof {
                            lemma_cell_index_bound(pos@, self.sizes());
                            self.lattice.lemma_target_in_grid(pos@, i as int);
                        }
                        let value = self.algorithm_values[index].collision_distributions[i];
                        let mut cell = self.algorithm_values[to];
                        cell.distributions[j0] = value;
                        self.algorithm_values.set(to, cell);
                        proof {
                            old(self).lemma_write_step(before, cur, self.cells(), pos@, i as int, to as int, j0 as int, done);
                        }
                    },
                    None => {
                        proof {
                            old(self).lemma_skip_step(before, cur, pos@, i as int, done);
                        }
                    },
                }
                i += 1;
            }
            proof {
                assert forall|t: int, j: int| 0 <= t < len && 0 <= j < B implies #[trigger] old(self).slot_streamed(
                    before,
                    self.cells(),
                    t,
                    j,
                    done + 1,
                    0,
                ) by {
                    old(self).lemma_slot_same(before, self.cells(), t, j, done, B as int, done + 1, 0);
                }
            }
            more = crate::grid::next_pos(&mut pos, &dims, &self.lattice.size);
            proof {
                done = done + 1;
                if !more {
                    assert(done == len);
                }
            }
        }
        proof {
            assert forall|t: int, j: int| 0 <= t < len && 0 <= j < B implies #[trigger] old(self).streamed(
                before,
                self.cells(),
                t,
                j,
            ) by {
                assert forall|p: Seq<usize>, i: int| #[trigger] old(self).lattice.feeds(p, i, t, j) implies old(self).swept(
                    p,
                    i,
                    len,
                    0,
                ) by {
                    lemma_cell_index_bound(p, self.sizes());
                }
                assert(old(self).slot_streamed(before, self.cells(), t, j, len, 0));
                if exists|p: Seq<usize>, i: int| #[trigger] old(self).lattice.feeds(p, i, t, j) {
                    let (p, i) = choose|p: Seq<usize>, i: int| #[trigger] old(self).lattice.feeds(p, i, t, j);
                    assert(old(self).swept(p, i, len, 0));
                    let (p2, i2) = choose|p2: Seq<usize>, i2: int|
                        #[trigger] old(self).lattice.feeds(p2, i2, t, j) && old(self).swept(p2, i2, len, 0)
                            && self.cells()[t].distributions@[j] == before[cell_index(
                            p2,
                            self.sizes(),
                        )].collision_distributions@[i2];
                    assert(old(self).lattice.feeds(p2, i2, t, j));
                }
            }
        }
    }

    /// Maintains one side: every fluid cell on the hyperplane of side `s` of
    /// dimension `d` takes the reference state (inflow) or its interior
    /// neighbour's state (outflow).
    fn update_side(&mut self, d: usize, s: usize)
        requires
            old(self).wf(),
            d < N,
            s < 2,
        ensures
            final(self).wf(),
            final(self).same_setup(*old(self)),
            final(self).cells() == old(self).lattice.side_updated(old(self).cells(), old(self).source(), d as int, s as int),
    {
        let scheme = self.lattice.boundary_schemes[d][s];
        let inflow = match scheme {
            BoundaryScheme::Inflow => true,
            BoundaryScheme::Outflow => false,
            _ => {
                return ;
            },
        };
        let ghost before = self.cells();
        let ghost len = before.len() as int;
        let mut pos = [0usize; N];
        let edge = if s == 0 {
            0
        } else {
            self.lattice.size[d] - 1
        };
        pos[d] = edge;
        let mut dims = [true; N];
        dims[d] = false;
        let ghost size = self.sizes();
        proof {
            assert(crate::grid::sizes_positive(size));
            assert forall|e: int| 0 <= e < N implies #[trigger] pos@[e] < size[e] by {
                assert(size[e] >= 1);
            }
            assert forall|e: int| 0 <= e < N && dims@[e] implies #[trigger] pos@[e] == 0usize by {}
            lemma_rank_zero_enabled(pos@, size, dims@, 0);
            if !inflow {
                assert(size[d as int] >= 2);
            }
        }
        assert forall|q: Seq<usize>| #[trigger] old(self).lattice.on_side(q, d as int, s as int) implies crate::grid::rank_from(
            q,
            size,
            dims@,
            0,
        ) >= 0 by {
            crate::grid::lemma_rank_bound(q, size, dims@, 0);
        }
        let ghost mut done: int = 0;
        let mut more = true;
        while more
            invariant
                self.wf(),
                self.same_setup(*old(self)),
                before == old(self).cells(),
                len == before.len(),
                size == self.sizes(),
                d < N,
                s < 2,
                dims@.len() == N,
                !dims@[d as int],
                forall|e: int| 0 <= e < N && e != d ==> #[trigger] dims@[e],
                inflow == (old(self).lattice.side_scheme(d as int, s as int) == BoundaryScheme::Inflow),
                old(self).lattice.is_open(d as int, s as int),
                !inflow ==> size[d as int] >= 2,
                edge == old(self).lattice.edge(d as int, s as int),
                more ==> old(self).lattice.on_side(pos@, d as int, s as int) && crate::grid::rank_from(pos@, size, dims@, 0) == done,
                0 <= done,
                !more ==> done == crate::grid::span_from(size, dims@, 0),
                forall|q: Seq<usize>|
                    #[trigger] old(self).lattice.on_side(q, d as int, s as int) && !old(self).lattice.is_obstacle(cell_index(q, size))
                        && crate::grid::rank_from(q, size, dims@, 0) < done ==> self.cells()[cell_index(q, size)]
                        == old(self).lattice.boundary_value(before, old(self).source(), q, d as int, s as int),
                forall|t: int|
                    0 <= t < len ==> #[trigger] self.cells()[t] == before[t] || exists|q: Seq<usize>|
                        #[trigger] old(self).lattice.side_cell(q, d as int, s as int, t) && crate::grid::rank_from(q, size, dims@, 0)
                            < done,
            decreases crate::grid::span_from(size, dims@, 0) - done + (if more { 1int } else { 0int }),
        {
            proof {
                crate::grid::lemma_rank_bound(pos@, size, dims@, 0);
            }
            let index = self.index(&pos);
            if !self.lattice.object[index] {
                let value = if inflow {
                    self.source_algorithm_values
                } else {
                    let mut other = pos;
                    if s == 0 {
                        other[d] = pos[d] + 1;
                    } else {
                        other[d] = pos[d] - 1;
                    }
                    proof {
                        assert(other@ =~= old(self).lattice.inward(pos@, d as int, s as int));
                        assert(in_bounds(other@, size));
                        let t2 = cell_index(other@, size);
                        if self.cells()[t2] != before[t2] {
                            lemma_cell_index_bound(other@, size);
                            let q = choose|q: Seq<usize>|
                                #[trigger] old(self).lattice.side_cell(q, d as int, s as int, t2) && crate::grid::rank_from(
                                    q,
                                    size,
                                    dims@,
                                    0,
                                ) < done;
                            crate::grid::lemma_cell_index_injective(q, other@, size);
                        }
                    }
                    let other_index = self.index(&other);
                    let v = self.algorithm_values[other_index];
                    assert(v == old(self).lattice.boundary_value(before, old(self).source(), pos@, d as int, s as int));
                    v
                };
                let ghost cur = self.cells();
                self.algorithm_values.set(index, value);
                proof {
                    assert forall|q: Seq<usize>|
                        #[trigger] old(self).lattice.on_side(q, d as int, s as int) && !old(self).lattice.is_obstacle(cell_index(q, size))
                            && crate::grid::rank_from(q, size, dims@, 0) < done + 1 implies self.cells()[cell_index(q, size)]
                        == old(self).lattice.boundary_value(before, old(self).source(), q, d as int, s as int) by {
                        lemma_cell_index_bound(q, size);
                        if cell_index(q, size) == index {
                            crate::grid::lemma_cell_index_injective(q, pos@, size);
                            assert(q =~= pos@);
                        } else {
                            assert(self.cells()[cell_index(q, size)] == cur[cell_index(q, size)]);
                            if crate::grid::rank_from(q, size, dims@, 0) == done {
                                assert(crate::grid::same_fixed(q, pos@, dims@));
                                crate::grid::lemma_rank_injective(q, pos@, size, dims@, 0);
                                assert(q =~= pos@);
                            }
                        }
                    }
                    assert forall|t: int| 0 <= t < len implies #[trigger] self.cells()[t] == before[t] || exists|q: Seq<usize>|
                        #[trigger] old(self).lattice.side_cell(q, d as int, s as int, t) && crate::grid::rank_from(q, size, dims@, 0)
                            < done + 1 by {
                        if t == index {
                            assert(old(self).lattice.side_cell(pos@, d as int, s as int, t));
                        } else if cur[t] != before[t] {
                            let q = choose|q: Seq<usize>|
                                #[trigger] old(self).lattice.side_cell(q, d as int, s as int, t) && crate::grid::rank_from(
                                    q,
                                    size,
                                    dims@,
                                    0,
                                ) < done;
                            assert(old(self).lattice.side_cell(q, d as int, s as int, t));
                        }
                    }
                }
            } else {
                proof {
                    assert forall|q: Seq<usize>|
                        #[trigger] old(self).lattice.on_side(q, d as int, s as int) && !old(self).lattice.is_obstacle(cell_index(q, size))
                            && crate::grid::rank_from(q, size, dims@, 0) < done + 1 implies self.cells()[cell_index(q, size)]
                        == old(self).lattice.boundary_value(before, old(self).source(), q, d as int, s as int) by {
                        if crate::grid::rank_from(q, size, dims@, 0) == done {
                            assert(crate::grid::same_fixed(q, pos@, dims@));
                            crate::grid::lemma_rank_injective(q, pos@, size, dims@, 0);
                            assert(q =~= pos@);
                        }
                    }
                    assert forall|t: int| 0 <= t < len implies #[trigger] self.cells()[t] == before[t] || exists|q: Seq<usize>|
                        #[trigger] old(self).lattice.side_cell(q, d as int, s as int, t) && crate::grid::rank_from(q, size, dims@, 0)
                            < done + 1 by {
                        if self.cells()[t] != before[t] {
                            let q = choose|q: Seq<usize>|
                                #[trigger] old(self).lattice.side_cell(q, d as int, s as int, t) && crate::grid::rank_from(
                                    q,
                                    size,
                                    dims@,
                                    0,
                                ) < done;
                            assert(old(self).lattice.side_cell(q, d as int, s as int, t));
                        }
                    }
                }
            }
            more = crate::grid::next_pos(&mut pos, &dims, &self.lattice.size);
            proof {
                done = done + 1;
            }
        }
        proof {
            let after = old(self).lattice.side_updated(before, old(self).source(), d as int, s as int);
            assert(old(self).lattice.is_open(d as int, s as int));
            assert forall|t: int| 0 <= t < len implies #[trigger] self.cells()[t] == after[t] by {
                if exists|q: Seq<usize>| #[trigger] old(self).lattice.side_cell(q, d as int, s as int, t) {
                    let q = choose|q: Seq<usize>| #[trigger] old(self).lattice.side_cell(q, d as int, s as int, t);
                    crate::grid::lemma_rank_bound(q, size, dims@, 0);
                    assert(old(self).lattice.on_side(q, d as int, s as int));
                    assert(old(self).lattice.side_cell(q, d as int, s as int, t));
                } else {
                    if self.cells()[t] != before[t] {
                        let q = choose|q: Seq<usize>|
                            #[trigger] old(self).lattice.side_cell(q, d as int, s as int, t) && crate::grid::rank_from(q, size, dims@, 0)
                                < done;
                        assert(old(self).lattice.side_cell(q, d as int, s as int, t));
                    }
                }
            }
            assert(self.cells() =~= after);
        }
    }

    /// Inflow and outflow phase: maintains the sides in order, dimension by
    /// dimension, the low side before the high side.
    fn update_inflows_and_outflows(&mut self)
        requires
            old(self).wf(),
        ensures
            final(self).wf(),
            final(self).same_setup(*old(self)),
            final(self).cells() == old(self).lattice.sides_updated(old(self).cells(), old(self).source(), (2 * N) as nat),
    {
        let mut d: usize = 0;
        while d < N
            invariant
                d <= N,
                self.wf(),
                self.same_setup(*old(self)),
                self.cells() == old(self).lattice.sides_updated(old(self).cells(), old(self).source(), (2 * d) as nat),
            decreases N - d,
        {
            self.update_side(d, 0);
            self.update_side(d, 1);
            proof {
                let c = old(self).cells();
                let src = old(self).source();
                let lat = old(self).lattice;
                assert(((2 * d + 1) as nat - 1) / 2 == d as int && ((2 * d + 1) as nat - 1) % 2 == 0);
                assert(((2 * d + 2) as nat - 1) / 2 == d as int && ((2 * d + 2) as nat - 1) % 2 == 1);
                assert(lat.sides_updated(c, src, (2 * d + 1) as nat) == lat.side_updated(
                    lat.sides_updated(c, src, (2 * d) as nat),
                    src,
                    d as int,
                    0,
                ));
                assert(lat.sides_updated(c, src, (2 * d + 2) as nat) == lat.side_updated(
                    lat.sides_updated(c, src, (2 * d + 1) as nat),
                    src,
                    d as int,
                    1,
                ));
            }
            d += 1;
        }
    }

    /// Density at lattice position.
    pub fn density(&self, pos: &[usize; N]) -> (r: S)
        requires
            self.wf(),
            in_bounds(pos@, self.sizes()),
        ensures
            r == self.cell_at(pos@).density,
    {
        self.algorithm_values[self.index(pos)].density
    }

    /// Velocity vector at lattice position.
    pub fn velocity_vector(&self, pos: &[usize; N]) -> (r: [S; N])
        requires
            self.wf(),
            in_bounds(pos@, self.sizes()),
        ensures
            r == self.cell_at(pos@).velocity_vector,
    {
        self.algorithm_values[self.index(pos)].velocity_vector
    }

    /// Velocity at lattice position: the length of the velocity vector.
    pub fn velocity(&self, pos: &[usize; N]) -> (r: S)
        requires
            self.wf(),
            in_bounds(pos@, self.sizes()),
        ensures
            r == dot_spec(self.cell_at(pos@).velocity_vector@, self.cell_at(pos@).velocity_vector@, N as nat).spec_square_root(),
    {
        let u = self.velocity_vector(pos);
        dot_product(&u, &u).square_root()
    }

    /// Flat indices of the four axis neighbours of `pos`, in the order
    /// `x + 1`, `x - 1`, `y + 1`, `y - 1`; none on the outer ring of the grid.
    fn vorticity_neighbours(&self, pos: &[usize; N]) -> (r: Option<[usize; 4]>)
        requires
            self.wf(),
            in_bounds(pos@, self.sizes()),
            N == 2,
        ensures
            r.is_some() == (1 <= pos[0] && pos[0] + 1 < self.sizes()[0] && 1 <= pos[1] && pos[1] + 1
                < self.sizes()[1]),
            r matches Some(n) ==> {
                &&& n[0] == cell_index(pos@.update(0, (pos[0] + 1) as usize), self.sizes())
                &&& n[1] == cell_index(pos@.update(0, (pos[0] - 1) as usize), self.sizes())
                &&& n[2] == cell_index(pos@.update(1, (pos[1] + 1) as usize), self.sizes())
                &&& n[3] == cell_index(pos@.update(1, (pos[1] - 1) as usize), self.sizes())
                &&& forall|k: int| 0 <= k < 4 ==> #[trigger] n@[k] < self.cells().len()
            },
    {
        if 1 <= pos[0] && pos[0] + 1 < self.lattice.size[0] && 1 <= pos[1] && pos[1] + 1 < self.lattice.size[1] {
            let mut other = *pos;
            other[0] = pos[0] + 1;
            assert(other@ =~= pos@.update(0, (pos[0] + 1) as usize));
            let right = self.index(&other);
            other[0] = pos[0] - 1;
            assert(other@ =~= pos@.update(0, (pos[0] - 1) as usize));
            let left = self.index(&other);
            other[0] = pos[0];
            other[1] = pos[1] + 1;
            assert(other@ =~= pos@.update(1, (pos[1] + 1) as usize));
            let up = self.index(&other);
            other[1] = pos[1] - 1;
            assert(other@ =~= pos@.update(1, (pos[1] - 1) as usize));
            let down = self.index(&other);
            let n = [right, left, up, down];
            assert(forall|k: int| 0 <= k < 4 ==> #[trigger] n@[k] < self.cells().len());
            Some(n)
        } else {
            None
        }
    }

    /// Vorticity at lattice position, `dv/dx - du/dy` by central differences
    /// over the four axis neighbours; zero on the outer ring of the grid.
    /// Defined for two dimensions.
    pub fn vorticity(&self, pos: &[usize; N]) -> (r: S)
        requires
            self.wf(),
            in_bounds(pos@, self.sizes()),
            N == 2,
        ensures
            !(1 <= pos[0] && pos[0] + 1 < self.sizes()[0] && 1 <= pos[1] && pos[1] + 1 < self.sizes()[1]) ==> r
                == S::spec_zero(),
            (1 <= pos[0] && pos[0] + 1 < self.sizes()[0] && 1 <= pos[1] && pos[1] + 1 < self.sizes()[1]) ==> r
                == S::spec_zero().spec_plus(
                self.cell_at(pos@.update(0, (pos[0] + 1) as usize)).velocity_vector@[1],
            ).spec_minus(self.cell_at(pos@.update(0, (pos[0] - 1) as usize)).velocity_vector@[1]).spec_minus(
                self.cell_at(pos@.update(1, (pos[1] + 1) as usize)).velocity_vector@[0],
            ).spec_plus(self.cell_at(pos@.update(1, (pos[1] - 1) as usize)).velocity_vector@[0]),
    {
        let mut result = S::zero();
        if let Some(n) = self.vorticity_neighbours(pos) {
            result = result.plus(self.algorithm_values[n[0]].velocity_vector[1]);
            result = result.minus(self.algorithm_values[n[1]].velocity_vector[1]);
            result = result.minus(self.algorithm_values[n[2]].velocity_vector[0]);
            result = result.plus(self.algorithm_values[n[3]].velocity_vector[0]);
        }
        result
    }

    /// Object at lattice position.
    pub fn object(&self, pos: &[usize; N]) -> (r: bool)
        requires
            self.wf(),
            in_bounds(pos@, self.sizes()),
        ensures
            r == self.object_at(pos@),
    {
        let index = self.index(pos);
        self.lattice.object[index]
    }

    /// Set object at lattice position.
    pub fn set_object(&mut self, pos: &[usize; N], val: bool)
        requires
            old(self).wf(),
            in_bounds(pos@, old(self).sizes()),
        ensures
            final(self).wf(),
            final(self).sizes() == old(self).sizes(),
            final(self).schemes() == old(self).schemes(),
            final(self).stencil() == old(self).stencil(),
            final(self).obstacles() == old(self).obstacles().update(cell_index(pos@, old(self).sizes()), val),
            final(self).cells() == old(self).cells(),
            final(self).source() == old(self).source(),
    {
        let index = self.index(pos);
        let ghost before = self.lattice;
        self.lattice.object.set(index, val);
        proof {
            assert(self.lattice.object@.len() == before.object@.len());
            assert(self.lattice.lattice_vectors == before.lattice_vectors);
            assert forall|i: int| 0 <= i < B implies #[trigger] self.lattice.vector(i) == before.vector(i) by {}
            assert forall|v: Seq<int>| #[trigger] self.lattice.is_vector(v) == before.is_vector(v) by {
                if before.is_vector(v) {
                    let j = choose|j: int| 0 <= j < B && #[trigger] before.vector(j) == v;
                    assert(self.lattice.vector(j) == v);
                }
                if self.lattice.is_vector(v) {
                    let j = choose|j: int| 0 <= j < B && #[trigger] self.lattice.vector(j) == v;
                    assert(before.vector(j) == v);
                }
            }
            assert(self.lattice.stencil_wf());
        }
    }

    /// Relaxation time that gives the Reynolds number `reynolds_number` for a
    /// flow of speed `velocity` around a body of size `characteristic_length`:
    /// `characteristic_length * velocity / (cs2 * reynolds_number) + 1/2`.
    pub fn relaxation_time(&self, velocity: S, characteristic_length: S, reynolds_number: S) -> (r: S)
        ensures
            r == characteristic_length.spec_times(velocity).spec_over(self.cs2().spec_times(reynolds_number)).spec_plus(
                S::spec_from_ratio(1, 2),
            ),
    {
        characteristic_length.times(velocity).over(self.sound_speed_squared.times(reynolds_number)).plus(
            S::from_ratio(1, 2),
        )
    }

    /// Performs one iteration: collision, streaming, derived quantities, then
    /// the inflow and outflow sides. Solid cells keep their state; every fluid
    /// cell on an inflow side holds the reference state afterwards, where each
    /// outflow side through it copies from a fluid cell on no outflow side; and every fluid cell on an outflow side, away from the
    /// other open sides, holds the same state as its interior neighbour.
    pub fn iterate(&mut self, relaxation_time: S)
        requires
            old(self).wf(),
        ensures
            final(self).wf(),
            final(self).same_setup(*old(self)),
            forall|t: int|
                0 <= t < old(self).cells().len() && old(self).obstacles()[t] ==> #[trigger] final(self).cells()[t]
                    == old(self).cells()[t],
            forall|q: Seq<usize>, d: int, s: int|
                #[trigger] old(self).pinned(q, d, s) ==> final(self).cell_at(q) == old(self).source(),
            forall|q: Seq<usize>, d: int, s: int|
                #[trigger] old(self).drains(q, d, s) ==> final(self).cell_at(q) == final(self).cell_at(
                    old(self).inward(q, d, s),
                ),
            exists|collided: Seq<AlgorithmValues<S, N, B>>, streamed: Seq<AlgorithmValues<S, N, B>>, derived: Seq<AlgorithmValues<S, N, B>>|
                #![trigger old(self).streams(collided, streamed), old(self).derives(streamed, derived)]
                old(self).collides(old(self).cells(), collided, relaxation_time)
                    && old(self).streams(collided, streamed)
                    && old(self).derives(streamed, derived)
                    && final(self).cells() == old(self).open_sides_applied(derived),
    {
        let ghost start = self.cells();
        self.collision_step(relaxation_time);
        let ghost collided = self.cells();
        let ghost before_streaming = *self;
        self.streaming_step();
        let ghost streamed = self.cells();
        let ghost before_derived = *self;
        self.calculate_derived();
        let ghost derived = self.cells();
        self.update_inflows_and_outflows();
        proof {
            let lat = old(self).lattice;
            let src = old(self).source();
            assert forall|t: int| 0 <= t < start.len() && old(self).obstacles()[t] implies #[trigger] self.cells()[t]
                == start[t] by {
                assert forall|j: int| 0 <= j < B implies #[trigger] streamed[t].distributions@[j]
                    == collided[t].distributions@[j] by {
                    assert(before_streaming.streamed(collided, streamed, t, j));
                    assert(before_streaming.lattice == lat);
                    if exists|p: Seq<usize>, i: int| #[trigger] lat.feeds(p, i, t, j) {
                        let (p, i) = choose|p: Seq<usize>, i: int| #[trigger] lat.feeds(p, i, t, j);
                        lat.lemma_target_fluid(p, i);
                    }
                }
                assert(streamed[t].distributions =~= collided[t].distributions);
                lat.lemma_sides_keep_obstacle(derived, src, t, (2 * N) as nat);
            }
            assert forall|t: int, j: int| 0 <= t < collided.len() && 0 <= j < B implies #[trigger] old(self).streamed(
                collided,
                streamed,
                t,
                j,
            ) by {
                assert(before_streaming.streamed(collided, streamed, t, j));
                assert(before_streaming.lattice == lat);
                if exists|p: Seq<usize>, i: int| #[trigger] lat.feeds(p, i, t, j) {
                    let (p, i) = choose|p: Seq<usize>, i: int|
                        #[trigger] lat.feeds(p, i, t, j) && streamed[t].distributions@[j]
                            == collided[cell_index(p, lat.size@)].collision_distributions@[i];
                    assert(lat.feeds(p, i, t, j));
                }
            }
            assert(old(self).streams(collided, streamed));
            assert forall|t: int| 0 <= t < streamed.len() implies if lat.is_obstacle(t) {
                #[trigger] derived[t] == streamed[t]
            } else {
                old(self).derived_from(streamed[t], derived[t])
            } by {
                assert(before_derived.lattice == lat);
                if !lat.is_obstacle(t) {
                    assert(before_derived.derived_from(streamed[t], derived[t]));
                    assert forall|d: int| 0 <= d < N implies #[trigger] derived[t].velocity_vector@[d] == if derived[t].density.spec_is_positive() {
                        momentum_spec(lat.lattice_vectors@, streamed[t].distributions@, d, B as nat).spec_over(derived[t].density)
                    } else {
                        S::spec_zero()
                    } by {}
                }
            }
            assert(old(self).derives(streamed, derived));
            assert forall|q: Seq<usize>, d: int, s: int| #[trigger] old(self).pinned(q, d, s) implies self.cell_at(q)
                == src by {
                lat.lemma_inflow_pinned(derived, src, q, d, s);
            }
            assert forall|q: Seq<usize>, d: int, s: int| #[trigger] old(self).drains(q, d, s) implies self.cell_at(q)
                == self.cell_at(lat.inward(q, d, s)) by {
                let n = lat.inward(q, d, s);
                assert(lat.sizes()[d] >= 2);
                lat.lemma_outflow_copies(derived, src, q, d, s);
                assert(in_bounds(n, lat.sizes()));
                assert forall|j: int| 0 <= j < 2 * N implies !(lat.is_open(j / 2, j % 2) && #[trigger] lat.on_side(
                    n,
                    j / 2,
                    j % 2,
                )) by {
                    assert(0 <= j / 2 < N && 0 <= j % 2 < 2);
                }
                lat.lemma_sides_untouched(derived, src, n, 0, (2 * N) as nat);
            }
        }
    }

    /// The interior neighbour of a position on side `s` of dimension `d`.
    pub open(crate) spec fn inward(self, q: Seq<usize>, d: int, s: int) -> Seq<usize> {
        self.lattice.inward(q, d, s)
    }

    /// Whether `q` is a fluid position on an outflow side (`s` of dimension
    /// `d`) that lies on no other inflow or outflow side, and whose interior
    /// neighbour lies on none.
    pub open(crate) spec fn drains(self, q: Seq<usize>, d: int, s: int) -> bool {
        &&& 0 <= d < N
        &&& 0 <= s < 2
        &&& self.lattice.on_side(q, d, s)
        &&& self.lattice.side_scheme(d, s) == BoundaryScheme::Outflow
        &&& !self.object_at(q)
        &&& forall|d2: int, s2: int|
            0 <= d2 < N && 0 <= s2 < 2 && self.lattice.is_open(d2, s2) && #[trigger] self.lattice.on_side(q, d2, s2)
                ==> d2 == d && s2 == s
        &&& forall|d2: int, s2: int|
            0 <= d2 < N && 0 <= s2 < 2 ==> !(self.lattice.is_open(d2, s2) && #[trigger] self.lattice.on_side(
                self.lattice.inward(q, d, s),
                d2,
                s2,
            ))
    }

    /// Whether `q` is a fluid position on an inflow side (`s` of dimension
    /// `d`) such that each outflow side that also holds it copies into it from
    /// a fluid neighbour on no outflow side.
    pub open(crate) spec fn pinned(self, q: Seq<usize>, d: int, s: int) -> bool {
        &&& 0 <= d < N
        &&& 0 <= s < 2
        &&& self.lattice.on_side(q, d, s)
        &&& self.lattice.side_scheme(d, s) == BoundaryScheme::Inflow
        &&& !self.object_at(q)
        &&& self.lattice.outflow_feeds_fluid(q)
    }

    /// Equilibrium populations for a density and a velocity:
    /// `w_i * density * (1 + c_i.u / cs2 + (c_i.u)^2 / (2 cs2^2) - u.u / (2 cs2))`.
    fn equilibrium_distributions(
        lattice_vectors: &[[isize; N]; B],
        weights: &[S; B],
        sound_speed_squared: S,
        density: S,
        velocity_vector: &[S; N],
    ) -> (r: [S; B])
        ensures
            forall|i: int|
                0 <= i < B ==> #[trigger] r@[i] == equilibrium_spec(
                    lattice_vectors@[i]@,
                    weights@[i],
                    sound_speed_squared,
                    density,
                    velocity_vector@,
                ),
    {
        let cs2x2 = sound_speed_squared.plus(sound_speed_squared);
        let cs4 = sound_speed_squared.times(sound_speed_squared);
        let cs4x2 = cs4.plus(cs4);
        let u_dot_u = dot_product(velocity_vector, velocity_vector);
        let one = S::from_integer(1);

        let mut result = [S::zero(); B];
        let mut i: usize = 0;
        while i < B
            invariant
                i <= B,
                cs2x2 == sound_speed_squared.spec_plus(sound_speed_squared),
                cs4x2 == sound_speed_squared.spec_times(sound_speed_squared).spec_plus(
                    sound_speed_squared.spec_times(sound_speed_squared),
                ),
                u_dot_u == dot_spec(velocity_vector@, velocity_vector@, N as nat),
                one == S::spec_from_integer(1),
                forall|k: int|
                    0 <= k < i ==> #[trigger] result@[k] == equilibrium_spec(
                        lattice_vectors@[k]@,
                        weights@[k],
                        sound_speed_squared,
                        density,
                        velocity_vector@,
                    ),
            decreases B - i,
        {
            let c = lattice_vectors[i];
            let mut c_dot_u = S::zero();
            let mut d: usize = 0;
            while d < N
                invariant
                    d <= N,
                    c_dot_u == lattice_dot_spec(c@, velocity_vector@, d as nat),
                decreases N - d,
            {
                c_dot_u = c_dot_u.plus(S::from_integer(c[d]).times(velocity_vector[d]));
                d += 1;
            }
            let bracket = one.plus(c_dot_u.over(sound_speed_squared)).plus(c_dot_u.times(c_dot_u).over(cs4x2)).minus(
                u_dot_u.over(cs2x2),
            );
            result[i] = weights[i].times(density).times(bracket);
            i += 1;
        }
        result
    }

    /// Equilibrium population of direction `i` for a density and a velocity,
    /// with this solver's stencil, weights and sound speed.
    pub open(crate) spec fn equilibrium(self, i: int, density: S, velocity_vector: Seq<S>) -> S {
        equilibrium_spec(
            self.lattice.lattice_vectors@[i]@,
            self.weights@[i],
            self.sound_speed_squared,
            density,
            velocity_vector,
        )
    }

    /// `after` is `before` with its post-collision populations relaxed from
    /// its populations toward the equilibrium of its density and velocity.
    pub open(crate) spec fn relaxed(self, before: AlgorithmValues<S, N, B>, after: AlgorithmValues<S, N, B>, tau: S) -> bool {
        &&& after.distributions == before.distributions
        &&& after.density == before.density
        &&& after.velocity_vector == before.velocity_vector
        &&& forall|i: int|
            0 <= i < B ==> #[trigger] after.collision_distributions@[i] == relax_spec(
                before.distributions@[i],
                self.equilibrium(i, before.density, before.velocity_vector@),
                tau,
            )
    }

    /// The collision phase takes `before` to `after`: fluid cells relax,
    /// solid cells are unchanged.
    pub open(crate) spec fn collides(
        self,
        before: Seq<AlgorithmValues<S, N, B>>,
        after: Seq<AlgorithmValues<S, N, B>>,
        tau: S,
    ) -> bool {
        &&& after.len() == before.len()
        &&& forall|t: int|
            0 <= t < before.len() ==> if self.lattice.is_obstacle(t) {
                #[trigger] after[t] == before[t]
            } else {
                self.relaxed(before[t], after[t], tau)
            }
    }

    /// `after` is `before` with its density the sum of its populations and its
    /// velocity their momentum over the density, or zero where the density is
    /// not positive.
    pub open(crate) spec fn derived_from(self, before: AlgorithmValues<S, N, B>, after: AlgorithmValues<S, N, B>) -> bool {
        &&& after.distributions == before.distributions
        &&& after.collision_distributions == before.collision_distributions
        &&& after.density == sum_spec(before.distributions@, B as nat)
        &&& forall|d: int|
            0 <= d < N ==> #[trigger] after.velocity_vector@[d] == if after.density.spec_is_positive() {
                momentum_spec(self.lattice.lattice_vectors@, before.distributions@, d, B as nat).spec_over(after.density)
            } else {
                S::spec_zero()
            }
    }

    /// The derived-quantity phase takes `before` to `after`: fluid cells get
    /// their density and velocity from their populations, solid cells are
    /// unchanged.
    pub open(crate) spec fn derives(self, before: Seq<AlgorithmValues<S, N, B>>, after: Seq<AlgorithmValues<S, N, B>>) -> bool {
        &&& after.len() == before.len()
        &&& forall|t: int|
            0 <= t < before.len() ==> if self.lattice.is_obstacle(t) {
                #[trigger] after[t] == before[t]
            } else {
                self.derived_from(before[t], after[t])
            }
    }

    /// The streaming phase takes `before` to `after`: every slot holds what
    /// `streamed` says, and the other fields are unchanged.
    pub open(crate) spec fn streams(self, before: Seq<AlgorithmValues<S, N, B>>, after: Seq<AlgorithmValues<S, N, B>>) -> bool {
        &&& after.len() == before.len()
        &&& forall|t: int|
            0 <= t < before.len() ==> {
                &&& (#[trigger] after[t]).collision_distributions == before[t].collision_distributions
                &&& after[t].density == before[t].density
                &&& after[t].velocity_vector == before[t].velocity_vector
            }
        &&& forall|t: int, j: int| 0 <= t < before.len() && 0 <= j < B ==> #[trigger] self.streamed(before, after, t, j)
    }

    /// The inflow and outflow phase applied to `cells`.
    pub open(crate) spec fn open_sides_applied(self, cells: Seq<AlgorithmValues<S, N, B>>) -> Seq<AlgorithmValues<S, N, B>> {
        self.lattice.sides_updated(cells, self.source(), (2 * N) as nat)
    }

    /// Collision phase: relaxes the populations of every fluid cell toward
    /// local equilibrium (BGK).
    fn collision_step(&mut self, relaxation_time: S)
        requires
            old(self).wf(),
        ensures
            final(self).wf(),
            final(self).same_setup(*old(self)),
            old(self).collides(old(self).cells(), final(self).cells(), relaxation_time),
    {
        let len = self.algorithm_values.len();
        let mut index: usize = 0;
        while index < len
            invariant
                index <= len,
                len == old(self).cells().len(),
                self.wf(),
                self.same_setup(*old(self)),
                self.cells().len() == len,
                forall|t: int|
                    0 <= t < len ==> if old(self).lattice.is_obstacle(t) || t >= index {
                        #[trigger] self.cells()[t] == old(self).cells()[t]
                    } else {
                        old(self).relaxed(old(self).cells()[t], self.cells()[t], relaxation_time)
                    },
            decreases len - index,
        {
            if !self.lattice.object[index] {
                let mut values = self.algorithm_values[index];
                let ghost cell0 = self.cells()[index as int];
                assert(cell0 == old(self).cells()[index as int]);
                let equilibrium_distributions = Self::equilibrium_distributions(
                    &self.lattice.lattice_vectors,
                    &self.weights,
                    self.sound_speed_squared,
                    values.density,
                    &values.velocity_vector,
                );
                let mut i: usize = 0;
                while i < B
                    invariant
                        i <= B,
                        values.distributions == cell0.distributions,
                        values.density == cell0.density,
                        values.velocity_vector == cell0.velocity_vector,
                        forall|k: int|
                            0 <= k < B ==> #[trigger] equilibrium_distributions@[k] == old(self).equilibrium(
                                k,
                                cell0.density,
                                cell0.velocity_vector@,
                            ),
                        forall|k: int|
                            0 <= k < i ==> #[trigger] values.collision_distributions@[k] == relax_spec(
                                cell0.distributions@[k],
                                old(self).equilibrium(k, cell0.density, cell0.velocity_vector@),
                                relaxation_time,
                            ),
                    decreases B - i,
                {
                    let f = values.distributions[i];
                    values.collision_distributions[i] = f.minus(
                        f.minus(equilibrium_distributions[i]).over(relaxation_time),
                    );
                    i += 1;
                }
                assert(old(self).relaxed(cell0, values, relaxation_time));
                self.algorithm_values.set(index, values);
            }
            index += 1;
        }
    }

    /// Derived-quantity phase: the density of every fluid cell becomes the sum
    /// of its populations and its velocity their momentum over the density
    /// (zero where the density is not positive).
    fn calculate_derived(&mut self)
        requires
            old(self).wf(),
        ensures
            final(self).wf(),
            final(self).same_setup(*old(self)),
            old(self).derives(old(self).cells(), final(self).cells()),
    {
        let len = self.algorithm_values.len();
        let mut index: usize = 0;
        while index < len
            invariant
                index <= len,
                len == old(self).cells().len(),
                self.wf(),
                self.same_setup(*old(self)),
                self.cells().len() == len,
                forall|t: int|
                    0 <= t < len ==> if old(self).lattice.is_obstacle(t) || t >= index {
                        #[trigger] self.cells()[t] == old(self).cells()[t]
                    } else {
                        old(self).derived_from(old(self).cells()[t], self.cells()[t])
                    },
            decreases len - index,
        {
            if !self.lattice.object[index] {
                let mut values = self.algorithm_values[index];
                let ghost cell0 = self.cells()[index as int];
                assert(cell0 == old(self).cells()[index as int]);
                let ghost vectors = old(self).lattice.lattice_vectors@;
                let mut density = S::zero();
                let mut i: usize = 0;
                while i < B
                    invariant
                        i <= B,
                        values == cell0,
                        density == sum_spec(cell0.distributions@, i as nat),
                    decreases B - i,
                {
                    density = density.plus(values.distributions[i]);
                    i += 1;
                }
                values.density = density;
                let mut d: usize = 0;
                while d < N
                    invariant
                        d <= N,
                        values.distributions == cell0.distributions,
                        values.collision_distributions == cell0.collision_distributions,
                        values.density == density,
                        forall|e: int| 0 <= e < d ==> #[trigger] values.velocity_vector@[e] == S::spec_zero(),
                    decreases N - d,
                {
                    values.velocity_vector[d] = S::zero();
                    d += 1;
                }
                if density.is_positive() {
                    let mut i: usize = 0;
                    while i < B
                        invariant
                            i <= B,
                            self.same_setup(*old(self)),
                            vectors == self.lattice.lattice_vectors@,
                            values.distributions == cell0.distributions,
                            values.collision_distributions == cell0.collision_distributions,
                            values.density == density,
                            forall|e: int|
                                0 <= e < N ==> #[trigger] values.velocity_vector@[e] == momentum_spec(
                                    vectors,
                                    cell0.distributions@,
                                    e,
                                    i as nat,
                                ),
                        decreases B - i,
                    {
                        let f = values.distributions[i];
                        let c = self.lattice.lattice_vectors[i];
                        let mut d: usize = 0;
                        while d < N
                            invariant
                                d <= N,
                                i < B,
                                c@ == vectors[i as int]@,
                                f == cell0.distributions@[i as int],
                                values.distributions == cell0.distributions,
                                values.collision_distributions == cell0.collision_distributions,
                                values.density == density,
                                forall|e: int|
                                    0 <= e < d ==> #[trigger] values.velocity_vector@[e] == momentum_spec(
                                        vectors,
                                        cell0.distributions@,
                                        e,
                                        (i + 1) as nat,
                                    ),
                                forall|e: int|
                                    d <= e < N ==> #[trigger] values.velocity_vector@[e] == momentum_spec(
                                        vectors,
                                        cell0.distributions@,
                                        e,
                                        i as nat,
                                    ),
                            decreases N - d,
                        {
                            values.velocity_vector[d] = values.velocity_vector[d].plus(
                                S::from_integer(c[d]).times(f),
                            );
                            d += 1;
                        }
                        i += 1;
                    }
                    let mut d: usize = 0;
                    while d < N
                        invariant
                            d <= N,
                            values.distributions == cell0.distributions,
                            values.collision_distributions == cell0.collision_distributions,
                            values.density == density,
                            forall|e: int|
                                0 <= e < d ==> #[trigger] values.velocity_vector@[e] == momentum_spec(
                                    vectors,
                                    cell0.distributions@,
                                    e,
                                    B as nat,
                                ).spec_over(density),
                            forall|e: int|
                                d <= e < N ==> #[trigger] values.velocity_vector@[e] == momentum_spec(
                                    vectors,
                                    cell0.distributions@,
                                    e,
                                    B as nat,
                                ),
                        decreases N - d,
                    {
                        values.velocity_vector[d] = values.velocity_vector[d].over(density);
                        d += 1;
                    }
                }
                assert(old(self).derived_from(cell0, values));
                self.algorithm_values.set(index, values);
            }
            index += 1;
        }
    }
}

} // verus!
