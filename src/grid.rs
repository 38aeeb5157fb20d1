//! Positions on an N-dimensional grid, their flat indices, and the odometer
//! that sweeps the grid or one of its boundary hyperplanes.
use vstd::prelude::*;

verus! {

/// Whether `pos` lies inside a grid of the given size.
pub open spec fn in_bounds(pos: Seq<usize>, size: Seq<usize>) -> bool {
    &&& pos.len() == size.len()
    &&& forall|d: int| 0 <= d < size.len() ==> #[trigger] pos[d] < size[d]
}

/// Whether every dimension of the grid holds at least one cell.
pub open spec fn sizes_positive(size: Seq<usize>) -> bool {
    forall|d: int| 0 <= d < size.len() ==> #[trigger] size[d] >= 1
}

/// Rank of `pos`, counted over dimensions `d..` among the positions that agree
/// with it on the disabled dimensions; the lowest enabled dimension varies
/// fastest.
pub open spec fn rank_from(pos: Seq<usize>, size: Seq<usize>, dims: Seq<bool>, d: nat) -> int
    decreases size.len() - d,
{
    if d >= size.len() {
        0
    } else if dims[d as int] {
        pos[d as int] + size[d as int] * rank_from(pos, size, dims, d + 1)
    } else {
        rank_from(pos, size, dims, d + 1)
    }
}

/// Number of positions over dimensions `d..` that agree on the disabled ones.
pub open spec fn span_from(size: Seq<usize>, dims: Seq<bool>, d: nat) -> int
    decreases size.len() - d,
{
    if d >= size.len() {
        1
    } else if dims[d as int] {
        size[d as int] * span_from(size, dims, d + 1)
    } else {
        span_from(size, dims, d + 1)
    }
}

/// Every dimension enabled.
pub open spec fn all_dims(n: nat) -> Seq<bool> {
    Seq::new(n, |d: int| true)
}

/// Flat index of a position; dimension 0 varies fastest.
pub open spec fn cell_index(pos: Seq<usize>, size: Seq<usize>) -> int {
    rank_from(pos, size, all_dims(size.len()), 0)
}

/// Number of cells of the grid.
pub open spec fn cell_count(size: Seq<usize>) -> int {
    span_from(size, all_dims(size.len()), 0)
}

/// Whether `p` and `q` agree on every disabled dimension.
pub open spec fn same_fixed(p: Seq<usize>, q: Seq<usize>, dims: Seq<bool>) -> bool {
    forall|d: int| 0 <= d < dims.len() && !dims[d] ==> #[trigger] p[d] == q[d]
}

pub proof fn lemma_span_positive(size: Seq<usize>, dims: Seq<bool>, d: nat)
    requires
        sizes_positive(size),
        dims.len() == size.len(),
    ensures
        span_from(size, dims, d) >= 1,
    decreases size.len() - d,
{
    if d < size.len() {
        lemma_span_positive(size, dims, d + 1);
        if dims[d as int] {
            let s = size[d as int] as int;
            let p = span_from(size, dims, d + 1);
            assert(s >= 1);
            assert(s * p >= 1) by (nonlinear_arith)
                requires
                    s >= 1,
                    p >= 1,
            ;
        }
    }
}

/// The span over dimensions `d..` never exceeds the span over `e..`, `e <= d`.
pub proof fn lemma_span_monotone(size: Seq<usize>, dims: Seq<bool>, e: nat, d: nat)
    requires
        sizes_positive(size),
        dims.len() == size.len(),
        e <= d,
    ensures
        span_from(size, dims, d) <= span_from(size, dims, e),
    decreases d - e,
{
    if e < d && e < size.len() {
        lemma_span_monotone(size, dims, e + 1, d);
        lemma_span_positive(size, dims, e + 1);
        if dims[e as int] {
            let s = size[e as int] as int;
            let p = span_from(size, dims, e + 1);
            assert(p <= s * p) by (nonlinear_arith)
                requires
                    s >= 1,
                    p >= 1,
            ;
        }
    }
}

/// A position inside the grid has a rank below the span.
pub proof fn lemma_rank_bound(pos: Seq<usize>, size: Seq<usize>, dims: Seq<bool>, d: nat)
    requires
        in_bounds(pos, size),
        dims.len() == size.len(),
    ensures
        0 <= rank_from(pos, size, dims, d) < span_from(size, dims, d),
    decreases size.len() - d,
{
    if d < size.len() {
        lemma_rank_bound(pos, size, dims, d + 1);
        if dims[d as int] {
            let s = size[d as int] as int;
            let x = pos[d as int] as int;
            let r = rank_from(pos, size, dims, d + 1);
            let p = span_from(size, dims, d + 1);
            assert(x < s);
            assert(0 <= x + s * r < s * p) by (nonlinear_arith)
                requires
                    0 <= x < s,
                    0 <= r < p,
            ;
        }
    }
}

/// Positions that agree on dimensions `d..` have the same rank there.
pub proof fn lemma_rank_agree(p: Seq<usize>, q: Seq<usize>, size: Seq<usize>, dims: Seq<bool>, d: nat)
    requires
        p.len() == size.len(),
        q.len() == size.len(),
        forall|e: int| d <= e < size.len() ==> #[trigger] p[e] == q[e],
    ensures
        rank_from(p, size, dims, d) == rank_from(q, size, dims, d),
    decreases size.len() - d,
{
    if d < size.len() {
        lemma_rank_agree(p, q, size, dims, d + 1);
    }
}

/// Two positions inside the grid that agree on the disabled dimensions and
/// have the same rank agree everywhere from `d` on.
pub proof fn lemma_rank_injective(p: Seq<usize>, q: Seq<usize>, size: Seq<usize>, dims: Seq<bool>, d: nat)
    requires
        in_bounds(p, size),
        in_bounds(q, size),
        dims.len() == size.len(),
        same_fixed(p, q, dims),
        rank_from(p, size, dims, d) == rank_from(q, size, dims, d),
    ensures
        forall|e: int| d <= e < size.len() ==> #[trigger] p[e] == q[e],
    decreases size.len() - d,
{
    if d < size.len() {
        if dims[d as int] {
            let s = size[d as int] as int;
            let a = p[d as int] as int;
            let b = q[d as int] as int;
            let x = rank_from(p, size, dims, d + 1);
            let y = rank_from(q, size, dims, d + 1);
            lemma_rank_bound(p, size, dims, d + 1);
            lemma_rank_bound(q, size, dims, d + 1);
            assert(a < s && b < s);
            assert(a == b && x == y) by (nonlinear_arith)
                requires
                    0 <= a < s,
                    0 <= b < s,
                    x >= 0,
                    y >= 0,
                    a + s * x == b + s * y,
            ;
        }
        lemma_rank_injective(p, q, size, dims, d + 1);
    }
}

/// Flat indices of distinct positions differ.
pub proof fn lemma_cell_index_injective(p: Seq<usize>, q: Seq<usize>, size: Seq<usize>)
    requires
        in_bounds(p, size),
        in_bounds(q, size),
        cell_index(p, size) == cell_index(q, size),
    ensures
        p == q,
{
    lemma_rank_injective(p, q, size, all_dims(size.len()), 0);
    assert(p =~= q);
}

/// A position inside the grid has a flat index below the number of cells.
pub proof fn lemma_cell_index_bound(p: Seq<usize>, size: Seq<usize>)
    requires
        in_bounds(p, size),
    ensures
        0 <= cell_index(p, size) < cell_count(size),
{
    lemma_rank_bound(p, size, all_dims(size.len()), 0);
}

/// One odometer step: the enabled dimensions below `k` wrap from their last
/// value to zero and dimension `k` moves up by one.
proof fn lemma_rank_step(
    p: Seq<usize>,
    q: Seq<usize>,
    size: Seq<usize>,
    dims: Seq<bool>,
    k: int,
    j: nat,
)
    requires
        p.len() == size.len(),
        q.len() == size.len(),
        dims.len() == size.len(),
        0 <= j <= k < size.len(),
        dims[k],
        q[k] == p[k] + 1,
        forall|e: int| 0 <= e < k && dims[e] ==> (#[trigger] p[e]) == size[e] - 1 && q[e] == 0,
        forall|e: int| 0 <= e < k && !dims[e] ==> #[trigger] q[e] == p[e],
        forall|e: int| k < e < size.len() ==> #[trigger] q[e] == p[e],
    ensures
        rank_from(q, size, dims, j) == rank_from(p, size, dims, j) + 1,
    decreases k - j,
{
    if j == k {
        lemma_rank_agree(p, q, size, dims, (k + 1) as nat);
    } else {
        lemma_rank_step(p, q, size, dims, k, j + 1);
        if dims[j as int] {
            let s = size[j as int] as int;
            let r = rank_from(p, size, dims, j + 1);
            assert(0 <= j < k);
            assert(dims[j as int]);
            assert(p[j as int] == size[j as int] - 1);
            assert(q[j as int] == 0);
            assert(s * (r + 1) == (s - 1 + s * r) + 1) by (nonlinear_arith);
        }
    }
}

/// With every enabled dimension at its last value the rank is the last one.
proof fn lemma_rank_last(p: Seq<usize>, size: Seq<usize>, dims: Seq<bool>, d: nat)
    requires
        p.len() == size.len(),
        dims.len() == size.len(),
        forall|e: int| d <= e < size.len() && dims[e] ==> #[trigger] p[e] == size[e] - 1,
    ensures
        rank_from(p, size, dims, d) == span_from(size, dims, d) - 1,
    decreases size.len() - d,
{
    if d < size.len() {
        lemma_rank_last(p, size, dims, d + 1);
        if dims[d as int] {
            let s = size[d as int] as int;
            let m = span_from(size, dims, d + 1);
            assert((s - 1) + s * (m - 1) == s * m - 1) by (nonlinear_arith);
        }
    }
}

/// The position with every coordinate zero has rank zero.
pub proof fn lemma_rank_zero(pos: Seq<usize>, size: Seq<usize>, dims: Seq<bool>, d: nat)
    requires
        pos.len() == size.len(),
        forall|e: int| 0 <= e < size.len() ==> #[trigger] pos[e] == 0,
    ensures
        rank_from(pos, size, dims, d) == 0,
    decreases size.len() - d,
{
    if d < size.len() {
        lemma_rank_zero(pos, size, dims, d + 1);
    }
}

/// A position whose enabled coordinates are zero has rank zero.
pub proof fn lemma_rank_zero_enabled(pos: Seq<usize>, size: Seq<usize>, dims: Seq<bool>, d: nat)
    requires
        pos.len() == size.len(),
        dims.len() == size.len(),
        forall|e: int| 0 <= e < size.len() && dims[e] ==> #[trigger] pos[e] == 0,
    ensures
        rank_from(pos, size, dims, d) == 0,
    decreases size.len() - d,
{
    if d < size.len() {
        lemma_rank_zero_enabled(pos, size, dims, d + 1);
    }
}

/// Flat index of a position inside the grid.
pub fn cell_index_of<const N: usize>(pos: &[usize; N], size: &[usize; N]) -> (r: usize)
    requires
        in_bounds(pos@, size@),
        cell_count(size@) <= usize::MAX,
    ensures
        r == cell_index(pos@, size@),
{
    let ghost dims = all_dims(N as nat);
    let mut r: usize = 0;
    let mut d: usize = N;
    while d > 0
        invariant
            d <= N,
            in_bounds(pos@, size@),
            cell_count(size@) <= usize::MAX,
            dims == all_dims(size@.len()),
            r == rank_from(pos@, size@, dims, d as nat),
        decreases d,
    {
        d -= 1;
        proof {
            lemma_rank_bound(pos@, size@, dims, d as nat);
            lemma_rank_bound(pos@, size@, dims, (d + 1) as nat);
            assert(sizes_positive(size@)) by {
                assert forall|e: int| 0 <= e < size@.len() implies #[trigger] size@[e] >= 1 by {
                    assert(pos@[e] < size@[e]);
                }
            }
            lemma_span_monotone(size@, dims, 0, d as nat);
            let s = size@[d as int] as int;
            let x = r as int;
            let p = span_from(size@, dims, (d + 1) as nat);
            assert(s * x <= s * p) by (nonlinear_arith)
                requires
                    s >= 0,
                    0 <= x < p,
            ;
        }
        r = pos[d] + size[d] * r;
    }
    r
}

/// Advances `pos` by one step over the enabled dimensions, carrying into the
/// next enabled dimension when one wraps; false when `pos` was the last.
pub fn next_pos<const N: usize>(pos: &mut [usize; N], dims: &[bool; N], size: &[usize; N]) -> (r: bool)
    requires
        in_bounds(old(pos)@, size@),
    ensures
        in_bounds(final(pos)@, size@),
        same_fixed(old(pos)@, final(pos)@, dims@),
        r ==> rank_from(final(pos)@, size@, dims@, 0) == rank_from(old(pos)@, size@, dims@, 0) + 1,
        !r ==> rank_from(old(pos)@, size@, dims@, 0) == span_from(size@, dims@, 0) - 1,
        !r ==> forall|e: int| 0 <= e < N && dims@[e] ==> #[trigger] final(pos)@[e] == 0,
{
    let ghost start = pos@;
    let ghost mut moved: int = 0;
    let mut result = false;
    let mut d: usize = 0;
    while d < N && !result
        invariant
            d <= N,
            start.len() == N,
            pos@.len() == N,
            in_bounds(start, size@),
            in_bounds(pos@, size@),
            !result ==> forall|e: int| 0 <= e < d && dims@[e] ==> (#[trigger] start[e]) == size@[e] - 1 && pos@[e] == 0,
            result ==> 0 <= moved < d && dims@[moved] && pos@[moved] == start[moved] + 1,
            result ==> forall|e: int| 0 <= e < moved && dims@[e] ==> (#[trigger] start[e]) == size@[e] - 1 && pos@[e] == 0,
            forall|e: int| 0 <= e < d && !dims@[e] ==> #[trigger] pos@[e] == start[e],
            result ==> forall|e: int| moved < e < N ==> #[trigger] pos@[e] == start[e],
            forall|e: int| d <= e < N ==> #[trigger] pos@[e] == start[e],
        decreases N - d,
    {
        let ghost before = pos@;
        if dims[d] {
            if pos[d] + 1 < size[d] {
                pos[d] = pos[d] + 1;
                result = true;
                proof {
                    moved = d as int;
                    assert(pos@ =~= before.update(d as int, (before[d as int] + 1) as usize));
                    assert forall|e: int| 0 <= e < moved && dims@[e] implies (#[trigger] start[e])
                        == size@[e] - 1 && pos@[e] == 0 by {
                        assert(before[e] == pos@[e]);
                    }
                }
            } else {
                pos[d] = 0;
                assert(pos@ =~= before.update(d as int, 0usize));
            }
        }
        d += 1;
    }
    proof {
        if result {
            lemma_rank_step(start, pos@, size@, dims@, moved, 0);
        } else {
            lemma_rank_last(start, size@, dims@, 0);
            assert forall|e: int| 0 <= e < N && dims@[e] implies #[trigger] pos@[e] == 0 by {
                assert(start[e] == size@[e] - 1);
            }
        }
    }
    result
}

} // verus!
