//! The samples of a surface and the order in which they are emitted.
//!
//! A surface of order `n` has `n * n` branches, numbered by a pair
//! `(k1, k2)`. Each branch is sampled on a square grid with
//! `subdivisions + 1` points along each axis. The samples are emitted branch
//! after branch, `k1` ascending, then `k2`, then the grid index `i` of the
//! first axis, then the index `j` of the second.

use vstd::prelude::*;

verus! {

/// One sample: the branch it lies on and its place in the grid of that
/// branch.
#[derive(Clone, Copy, Debug, PartialEq, Eq, Structural)]
pub struct GridSample {
    /// First branch index, below the order of the surface.
    pub k1: u32,
    /// Second branch index, below the order of the surface.
    pub k2: u32,
    /// Grid index along the first axis, at most the number of subdivisions.
    pub i: u32,
    /// Grid index along the second axis, at most the number of subdivisions.
    pub j: u32,
}

/// The number of grid points along one axis.
pub open spec fn grid_side(subdivisions: u32) -> int {
    subdivisions + 1
}

/// The number of samples on one branch.
pub open spec fn branch_points(subdivisions: u32) -> int {
    grid_side(subdivisions) * grid_side(subdivisions)
}

/// The number of samples on the whole surface.
pub open spec fn surface_points(n: u32, subdivisions: u32) -> int {
    (n * n) * branch_points(subdivisions)
}

/// The number of coordinates that the samples of the surface give: three
/// for each.
pub open spec fn buffer_len(n: u32, subdivisions: u32) -> int {
    3 * surface_points(n, subdivisions)
}

/// By how many steps the grid divides each axis: the number of
/// subdivisions, and one where that is zero, so that the single sample of
/// such a grid lies at step zero of one.
pub open spec fn grid_steps(subdivisions: u32) -> int {
    if subdivisions == 0 {
        1
    } else {
        subdivisions as int
    }
}

/// The sample at position `p` of the branch `(k1, k2)`.
pub open spec fn branch_sample(k1: u32, k2: u32, subdivisions: u32, p: int) -> GridSample {
    GridSample {
        k1,
        k2,
        i: (p / grid_side(subdivisions)) as u32,
        j: (p % grid_side(subdivisions)) as u32,
    }
}

/// The samples of the branch `(k1, k2)`, in the order of emission.
pub open spec fn branch_samples(k1: u32, k2: u32, subdivisions: u32) -> Seq<GridSample> {
    Seq::new(
        branch_points(subdivisions) as nat,
        |p: int| branch_sample(k1, k2, subdivisions, p),
    )
}

/// The sample at position `p` of the surface.
pub open spec fn surface_sample(n: u32, subdivisions: u32, p: int) -> GridSample {
    let branch = p / branch_points(subdivisions);
    branch_sample(
        (branch / (n as int)) as u32,
        (branch % (n as int)) as u32,
        subdivisions,
        p % branch_points(subdivisions),
    )
}

/// The samples of the surface, in the order of emission.
pub open spec fn surface_samples(n: u32, subdivisions: u32) -> Seq<GridSample> {
    Seq::new(
        surface_points(n, subdivisions) as nat,
        |p: int| surface_sample(n, subdivisions, p),
    )
}

/// The position at which a sample is emitted.
pub open spec fn sample_rank(n: u32, subdivisions: u32, sample: GridSample) -> int {
    ((sample.k1 * n + sample.k2) * grid_side(subdivisions) + sample.i) * grid_side(subdivisions)
        + sample.j
}

/// Quotient and remainder of `q * d + r` by `d`.
proof fn lemma_position(q: int, r: int, d: int)
    requires
        d > 0,
        0 <= r < d,
    ensures
        (q * d + r) / d == q,
        (q * d + r) % d == r,
{
    vstd::arithmetic::div_mod::lemma_fundamental_div_mod_converse(q * d + r, d, q, r);
}

/// A branch whose samples can be counted in a `usize` has fewer than 2^32
/// grid points along each axis.
proof fn lemma_side_fits(subdivisions: u32)
    requires
        branch_points(subdivisions) <= usize::MAX,
    ensures
        subdivisions < u32::MAX,
{
    if subdivisions == u32::MAX {
        assert(grid_side(subdivisions) * grid_side(subdivisions) == 0x1_0000_0000_0000_0000)
            by (nonlinear_arith)
            requires
                grid_side(subdivisions) == 0x1_0000_0000,
        ;
    }
}

/// Tells by how many steps the grid divides each axis.
pub fn step_count(subdivisions: u32) -> (steps: u32)
    ensures
        steps == grid_steps(subdivisions),
{
    if subdivisions == 0 {
        1
    } else {
        subdivisions
    }
}

/// Computes the number of coordinates of the surface, if a buffer of that
/// length can be addressed.
pub fn checked_buffer_len(n: u32, subdivisions: u32) -> (len: Option<usize>)
    ensures
        match len {
            Some(len) => len == buffer_len(n, subdivisions),
            None => buffer_len(n, subdivisions) > usize::MAX,
        },
{
    let side: u128 = subdivisions as u128 + 1;
    let order: u128 = n as u128;
    assert(side * side <= 0x1_0000_0000_0000_0000) by (nonlinear_arith)
        requires
            side <= 0x1_0000_0000,
    ;
    assert(order * order <= 0xffff_ffff_0000_0000) by (nonlinear_arith)
        requires
            order <= 0xffff_ffff,
    ;
    let per_branch: u128 = side * side;
    let branches: u128 = order * order;
    assert(branches * per_branch <= 0xffff_ffff_0000_0000_0000_0000_0000_0000)
        by (nonlinear_arith)
        requires
            branches <= 0xffff_ffff_0000_0000,
            per_branch <= 0x1_0000_0000_0000_0000,
    ;
    let points: u128 = branches * per_branch;
    assert(points == surface_points(n, subdivisions));
    let limit: u128 = (usize::MAX as u128) / 3;
    if points > limit {
        None
    } else {
        Some((3 * points) as usize)
    }
}

/// Lists the samples of the branch `(k1, k2)` in the order of emission.
pub fn generate_branch_mesh(k1: u32, k2: u32, subdivisions: u32) -> (mesh: Vec<GridSample>)
    requires
        branch_points(subdivisions) <= usize::MAX,
    ensures
        mesh@ == branch_samples(k1, k2, subdivisions),
{
    proof {
        lemma_side_fits(subdivisions);
    }
    let side: u32 = subdivisions + 1;
    let mut mesh: Vec<GridSample> = Vec::new();
    let mut i: u32 = 0;
    while i < side
        invariant
            side == grid_side(subdivisions),
            i <= side,
            mesh@.len() == i * side,
            forall|p: int|
                0 <= p < mesh@.len() ==> mesh@[p] == branch_sample(k1, k2, subdivisions, p),
        decreases side - i,
    {
        let mut j: u32 = 0;
        while j < side
            invariant
                side == grid_side(subdivisions),
                i < side,
                j <= side,
                mesh@.len() == i * side + j,
                forall|p: int|
                    0 <= p < mesh@.len() ==> mesh@[p] == branch_sample(k1, k2, subdivisions, p),
            decreases side - j,
        {
            proof {
                lemma_position(i as int, j as int, side as int);
            }
            mesh.push(GridSample { k1, k2, i, j });
            j = j + 1;
        }
        assert(i * side + side == (i + 1) * side) by (nonlinear_arith);
        i = i + 1;
    }
    assert(mesh@ =~= branch_samples(k1, k2, subdivisions));
    mesh
}

/// Lists the samples of the whole surface in the order of emission: the
/// branches one after the other, `k1` ascending, then `k2`.
pub fn generate_all_meshes(n: u32, subdivisions: u32) -> (meshes: Vec<GridSample>)
    requires
        surface_points(n, subdivisions) <= usize::MAX,
    ensures
        meshes@ == surface_samples(n, subdivisions),
{
    let ghost per_branch = branch_points(subdivisions);
    let mut meshes: Vec<GridSample> = Vec::new();
    let mut k1: u32 = 0;
    assert((0 * n) * per_branch == 0) by (nonlinear_arith);
    while k1 < n
        invariant
            per_branch == branch_points(subdivisions),
            surface_points(n, subdivisions) <= usize::MAX,
            k1 <= n,
            meshes@.len() == (k1 * n) * per_branch,
            forall|p: int|
                0 <= p < meshes@.len() ==> meshes@[p] == surface_sample(n, subdivisions, p),
        decreases n - k1,
    {
        let mut k2: u32 = 0;
        assert((k1 * n + 0) * per_branch == (k1 * n) * per_branch);
        while k2 < n
            invariant
                per_branch == branch_points(subdivisions),
                surface_points(n, subdivisions) <= usize::MAX,
                k1 < n,
                k2 <= n,
                meshes@.len() == (k1 * n + k2) * per_branch,
                forall|p: int|
                    0 <= p < meshes@.len() ==> meshes@[p] == surface_sample(n, subdivisions, p),
            decreases n - k2,
        {
            proof {
                assert(per_branch <= (n * n) * per_branch) by (nonlinear_arith)
                    requires
                        n >= 1,
                        per_branch >= 0,
                ;
                assert(per_branch >= 1) by (nonlinear_arith)
                    requires
                        per_branch == grid_side(subdivisions) * grid_side(subdivisions),
                        grid_side(subdivisions) >= 1,
                ;
            }
            let mut mesh = generate_branch_mesh(k1, k2, subdivisions);
            let ghost before = meshes@;
            meshes.append(&mut mesh);
            proof {
                let branch = k1 * n + k2;
                lemma_position(k1 as int, k2 as int, n as int);
                assert((branch + 1) * per_branch == branch * per_branch + per_branch)
                    by (nonlinear_arith);
                assert forall|p: int| before.len() <= p < meshes@.len() implies meshes@[p]
                    == surface_sample(n, subdivisions, p) by {
                    lemma_position(branch, p - before.len(), per_branch);
                }
            }
            k2 = k2 + 1;
        }
        assert((k1 * n + n) * per_branch == ((k1 + 1) * n) * per_branch) by (nonlinear_arith);
        k1 = k1 + 1;
    }
    assert(meshes@.len() == surface_points(n, subdivisions)) by (nonlinear_arith)
        requires
            k1 == n,
            meshes@.len() == (k1 * n) * per_branch,
            surface_points(n, subdivisions) == (n * n) * per_branch,
    ;
    assert(meshes@ =~= surface_samples(n, subdivisions));
    meshes
}

/// Whether `a` comes before `b` when samples are ordered by `k1`, then by
/// `k2`, then by `i`, then by `j`.
pub open spec fn emitted_before(a: GridSample, b: GridSample) -> bool {
    a.k1 < b.k1 || (a.k1 == b.k1 && (a.k2 < b.k2 || (a.k2 == b.k2 && (a.i < b.i || (a.i == b.i
        && a.j < b.j)))))
}

/// Quotient and remainder of a position below `count * d`.
proof fn lemma_split_position(p: int, d: int, count: int)
    requires
        d > 0,
        0 <= p < count * d,
    ensures
        0 <= p / d < count,
        0 <= p % d < d,
        p == (p / d) * d + p % d,
{
    vstd::arithmetic::div_mod::lemma_fundamental_div_mod(p, d);
    vstd::arithmetic::div_mod::lemma_mod_pos_bound(p, d);
    vstd::arithmetic::div_mod::lemma_div_pos_is_pos(p, d);
    assert(count * d == d * count) by (nonlinear_arith);
    vstd::arithmetic::div_mod::lemma_multiply_divide_lt(p, d, count);
    assert(d * (p / d) == (p / d) * d) by (nonlinear_arith);
}

/// A number with a smaller leading digit is smaller, whatever the digits
/// that follow.
proof fn lemma_digit_order(high_a: int, low_a: int, high_b: int, low_b: int, base: int)
    by (nonlinear_arith)
    requires
        0 <= low_a < base,
        0 <= low_b,
        high_a < high_b,
    ensures
        high_a * base + low_a < high_b * base + low_b,
{
}

/// Every sample of the surface lies on one of its branches and on the grid,
/// and the place of a sample in the order of emission can be told from the
/// sample alone.
pub proof fn lemma_sample_rank(n: u32, subdivisions: u32, p: int)
    requires
        0 <= p < surface_points(n, subdivisions),
    ensures
        surface_sample(n, subdivisions, p).k1 < n,
        surface_sample(n, subdivisions, p).k2 < n,
        surface_sample(n, subdivisions, p).i <= subdivisions,
        surface_sample(n, subdivisions, p).j <= subdivisions,
        sample_rank(n, subdivisions, surface_sample(n, subdivisions, p)) == p,
{
    let side = grid_side(subdivisions);
    let per_branch = branch_points(subdivisions);
    assert(per_branch >= 1) by (nonlinear_arith)
        requires
            per_branch == side * side,
            side >= 1,
    ;
    lemma_split_position(p, per_branch, n * n);
    let branch = p / per_branch;
    let rest = p % per_branch;
    assert(n > 0) by (nonlinear_arith)
        requires
            0 <= branch < n * n,
    ;
    lemma_split_position(branch, n as int, n as int);
    lemma_split_position(rest, side, side);
    let k1 = branch / (n as int);
    let k2 = branch % (n as int);
    let i = rest / side;
    let j = rest % side;
    assert(((k1 * n + k2) * side + i) * side + j == p) by (nonlinear_arith)
        requires
            branch == k1 * n + k2,
            rest == i * side + j,
            p == branch * (side * side) + rest,
    ;
}

/// Among samples on the branches and on the grid, the one that comes first
/// by `k1`, `k2`, `i`, `j` has the smaller rank.
proof fn lemma_rank_grows(n: u32, subdivisions: u32, a: GridSample, b: GridSample)
    requires
        a.k2 < n,
        a.i <= subdivisions,
        a.j <= subdivisions,
        emitted_before(a, b),
    ensures
        sample_rank(n, subdivisions, a) < sample_rank(n, subdivisions, b),
{
    let side = grid_side(subdivisions);
    let branch_a = a.k1 * n + a.k2;
    let branch_b = b.k1 * n + b.k2;
    let row_a = branch_a * side + a.i;
    let row_b = branch_b * side + b.i;
    if a.k1 < b.k1 {
        lemma_digit_order(a.k1 as int, a.k2 as int, b.k1 as int, b.k2 as int, n as int);
        lemma_digit_order(branch_a, a.i as int, branch_b, b.i as int, side);
        lemma_digit_order(row_a, a.j as int, row_b, b.j as int, side);
    } else if a.k2 < b.k2 {
        lemma_digit_order(branch_a, a.i as int, branch_b, b.i as int, side);
        lemma_digit_order(row_a, a.j as int, row_b, b.j as int, side);
    } else if a.i < b.i {
        lemma_digit_order(row_a, a.j as int, row_b, b.j as int, side);
    }
}

/// The samples are emitted in ascending order of `k1`, then `k2`, then `i`,
/// then `j`: of two samples, the one at the earlier position comes first in
/// that order.
pub proof fn lemma_emission_order(n: u32, subdivisions: u32, p: int, q: int)
    requires
        0 <= p < q < surface_points(n, subdivisions),
    ensures
        emitted_before(surface_sample(n, subdivisions, p), surface_sample(n, subdivisions, q)),
{
    let a = surface_sample(n, subdivisions, p);
    let b = surface_sample(n, subdivisions, q);
    lemma_sample_rank(n, subdivisions, p);
    lemma_sample_rank(n, subdivisions, q);
    if !emitted_before(a, b) {
        if a != b {
            assert(emitted_before(b, a));
            lemma_rank_grows(n, subdivisions, b, a);
        }
    }
}

/// The samples of the surface are those of its branches, one branch after
/// the other: the branch `(k1, k2)` takes the places from
/// `(k1 * n + k2) * branch_points` on.
pub proof fn lemma_surface_is_branches(n: u32, subdivisions: u32, k1: u32, k2: u32)
    requires
        k1 < n,
        k2 < n,
    ensures
        (k1 * n + k2 + 1) * branch_points(subdivisions) <= surface_points(n, subdivisions),
        surface_samples(n, subdivisions).subrange(
            (k1 * n + k2) * branch_points(subdivisions),
            (k1 * n + k2 + 1) * branch_points(subdivisions),
        ) == branch_samples(k1, k2, subdivisions),
{
    let side = grid_side(subdivisions);
    let per_branch = branch_points(subdivisions);
    let branch = k1 * n + k2;
    assert(per_branch >= 1) by (nonlinear_arith)
        requires
            per_branch == side * side,
            side >= 1,
    ;
    assert(branch + 1 <= n * n) by (nonlinear_arith)
        requires
            branch == k1 * n + k2,
            0 <= k1 < n,
            0 <= k2 < n,
    ;
    assert((branch + 1) * per_branch <= (n * n) * per_branch) by (nonlinear_arith)
        requires
            branch + 1 <= n * n,
            per_branch >= 1,
    ;
    assert((branch + 1) * per_branch == branch * per_branch + per_branch) by (nonlinear_arith);
    lemma_position(k1 as int, k2 as int, n as int);
    let part = surface_samples(n, subdivisions).subrange(
        branch * per_branch,
        (branch + 1) * per_branch,
    );
    assert(0 <= branch * per_branch) by (nonlinear_arith)
        requires
            branch >= 0,
            per_branch >= 1,
    ;
    assert forall|r: int| 0 <= r < per_branch implies part[r] == branch_sample(
        k1,
        k2,
        subdivisions,
        r,
    ) by {
        lemma_position(branch, r, per_branch);
    }
    assert(part =~= branch_samples(k1, k2, subdivisions));
}

/// A surface of order one has a single branch, the branch `(0, 0)`.
pub proof fn lemma_order_one(subdivisions: u32)
    ensures
        surface_samples(1, subdivisions) == branch_samples(0, 0, subdivisions),
{
    lemma_surface_is_branches(1, subdivisions, 0, 0);
    let all = surface_samples(1, subdivisions);
    let per_branch = branch_points(subdivisions);
    assert((0 * 1 + 0) * per_branch == 0) by (nonlinear_arith);
    assert((0 * 1 + 0 + 1) * per_branch == per_branch) by (nonlinear_arith);
    assert((1 * 1) * per_branch == per_branch) by (nonlinear_arith);
    assert(per_branch >= 0) by (nonlinear_arith)
        requires
            per_branch == grid_side(subdivisions) * grid_side(subdivisions),
    ;
    assert(all.len() == per_branch);
    assert(all.subrange(0, all.len() as int) == all);
}

} // verus!
