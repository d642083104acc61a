use vstd::prelude::*;
use std::collections::VecDeque;
use crate::voxelize::GridVoxel;

verus! {

// ---------------------------------------------------------------------------
// Solid filling of a voxelized surface.
//
// The surface voxels are laid into a grid one cell wider than their bounding
// box on every side. Air is flooded in from the corner of the grid through
// the cells no voxel holds; every cell the air cannot reach is inside the
// model, and takes the material spreading from the surface voxels.
// ---------------------------------------------------------------------------

/// A cell of the padded grid, as three integers.
pub type Cell3 = (int, int, int);

/// The grid marker of cells the outside air reaches.
pub const AIR: u16 = 65535;

/// The largest padded grid that is filled; larger models keep their surface only.
pub const MAX_FILL_CELLS: u64 = 24_000_000;

pub open spec fn in_grid(d: Cell3, c: Cell3) -> bool {
    0 <= c.0 < d.0 && 0 <= c.1 < d.1 && 0 <= c.2 < d.2
}

/// The position of cell `c` in the flat grid: x fastest, then y, then z.
pub open spec fn lin(d: Cell3, c: Cell3) -> int {
    c.0 + c.1 * d.0 + c.2 * (d.0 * d.1)
}

pub open spec fn gval(g: Seq<u16>, d: Cell3, c: Cell3) -> u16 {
    g[lin(d, c)]
}

/// The neighbour of `c` in direction `dir`: -x, +x, -y, +y, -z, +z.
pub open spec fn step(c: Cell3, dir: int) -> Cell3 {
    if dir == 0 {
        (c.0 - 1, c.1, c.2)
    } else if dir == 1 {
        (c.0 + 1, c.1, c.2)
    } else if dir == 2 {
        (c.0, c.1 - 1, c.2)
    } else if dir == 3 {
        (c.0, c.1 + 1, c.2)
    } else if dir == 4 {
        (c.0, c.1, c.2 - 1)
    } else {
        (c.0, c.1, c.2 + 1)
    }
}

pub open spec fn opposite(dir: int) -> int {
    if dir % 2 == 0 {
        dir + 1
    } else {
        dir - 1
    }
}

/// The padded-grid cell of a voxel, for a bounding box with minimum corner `lo`.
pub open spec fn local_of(v: GridVoxel, lo: Cell3) -> Cell3 {
    (v.0 - lo.0 + 1, v.1 - lo.1 + 1, v.2 - lo.2 + 1)
}

/// Some surface voxel lies in cell `c`.
pub open spec fn occupied(s: Seq<GridVoxel>, lo: Cell3, c: Cell3) -> bool {
    exists|i: int| 0 <= i < s.len() && #[trigger] local_of(s[i], lo) == c
}

/// The material of the last surface voxel in cell `c`.
pub open spec fn last_mat(s: Seq<GridVoxel>, lo: Cell3, c: Cell3) -> u16
    decreases s.len(),
{
    if s.len() == 0 {
        0
    } else if local_of(s.last(), lo) == c {
        s.last().3
    } else {
        last_mat(s.drop_last(), lo, c)
    }
}

/// Air from the grid's corner reaches cell `c` within `k` steps through
/// cells no surface voxel holds.
pub open spec fn reach(s: Seq<GridVoxel>, lo: Cell3, d: Cell3, c: Cell3, k: nat) -> bool
    decreases k,
{
    if k == 0 {
        c == (0int, 0int, 0int)
    } else {
        let j = (k - 1) as nat;
        reach(s, lo, d, c, j) || (in_grid(d, c) && !occupied(s, lo, c) && (
            (in_grid(d, step(c, 0)) && reach(s, lo, d, step(c, 0), j))
            || (in_grid(d, step(c, 1)) && reach(s, lo, d, step(c, 1), j))
            || (in_grid(d, step(c, 2)) && reach(s, lo, d, step(c, 2), j))
            || (in_grid(d, step(c, 3)) && reach(s, lo, d, step(c, 3), j))
            || (in_grid(d, step(c, 4)) && reach(s, lo, d, step(c, 4), j))
            || (in_grid(d, step(c, 5)) && reach(s, lo, d, step(c, 5), j))))
    }
}

/// A new step of the air: from a reached neighbour into an open cell.
proof fn lemma_reach_from(s: Seq<GridVoxel>, lo: Cell3, d: Cell3, c: Cell3, dir: int, k: nat)
    requires
        in_grid(d, c),
        !occupied(s, lo, c),
        0 <= dir < 6,
        in_grid(d, step(c, dir)),
        reach(s, lo, d, step(c, dir), k),
    ensures
        reach(s, lo, d, c, k + 1),
{
    assert(((k + 1) - 1) as nat == k);
}

/// The last step of the air into a cell came from a reached neighbour.
proof fn lemma_reach_back(s: Seq<GridVoxel>, lo: Cell3, d: Cell3, c: Cell3, k: nat) -> (dir: int)
    requires
        k > 0,
        reach(s, lo, d, c, k),
        !reach(s, lo, d, c, (k - 1) as nat),
    ensures
        in_grid(d, c),
        !occupied(s, lo, c),
        0 <= dir < 6,
        in_grid(d, step(c, dir)),
        reach(s, lo, d, step(c, dir), (k - 1) as nat),
{
    let j = (k - 1) as nat;
    if in_grid(d, step(c, 0)) && reach(s, lo, d, step(c, 0), j) {
        0
    } else if in_grid(d, step(c, 1)) && reach(s, lo, d, step(c, 1), j) {
        1
    } else if in_grid(d, step(c, 2)) && reach(s, lo, d, step(c, 2), j) {
        2
    } else if in_grid(d, step(c, 3)) && reach(s, lo, d, step(c, 3), j) {
        3
    } else if in_grid(d, step(c, 4)) && reach(s, lo, d, step(c, 4), j) {
        4
    } else {
        5
    }
}

/// The outside air reaches cell `c`.
pub open spec fn exterior(s: Seq<GridVoxel>, lo: Cell3, d: Cell3, c: Cell3) -> bool {
    exists|k: nat| #[trigger] reach(s, lo, d, c, k)
}

/// No neighbour of `c` in the grid is still empty.
pub open spec fn settled(g: Seq<u16>, d: Cell3, c: Cell3) -> bool {
    forall|dir: int| 0 <= dir < 6 && in_grid(d, #[trigger] step(c, dir)) ==> gval(g, d, step(c, dir)) != 0
}

/// Material ids a surface voxel may carry: neither empty nor the air marker.
pub open spec fn mat_ok(m: u16) -> bool {
    1 <= m <= 0xfffe
}

/// Some surface voxel carries material `m`.
pub open spec fn sample_mat(s: Seq<GridVoxel>, m: u16) -> bool {
    exists|i: int| 0 <= i < s.len() && #[trigger] s[i].3 == m
}

pub open spec fn cell_of_entry(e: (usize, usize, usize)) -> Cell3 {
    (e.0 as int, e.1 as int, e.2 as int)
}

pub open spec fn queued(q: Seq<(usize, usize, usize)>, c: Cell3) -> bool {
    exists|j: int| 0 <= j < q.len() && #[trigger] cell_of_entry(q[j]) == c
}

pub open spec fn cell_of_color(e: (usize, usize, usize, u16)) -> Cell3 {
    (e.0 as int, e.1 as int, e.2 as int)
}

pub open spec fn color_queued(q: Seq<(usize, usize, usize, u16)>, c: Cell3) -> bool {
    exists|j: int| 0 <= j < q.len() && #[trigger] cell_of_color(q[j]) == c
}

// ---------------------------------------------------------------------------
// Index arithmetic.
// ---------------------------------------------------------------------------

proof fn lemma_lin_bounds(d: Cell3, c: Cell3)
    requires
        in_grid(d, c),
    ensures
        0 <= lin(d, c) < d.0 * d.1 * d.2,
        lin(d, c) == c.0 + d.0 * (c.1 + d.1 * c.2),
        0 <= c.1 * d.0,
        0 <= c.2 * (d.0 * d.1),
        0 <= d.0 * d.1 <= d.0 * d.1 * d.2,
{
    assert(0 <= lin(d, c) < d.0 * d.1 * d.2) by (nonlinear_arith)
        requires
            0 <= c.0 < d.0,
            0 <= c.1 < d.1,
            0 <= c.2 < d.2,
    ;
    assert(0 <= c.1 * d.0 && 0 <= c.2 * (d.0 * d.1) && 0 <= d.0 * d.1 <= d.0 * d.1 * d.2) by (nonlinear_arith)
        requires
            0 <= c.0 < d.0,
            0 <= c.1 < d.1,
            0 <= c.2 < d.2,
    ;
    assert(lin(d, c) == c.0 + d.0 * (c.1 + d.1 * c.2)) by (nonlinear_arith);
}

proof fn lemma_lin_inj(d: Cell3, a: Cell3, b: Cell3)
    requires
        in_grid(d, a),
        in_grid(d, b),
        lin(d, a) == lin(d, b),
    ensures
        a == b,
{
    lemma_lin_bounds(d, a);
    lemma_lin_bounds(d, b);
    let ya = a.1 + d.1 * a.2;
    let yb = b.1 + d.1 * b.2;
    assert(a.0 == b.0 && ya == yb) by (nonlinear_arith)
        requires
            a.0 + d.0 * ya == b.0 + d.0 * yb,
            0 <= a.0 < d.0,
            0 <= b.0 < d.0,
    ;
    assert(a.1 == b.1 && a.2 == b.2) by (nonlinear_arith)
        requires
            a.1 + d.1 * a.2 == b.1 + d.1 * b.2,
            0 <= a.1 < d.1,
            0 <= b.1 < d.1,
    ;
}



// ---------------------------------------------------------------------------
// Flooding the outside air.
// ---------------------------------------------------------------------------

pub open spec fn dims_of(d0: usize, d1: usize, d2: usize) -> Cell3 {
    (d0 as int, d1 as int, d2 as int)
}

/// The grid holds the surface voxels, and air only where it may be.
pub open spec fn grid_base(g: Seq<u16>, s: Seq<GridVoxel>, lo: Cell3, d: Cell3) -> bool {
    &&& g.len() == d.0 * d.1 * d.2
    &&& d.0 >= 1 && d.1 >= 1 && d.2 >= 1
    &&& !occupied(s, lo, (0int, 0int, 0int))
    &&& forall|c: Cell3| in_grid(d, c) && occupied(s, lo, c) ==> mat_ok(#[trigger] last_mat(s, lo, c))
    &&& forall|c: Cell3| in_grid(d, c) && occupied(s, lo, c) ==> #[trigger] gval(g, d, c) == last_mat(s, lo, c)
}

/// The state of the air flood: open cells are empty or air, air cells are
/// reached from the corner, queued cells are air, air cells off the queue
/// (but the one being expanded) have no empty neighbour, and `marked` is
/// the set of air positions, as many as were popped and are queued.
pub open spec fn ext_inv(g: Seq<u16>, q: Seq<(usize, usize, usize)>, s: Seq<GridVoxel>, lo: Cell3, d: Cell3,
    cur: Cell3, active: bool, marked: Set<int>, popped: nat) -> bool {
    &&& grid_base(g, s, lo, d)
    &&& forall|c: Cell3| in_grid(d, c) && !occupied(s, lo, c) ==> #[trigger] gval(g, d, c) == 0 || gval(g, d, c) == AIR
    &&& forall|c: Cell3| in_grid(d, c) && #[trigger] gval(g, d, c) == AIR ==> exterior(s, lo, d, c)
    &&& forall|j: int| 0 <= j < q.len() ==> in_grid(d, cell_of_entry(#[trigger] q[j])) && gval(g, d, cell_of_entry(q[j])) == AIR
    &&& forall|c: Cell3| in_grid(d, c) && #[trigger] gval(g, d, c) == AIR && !queued(q, c) && !(active && c == cur)
        ==> settled(g, d, c)
    &&& forall|i: int| #[trigger] marked.contains(i) <==> 0 <= i < g.len() && g[i] == AIR
    &&& marked.finite()
    &&& marked.len() == popped + q.len()
}

/// Marks the empty cell `n` as air and queues it; answers whether it was empty.
fn visit_air(grid: &mut Vec<u16>, q: &mut VecDeque<(usize, usize, usize)>, idx: usize, n: (usize, usize, usize)) -> (pushed: bool)
    requires
        idx < old(grid)@.len(),
    ensures
        pushed == (old(grid)@[idx as int] == 0),
        final(grid)@ == if pushed { old(grid)@.update(idx as int, AIR) } else { old(grid)@ },
        final(q)@ == if pushed { old(q)@.push(n) } else { old(q)@ },
{
    if grid[idx] == 0 {
        grid.set(idx, AIR);
        q.push_back(n);
        true
    } else {
        false
    }
}

/// Visiting a neighbour of the cell being expanded keeps the flood's state.
proof fn lemma_ext_visit(g0: Seq<u16>, q0: Seq<(usize, usize, usize)>, g1: Seq<u16>, q1: Seq<(usize, usize, usize)>,
    s: Seq<GridVoxel>, lo: Cell3, d: Cell3, c: Cell3, dir: int, k: nat, n: (usize, usize, usize),
    marked: Set<int>, popped: nat, keep: Cell3)
    requires
        in_grid(d, keep),
        gval(g0, d, keep) == AIR,
        ext_inv(g0, q0, s, lo, d, c, true, marked, popped),
        in_grid(d, c),
        gval(g0, d, c) == AIR,
        reach(s, lo, d, c, k),
        0 <= dir < 6,
        cell_of_entry(n) == step(c, dir),
        in_grid(d, step(c, dir)),
        g1 == if g0[lin(d, step(c, dir))] == 0 { g0.update(lin(d, step(c, dir)), AIR) } else { g0 },
        q1 == if g0[lin(d, step(c, dir))] == 0 { q0.push(n) } else { q0 },
    ensures
        ext_inv(g1, q1, s, lo, d, c, true,
            if g0[lin(d, step(c, dir))] == 0 { marked.insert(lin(d, step(c, dir))) } else { marked }, popped),
        gval(g1, d, step(c, dir)) != 0,
        forall|x: Cell3| in_grid(d, x) && gval(g0, d, x) != 0 ==> #[trigger] gval(g1, d, x) == gval(g0, d, x),
        gval(g1, d, c) == AIR,
        gval(g1, d, keep) == AIR,
{
    let nb = step(c, dir);
    let li = lin(d, nb);
    lemma_lin_bounds(d, nb);
    if g0[li] == 0 {
        let marked1 = marked.insert(li);
        assert forall|x: Cell3| in_grid(d, x) implies #[trigger] gval(g1, d, x) == if x == nb { AIR } else { gval(g0, d, x) } by {
            lemma_lin_bounds(d, x);
            if x != nb && lin(d, x) == li {
                lemma_lin_inj(d, x, nb);
            }
        }
        assert(gval(g0, d, nb) == g0[li]);
        assert(!occupied(s, lo, nb)) by {
            if occupied(s, lo, nb) {
                assert(mat_ok(last_mat(s, lo, nb)));
                assert(gval(g0, d, nb) == last_mat(s, lo, nb));
            }
        }
        assert(step(nb, opposite(dir)) == c);
        lemma_reach_from(s, lo, d, nb, opposite(dir), k);
        assert(exterior(s, lo, d, nb));
        assert forall|j: int| 0 <= j < q1.len() implies in_grid(d, cell_of_entry(#[trigger] q1[j]))
            && gval(g1, d, cell_of_entry(q1[j])) == AIR by {
            if j < q0.len() {
                assert(q1[j] == q0[j]);
            }
        }
        assert forall|x: Cell3| in_grid(d, x) && #[trigger] gval(g1, d, x) == AIR && !queued(q1, x) && !(x == c)
            implies settled(g1, d, x) by {
            if x == nb {
                assert(cell_of_entry(q1[q0.len() as int]) == nb);
            } else {
                if queued(q0, x) {
                    let j = choose|j: int| 0 <= j < q0.len() && #[trigger] cell_of_entry(q0[j]) == x;
                    assert(cell_of_entry(q1[j]) == x);
                }
                assert(settled(g0, d, x));
                assert forall|e: int| 0 <= e < 6 && in_grid(d, #[trigger] step(x, e)) implies gval(g1, d, step(x, e)) != 0 by {
                    assert(gval(g0, d, step(x, e)) != 0);
                }
            }
        }
        assert forall|i: int| #[trigger] marked1.contains(i) <==> 0 <= i < g1.len() && g1[i] == AIR by {}
        assert(!marked.contains(li));
    } else {
        assert(gval(g0, d, nb) != 0);
    }
}

/// Once every air cell is settled, all the cells the air can reach are air.
proof fn lemma_ext_complete(g: Seq<u16>, s: Seq<GridVoxel>, lo: Cell3, d: Cell3, c: Cell3, k: nat)
    requires
        grid_base(g, s, lo, d),
        forall|x: Cell3| in_grid(d, x) && !occupied(s, lo, x) ==> #[trigger] gval(g, d, x) == 0 || gval(g, d, x) == AIR,
        forall|x: Cell3| in_grid(d, x) && #[trigger] gval(g, d, x) == AIR ==> settled(g, d, x),
        gval(g, d, (0int, 0int, 0int)) == AIR,
        in_grid(d, c),
        reach(s, lo, d, c, k),
    ensures
        gval(g, d, c) == AIR,
    decreases k,
{
    if k > 0 {
        if reach(s, lo, d, c, (k - 1) as nat) {
            lemma_ext_complete(g, s, lo, d, c, (k - 1) as nat);
        } else {
            let dir = lemma_reach_back(s, lo, d, c, k);
            let nb = step(c, dir);
            lemma_ext_complete(g, s, lo, d, nb, (k - 1) as nat);
            assert(settled(g, d, nb));
            assert(step(nb, opposite(dir)) == c);
            assert(gval(g, d, step(nb, opposite(dir))) != 0);
        }
    }
}

/// Floods air from the grid's corner through the empty cells. Afterwards
/// an open cell is air exactly when the outside air reaches it, the other
/// open cells are empty, and no air cell has an empty neighbour.
fn flood_exterior(grid: &mut Vec<u16>, d0: usize, d1: usize, d2: usize, Ghost(s): Ghost<Seq<GridVoxel>>, Ghost(lo): Ghost<Cell3>)
    requires
        grid_base(old(grid)@, s, lo, dims_of(d0, d1, d2)),
        forall|c: Cell3| in_grid(dims_of(d0, d1, d2), c) && !occupied(s, lo, c)
            ==> #[trigger] gval(old(grid)@, dims_of(d0, d1, d2), c) == 0,
        d0 * d1 * d2 <= MAX_FILL_CELLS,
    ensures
        grid_base(final(grid)@, s, lo, dims_of(d0, d1, d2)),
        forall|c: Cell3| in_grid(dims_of(d0, d1, d2), c) && !occupied(s, lo, c) ==>
            (#[trigger] gval(final(grid)@, dims_of(d0, d1, d2), c) == AIR) == exterior(s, lo, dims_of(d0, d1, d2), c)
            && (gval(final(grid)@, dims_of(d0, d1, d2), c) == 0 || gval(final(grid)@, dims_of(d0, d1, d2), c) == AIR),
        forall|c: Cell3| in_grid(dims_of(d0, d1, d2), c) && #[trigger] gval(final(grid)@, dims_of(d0, d1, d2), c) == AIR
            ==> settled(final(grid)@, dims_of(d0, d1, d2), c),
        gval(final(grid)@, dims_of(d0, d1, d2), (0int, 0int, 0int)) == AIR,
{
    let ghost d = dims_of(d0, d1, d2);
    let ghost origin: Cell3 = (0int, 0int, 0int);
    let ghost g0 = grid@;
    proof {
        assert(lin(d, origin) == 0) by (nonlinear_arith)
            requires
                origin == (0int, 0int, 0int),
        ;
        lemma_lin_bounds(d, origin);
        assert(reach(s, lo, d, origin, 0));
    }
    grid.set(0, AIR);
    let mut q: VecDeque<(usize, usize, usize)> = VecDeque::new();
    q.push_back((0, 0, 0));
    let ghost mut marked: Set<int> = set![0int];
    let ghost mut popped: nat = 0;
    proof {
        let g = grid@;
        assert forall|x: Cell3| in_grid(d, x) implies #[trigger] gval(g, d, x) == if x == origin { AIR } else { gval(g0, d, x) } by {
            lemma_lin_bounds(d, x);
            if x != origin && lin(d, x) == 0 {
                lemma_lin_inj(d, x, origin);
            }
        }
        assert forall|x: Cell3| in_grid(d, x) && #[trigger] gval(g, d, x) == AIR implies exterior(s, lo, d, x) by {
            if x != origin {
                if occupied(s, lo, x) {
                    assert(mat_ok(last_mat(s, lo, x)));
                }
            }
            assert(reach(s, lo, d, origin, 0));
        }
        assert forall|x: Cell3| in_grid(d, x) && #[trigger] gval(g, d, x) == AIR && !queued(q@, x) && !(false && x == origin)
            implies settled(g, d, x) by {
            if x != origin {
                if occupied(s, lo, x) {
                    assert(mat_ok(last_mat(s, lo, x)));
                }
            } else {
                assert(cell_of_entry(q@[0]) == origin);
            }
        }
        assert forall|i: int| #[trigger] marked.contains(i) <==> 0 <= i < g.len() && g[i] == AIR by {
            if 0 <= i < g.len() && g[i] == AIR && i != 0 {
                assert(g[i] == g0[i]);
                let z = i / (d.0 * d.1);
                let r = i % (d.0 * d.1);
                let y = r / d.0;
                let x = r % d.0;
                assert(in_grid(d, (x, y, z)) && lin(d, (x, y, z)) == i) by (nonlinear_arith)
                    requires
                        0 <= i < d.0 * d.1 * d.2,
                        d.0 >= 1,
                        d.1 >= 1,
                        z == i / (d.0 * d.1),
                        r == i % (d.0 * d.1),
                        y == r / d.0,
                        x == r % d.0,
                ;
                assert(gval(g0, d, (x, y, z)) == AIR);
                if occupied(s, lo, (x, y, z)) {
                    assert(mat_ok(last_mat(s, lo, (x, y, z))));
                }
            }
        }
    }
    while q.len() > 0
        invariant
            ext_inv(grid@, q@, s, lo, d, origin, false, marked, popped),
            d == dims_of(d0, d1, d2),
            d0 * d1 * d2 <= MAX_FILL_CELLS,
            gval(grid@, d, origin) == AIR,
            in_grid(d, origin),
            popped <= grid@.len(),
        decreases grid@.len() - popped,
    {
        let ghost gb = grid@;
        let ghost qb = q@;
        let (cx, cy, cz) = q.pop_front().unwrap();
        let ghost c: Cell3 = (cx as int, cy as int, cz as int);
        proof {
            popped = popped + 1;
            assert(cell_of_entry(qb[0]) == c);
            assert forall|x: Cell3| in_grid(d, x) && #[trigger] gval(grid@, d, x) == AIR && !queued(q@, x) && !(x == c)
                implies settled(grid@, d, x) by {
                if queued(qb, x) {
                    let j = choose|j: int| 0 <= j < qb.len() && #[trigger] cell_of_entry(qb[j]) == x;
                    if j > 0 {
                        assert(cell_of_entry(q@[j - 1]) == x);
                    }
                }
            }
            assert forall|j: int| 0 <= j < q@.len() implies in_grid(d, cell_of_entry(#[trigger] q@[j]))
                && gval(grid@, d, cell_of_entry(q@[j])) == AIR by {
                assert(q@[j] == qb[j + 1]);
            }
        }
        proof {
            assert(marked.subset_of(vstd::set_lib::set_int_range(0, grid@.len() as int)));
            vstd::set_lib::lemma_int_range(0, grid@.len() as int);
            vstd::set_lib::lemma_len_subset(marked, vstd::set_lib::set_int_range(0, grid@.len() as int));
        }
        let ghost k = choose|k: nat| #[trigger] reach(s, lo, d, c, k);
        proof {
            lemma_lin_bounds(d, c);
        }
        let mut dir: usize = 0;
        while dir < 6
            invariant
                dir <= 6,
                ext_inv(grid@, q@, s, lo, d, c, true, marked, popped),
                d == dims_of(d0, d1, d2),
                d0 * d1 * d2 <= MAX_FILL_CELLS,
                in_grid(d, c),
                c == (cx as int, cy as int, cz as int),
                gval(grid@, d, c) == AIR,
                reach(s, lo, d, c, k),
                gval(grid@, d, origin) == AIR,
                in_grid(d, origin),
                popped <= grid@.len(),
                forall|e: int| 0 <= e < dir && in_grid(d, #[trigger] step(c, e)) ==> gval(grid@, d, step(c, e)) != 0,
            decreases 6 - dir,
        {
            let inside = match dir {
                0 => cx > 0,
                1 => cx + 1 < d0,
                2 => cy > 0,
                3 => cy + 1 < d1,
                4 => cz > 0,
                _ => cz + 1 < d2,
            };
            assert(inside == in_grid(d, step(c, dir as int)));
            if inside {
                let n: (usize, usize, usize) = match dir {
                    0 => (cx - 1, cy, cz),
                    1 => (cx + 1, cy, cz),
                    2 => (cx, cy - 1, cz),
                    3 => (cx, cy + 1, cz),
                    4 => (cx, cy, cz - 1),
                    _ => (cx, cy, cz + 1),
                };
                assert(cell_of_entry(n) == step(c, dir as int));
                proof {
                    lemma_lin_bounds(d, step(c, dir as int));
                }
                let idx = n.0 + n.1 * d0 + n.2 * (d0 * d1);
                let g_ = Ghost(grid@);
                let q_ = Ghost(q@);
                let pushed = visit_air(grid, &mut q, idx, n);
                proof {
                    lemma_ext_visit(g_@, q_@, grid@, q@, s, lo, d, c, dir as int, k, n, marked, popped, origin);
                    if pushed {
                        marked = marked.insert(lin(d, step(c, dir as int)));
                    }
                }
            }
            dir = dir + 1;
        }
        proof {
            assert(settled(grid@, d, c));
            assert(marked.subset_of(vstd::set_lib::set_int_range(0, grid@.len() as int)));
            vstd::set_lib::lemma_int_range(0, grid@.len() as int);
            vstd::set_lib::lemma_len_subset(marked, vstd::set_lib::set_int_range(0, grid@.len() as int));
        }
    }
    proof {
        let g = grid@;
        assert forall|c: Cell3| in_grid(d, c) && !occupied(s, lo, c) implies
            (#[trigger] gval(g, d, c) == AIR) == exterior(s, lo, d, c) by {
            if exterior(s, lo, d, c) {
                let k = choose|k: nat| #[trigger] reach(s, lo, d, c, k);
                lemma_ext_complete(g, s, lo, d, c, k);
            }
        }
    }
}


// ---------------------------------------------------------------------------
// Spreading the surface materials inwards.
// ---------------------------------------------------------------------------

/// The state of the colour flood over the grid `g1` the air flood left:
/// air is unchanged, cells only go from empty to a material, painted cells
/// carry a surface voxel's material, queued cells hold a material, painted
/// cells off the queue (but the one being expanded) and air cells have no
/// empty neighbour, and `marked` is the set of positions painted so far.
pub open spec fn col_inv(g: Seq<u16>, q: Seq<(usize, usize, usize, u16)>, s: Seq<GridVoxel>, lo: Cell3, d: Cell3,
    g1: Seq<u16>, cur: Cell3, active: bool, marked: Set<int>, popped: nat) -> bool {
    &&& grid_base(g, s, lo, d)
    &&& g1.len() == g.len()
    &&& forall|c: Cell3| in_grid(d, c) ==> (#[trigger] gval(g, d, c) == AIR) == (gval(g1, d, c) == AIR)
    &&& forall|c: Cell3| in_grid(d, c) && #[trigger] gval(g, d, c) == 0 ==> gval(g1, d, c) == 0
    &&& forall|c: Cell3| in_grid(d, c) && #[trigger] gval(g, d, c) != 0 && gval(g, d, c) != AIR && !occupied(s, lo, c)
        ==> sample_mat(s, gval(g, d, c))
    &&& forall|j: int| 0 <= j < q.len() ==> in_grid(d, cell_of_color(#[trigger] q[j]))
        && gval(g, d, cell_of_color(q[j])) != 0 && gval(g, d, cell_of_color(q[j])) != AIR
        && sample_mat(s, q[j].3) && mat_ok(q[j].3)
    &&& forall|c: Cell3| in_grid(d, c) && #[trigger] gval(g, d, c) != 0 && gval(g, d, c) != AIR
        && !color_queued(q, c) && !(active && c == cur) ==> settled(g, d, c)
    &&& forall|c: Cell3| in_grid(d, c) && #[trigger] gval(g, d, c) == AIR ==> settled(g, d, c)
    &&& forall|i: int| #[trigger] marked.contains(i) <==> 0 <= i < g.len() && g1[i] == 0 && g[i] != 0
    &&& marked.finite()
    &&& marked.len() + s.len() == popped + q.len()
}

/// Paints the empty cell `n` with `m` and queues it; answers whether it was empty.
fn visit_color(grid: &mut Vec<u16>, q: &mut VecDeque<(usize, usize, usize, u16)>, idx: usize,
    n: (usize, usize, usize, u16)) -> (pushed: bool)
    requires
        idx < old(grid)@.len(),
    ensures
        pushed == (old(grid)@[idx as int] == 0),
        final(grid)@ == if pushed { old(grid)@.update(idx as int, n.3) } else { old(grid)@ },
        final(q)@ == if pushed { old(q)@.push(n) } else { old(q)@ },
{
    if grid[idx] == 0 {
        grid.set(idx, n.3);
        q.push_back(n);
        true
    } else {
        false
    }
}

/// Visiting a neighbour of the cell being expanded keeps the colour flood's state.
proof fn lemma_col_visit(g0: Seq<u16>, q0: Seq<(usize, usize, usize, u16)>, g1: Seq<u16>, q1: Seq<(usize, usize, usize, u16)>,
    s: Seq<GridVoxel>, lo: Cell3, d: Cell3, ga: Seq<u16>, c: Cell3, m: u16, dir: int, n: (usize, usize, usize, u16),
    marked: Set<int>, popped: nat)
    requires
        col_inv(g0, q0, s, lo, d, ga, c, true, marked, popped),
        in_grid(d, c),
        gval(g0, d, c) != 0,
        gval(g0, d, c) != AIR,
        sample_mat(s, m),
        mat_ok(m),
        0 <= dir < 6,
        cell_of_color(n) == step(c, dir),
        n.3 == m,
        in_grid(d, step(c, dir)),
        g1 == if g0[lin(d, step(c, dir))] == 0 { g0.update(lin(d, step(c, dir)), m) } else { g0 },
        q1 == if g0[lin(d, step(c, dir))] == 0 { q0.push(n) } else { q0 },
    ensures
        col_inv(g1, q1, s, lo, d, ga, c, true,
            if g0[lin(d, step(c, dir))] == 0 { marked.insert(lin(d, step(c, dir))) } else { marked }, popped),
        gval(g1, d, step(c, dir)) != 0,
        forall|x: Cell3| in_grid(d, x) && gval(g0, d, x) != 0 ==> #[trigger] gval(g1, d, x) == gval(g0, d, x),
        gval(g1, d, c) == gval(g0, d, c),
{
    let nb = step(c, dir);
    let li = lin(d, nb);
    lemma_lin_bounds(d, nb);
    lemma_lin_bounds(d, c);
    if g0[li] == 0 {
        let marked1 = marked.insert(li);
        assert(gval(g0, d, nb) == g0[li]);
        assert forall|x: Cell3| in_grid(d, x) implies #[trigger] gval(g1, d, x) == if x == nb { m } else { gval(g0, d, x) } by {
            lemma_lin_bounds(d, x);
            if x != nb && lin(d, x) == li {
                lemma_lin_inj(d, x, nb);
            }
        }
        assert(!occupied(s, lo, nb)) by {
            if occupied(s, lo, nb) {
                assert(mat_ok(last_mat(s, lo, nb)));
                assert(gval(g0, d, nb) == last_mat(s, lo, nb));
            }
        }
        assert(gval(ga, d, nb) == 0);
        assert forall|j: int| 0 <= j < q1.len() implies in_grid(d, cell_of_color(#[trigger] q1[j]))
            && gval(g1, d, cell_of_color(q1[j])) != 0 && gval(g1, d, cell_of_color(q1[j])) != AIR
            && sample_mat(s, q1[j].3) && mat_ok(q1[j].3) by {
            if j < q0.len() {
                assert(q1[j] == q0[j]);
            }
        }
        assert forall|x: Cell3| in_grid(d, x) && #[trigger] gval(g1, d, x) != 0 && gval(g1, d, x) != AIR
            && !color_queued(q1, x) && !(x == c) implies settled(g1, d, x) by {
            if x == nb {
                assert(cell_of_color(q1[q0.len() as int]) == nb);
            } else {
                if color_queued(q0, x) {
                    let j = choose|j: int| 0 <= j < q0.len() && #[trigger] cell_of_color(q0[j]) == x;
                    assert(cell_of_color(q1[j]) == x);
                }
                assert(settled(g0, d, x));
                assert forall|e: int| 0 <= e < 6 && in_grid(d, #[trigger] step(x, e)) implies gval(g1, d, step(x, e)) != 0 by {
                    assert(gval(g0, d, step(x, e)) != 0);
                }
            }
        }
        assert forall|x: Cell3| in_grid(d, x) && #[trigger] gval(g1, d, x) == AIR implies settled(g1, d, x) by {
            assert(settled(g0, d, x));
            assert forall|e: int| 0 <= e < 6 && in_grid(d, #[trigger] step(x, e)) implies gval(g1, d, step(x, e)) != 0 by {
                assert(gval(g0, d, step(x, e)) != 0);
            }
        }
        assert forall|i: int| #[trigger] marked1.contains(i) <==> 0 <= i < g1.len() && ga[i] == 0 && g1[i] != 0 by {}
        assert(!marked.contains(li));
    } else {
        assert(gval(g0, d, nb) != 0);
    }
}

/// Cell `c` is a face neighbour of the cell of surface voxel `i`.
pub open spec fn touches_at(s: Seq<GridVoxel>, lo: Cell3, c: Cell3, i: int) -> bool {
    exists|dir: int| 0 <= dir < 6 && #[trigger] step(local_of(s[i], lo), dir) == c
}

/// Surface voxel `i` is the first in the list whose cell has `c` as a face neighbour.
pub open spec fn first_touch(s: Seq<GridVoxel>, lo: Cell3, c: Cell3, i: int) -> bool {
    &&& 0 <= i < s.len()
    &&& touches_at(s, lo, c, i)
    &&& forall|j: int| 0 <= j < i ==> !#[trigger] touches_at(s, lo, c, j)
}

/// A cell beside some surface voxel has exactly one first surface voxel beside it,
/// and it comes no later in the list than any other.
pub proof fn lemma_first_touch(s: Seq<GridVoxel>, lo: Cell3, c: Cell3, i: int)
    requires
        0 <= i < s.len(),
        touches_at(s, lo, c, i),
    ensures
        exists|k: int| 0 <= k <= i && #[trigger] first_touch(s, lo, c, k),
        forall|a: int, b: int| #[trigger] first_touch(s, lo, c, a) && #[trigger] first_touch(s, lo, c, b) ==> a == b,
    decreases i,
{
    if forall|j: int| 0 <= j < i ==> !#[trigger] touches_at(s, lo, c, j) {
        assert(first_touch(s, lo, c, i));
    } else {
        let j = choose|j: int| 0 <= j < i && #[trigger] touches_at(s, lo, c, j);
        lemma_first_touch(s, lo, c, j);
    }
    assert forall|a: int, b: int| #[trigger] first_touch(s, lo, c, a) && #[trigger] first_touch(s, lo, c, b) implies a == b by {
        if a < b {
            assert(touches_at(s, lo, c, a));
        } else if b < a {
            assert(touches_at(s, lo, c, b));
        }
    }
}

/// How many surface voxels have been expanded after `popped` pops.
pub open spec fn expanded(popped: int, n: int) -> int {
    if popped < n { popped } else { n }
}

/// The colour flood's order: the queue starts with the surface voxels not yet
/// popped, in list order and with their own materials; every neighbour of the
/// first `done` surface voxels is painted; and a painted inner cell next to
/// the surface carries the material of the first surface voxel beside it.
pub open spec fn near_inv(g: Seq<u16>, q: Seq<(usize, usize, usize, u16)>, s: Seq<GridVoxel>, lo: Cell3, d: Cell3,
    popped: int, done: int) -> bool {
    &&& 0 <= done <= s.len()
    &&& popped <= s.len() ==> q.len() >= s.len() - popped
        && forall|j: int| 0 <= j < s.len() - popped ==> cell_of_color(#[trigger] q[j]) == local_of(s[popped + j], lo)
            && q[j].3 == s[popped + j].3
    &&& forall|j: int, dir: int| 0 <= j < done && 0 <= dir < 6 && in_grid(d, #[trigger] step(local_of(s[j], lo), dir))
        ==> gval(g, d, step(local_of(s[j], lo), dir)) != 0
    &&& forall|c: Cell3, k: int| in_grid(d, c) && #[trigger] first_touch(s, lo, c, k) && !occupied(s, lo, c)
        && gval(g, d, c) != 0 && gval(g, d, c) != AIR ==> gval(g, d, c) == s[k].3
}

/// Visiting a neighbour of the cell being expanded keeps the colour flood's order.
proof fn lemma_near_visit(g0: Seq<u16>, q0: Seq<(usize, usize, usize, u16)>, g1: Seq<u16>, q1: Seq<(usize, usize, usize, u16)>,
    s: Seq<GridVoxel>, lo: Cell3, d: Cell3, c: Cell3, m: u16, dir: int, n: (usize, usize, usize, u16), popped: int)
    requires
        near_inv(g0, q0, s, lo, d, popped, expanded(popped - 1, s.len() as int)),
        popped >= 1,
        popped - 1 < s.len() ==> c == local_of(s[popped - 1], lo) && m == s[popped - 1].3,
        g0.len() == d.0 * d.1 * d.2,
        in_grid(d, c),
        0 <= dir < 6,
        cell_of_color(n) == step(c, dir),
        n.3 == m,
        in_grid(d, step(c, dir)),
        g1 == if g0[lin(d, step(c, dir))] == 0 { g0.update(lin(d, step(c, dir)), m) } else { g0 },
        q1 == if g0[lin(d, step(c, dir))] == 0 { q0.push(n) } else { q0 },
    ensures
        near_inv(g1, q1, s, lo, d, popped, expanded(popped - 1, s.len() as int)),
{
    let nb = step(c, dir);
    let li = lin(d, nb);
    let done = expanded(popped - 1, s.len() as int);
    lemma_lin_bounds(d, nb);
    if g0[li] == 0 {
        assert(gval(g0, d, nb) == 0);
        assert forall|x: Cell3| in_grid(d, x) implies #[trigger] gval(g1, d, x) == if x == nb { m } else { gval(g0, d, x) } by {
            lemma_lin_bounds(d, x);
            if x != nb && lin(d, x) == li {
                lemma_lin_inj(d, x, nb);
            }
        }
        assert forall|j: int, e: int| 0 <= j < done && 0 <= e < 6 && in_grid(d, #[trigger] step(local_of(s[j], lo), e))
            implies gval(g1, d, step(local_of(s[j], lo), e)) != 0 by {
            assert(gval(g0, d, step(local_of(s[j], lo), e)) != 0);
        }
        assert forall|x: Cell3, k: int| in_grid(d, x) && #[trigger] first_touch(s, lo, x, k) && !occupied(s, lo, x)
            && gval(g1, d, x) != 0 && gval(g1, d, x) != AIR implies gval(g1, d, x) == s[k].3 by {
            if x == nb {
                let e = choose|e: int| 0 <= e < 6 && #[trigger] step(local_of(s[k], lo), e) == x;
                if k < done {
                    assert(gval(g0, d, step(local_of(s[k], lo), e)) != 0);
                }
                assert(popped - 1 < s.len());
                let p = popped - 1;
                assert(step(local_of(s[p], lo), dir) == x);
                assert(touches_at(s, lo, x, p));
                if k > p {
                    assert(!touches_at(s, lo, x, p));
                }
                assert(k == p);
            } else {
                assert(gval(g1, d, x) == gval(g0, d, x));
            }
        }
        if popped <= s.len() {
            assert forall|j: int| 0 <= j < s.len() - popped implies cell_of_color(#[trigger] q1[j]) == local_of(s[popped + j], lo)
                && q1[j].3 == s[popped + j].3 by {
                assert(q1[j] == q0[j]);
            }
        }
    }
}

/// Walking from inner cell `c` by the face steps `dirs`, every cell on the
/// way is an inner cell of the grid holding material `m`, and the last one
/// lies beside a surface voxel of material `m`.
pub open spec fn grid_walk(g: Seq<u16>, s: Seq<GridVoxel>, lo: Cell3, d: Cell3, c: Cell3, m: u16, dirs: Seq<int>) -> bool
    decreases dirs.len(),
{
    &&& in_grid(d, c)
    &&& !occupied(s, lo, c)
    &&& gval(g, d, c) == m
    &&& if dirs.len() == 0 {
        exists|i: int| 0 <= i < s.len() && #[trigger] touches_at(s, lo, c, i) && s[i].3 == m
    } else {
        0 <= dirs[0] < 6 && grid_walk(g, s, lo, d, step(c, dirs[0]), m, dirs.drop_first())
    }
}

/// Painting empty cells keeps every walk through painted cells.
proof fn lemma_path_keep(g0: Seq<u16>, g1: Seq<u16>, s: Seq<GridVoxel>, lo: Cell3, d: Cell3, c: Cell3, m: u16, dirs: Seq<int>)
    requires
        grid_walk(g0, s, lo, d, c, m, dirs),
        m != 0,
        forall|x: Cell3| in_grid(d, x) && gval(g0, d, x) != 0 ==> #[trigger] gval(g1, d, x) == gval(g0, d, x),
    ensures
        grid_walk(g1, s, lo, d, c, m, dirs),
    decreases dirs.len(),
{
    assert(gval(g1, d, c) == m);
    if dirs.len() > 0 {
        lemma_path_keep(g0, g1, s, lo, d, step(c, dirs[0]), m, dirs.drop_first());
    }
}

/// Every painted inner cell is joined to a surface voxel of its material by
/// painted cells of that material, and the queued cells past the surface
/// voxels are inner cells holding the material they carry.
pub open spec fn path_inv(g: Seq<u16>, q: Seq<(usize, usize, usize, u16)>, s: Seq<GridVoxel>, lo: Cell3, d: Cell3,
    popped: int) -> bool {
    &&& forall|c: Cell3| in_grid(d, c) && !occupied(s, lo, c) && #[trigger] gval(g, d, c) != 0 && gval(g, d, c) != AIR
        ==> exists|dirs: Seq<int>| #[trigger] grid_walk(g, s, lo, d, c, gval(g, d, c), dirs)
    &&& forall|j: int| 0 <= j < q.len() && popped + j >= s.len() ==> !occupied(s, lo, cell_of_color(#[trigger] q[j]))
        && gval(g, d, cell_of_color(q[j])) == q[j].3
}

/// Visiting a neighbour of the cell being expanded keeps the paths of painted cells.
proof fn lemma_path_visit(g0: Seq<u16>, q0: Seq<(usize, usize, usize, u16)>, g1: Seq<u16>, q1: Seq<(usize, usize, usize, u16)>,
    s: Seq<GridVoxel>, lo: Cell3, d: Cell3, c: Cell3, m: u16, dir: int, n: (usize, usize, usize, u16), popped: int)
    requires
        path_inv(g0, q0, s, lo, d, popped),
        grid_base(g0, s, lo, d),
        popped >= 1,
        popped <= s.len() ==> q0.len() >= s.len() - popped,
        popped - 1 < s.len() ==> c == local_of(s[popped - 1], lo) && m == s[popped - 1].3,
        popped - 1 >= s.len() ==> !occupied(s, lo, c) && gval(g0, d, c) == m,
        forall|j: int| 0 <= j < q0.len() ==> in_grid(d, cell_of_color(#[trigger] q0[j])) && gval(g0, d, cell_of_color(q0[j])) != 0,
        mat_ok(m),
        in_grid(d, c),
        0 <= dir < 6,
        cell_of_color(n) == step(c, dir),
        n.3 == m,
        in_grid(d, step(c, dir)),
        g1 == if g0[lin(d, step(c, dir))] == 0 { g0.update(lin(d, step(c, dir)), m) } else { g0 },
        q1 == if g0[lin(d, step(c, dir))] == 0 { q0.push(n) } else { q0 },
    ensures
        path_inv(g1, q1, s, lo, d, popped),
{
    let nb = step(c, dir);
    let li = lin(d, nb);
    lemma_lin_bounds(d, nb);
    if g0[li] == 0 {
        assert(gval(g0, d, nb) == 0);
        assert forall|x: Cell3| in_grid(d, x) implies #[trigger] gval(g1, d, x) == if x == nb { m } else { gval(g0, d, x) } by {
            lemma_lin_bounds(d, x);
            if x != nb && lin(d, x) == li {
                lemma_lin_inj(d, x, nb);
            }
        }
        assert(!occupied(s, lo, nb)) by {
            if occupied(s, lo, nb) {
                assert(mat_ok(last_mat(s, lo, nb)));
            }
        }
        assert forall|x: Cell3| in_grid(d, x) && gval(g0, d, x) != 0 implies #[trigger] gval(g1, d, x) == gval(g0, d, x) by {}
        let od = opposite(dir);
        assert(step(nb, od) == c);
        if popped - 1 < s.len() {
            let p = popped - 1;
            assert(step(local_of(s[p], lo), dir) == nb);
            assert(touches_at(s, lo, nb, p));
            assert(grid_walk(g1, s, lo, d, nb, m, Seq::<int>::empty()));
        } else {
            let dirs = choose|dirs: Seq<int>| #[trigger] grid_walk(g0, s, lo, d, c, gval(g0, d, c), dirs);
            lemma_path_keep(g0, g1, s, lo, d, c, m, dirs);
            let dirs1 = seq![od] + dirs;
            assert(dirs1.drop_first() =~= dirs);
            assert(grid_walk(g1, s, lo, d, nb, m, dirs1));
        }
        assert forall|x: Cell3| in_grid(d, x) && !occupied(s, lo, x) && #[trigger] gval(g1, d, x) != 0 && gval(g1, d, x) != AIR
            implies exists|dirs: Seq<int>| #[trigger] grid_walk(g1, s, lo, d, x, gval(g1, d, x), dirs) by {
            if x != nb {
                let dirs = choose|dirs: Seq<int>| #[trigger] grid_walk(g0, s, lo, d, x, gval(g0, d, x), dirs);
                lemma_path_keep(g0, g1, s, lo, d, x, gval(g0, d, x), dirs);
            } else {
                if popped - 1 < s.len() {
                    assert(grid_walk(g1, s, lo, d, nb, m, Seq::<int>::empty()));
                } else {
                    let dirs = choose|dirs: Seq<int>| #[trigger] grid_walk(g0, s, lo, d, c, gval(g0, d, c), dirs);
                    assert(grid_walk(g1, s, lo, d, nb, m, seq![od] + dirs));
                }
            }
        }
        assert forall|j: int| 0 <= j < q1.len() && popped + j >= s.len() implies !occupied(s, lo, cell_of_color(#[trigger] q1[j]))
            && gval(g1, d, cell_of_color(q1[j])) == q1[j].3 by {
            if j < q0.len() {
                assert(q1[j] == q0[j]);
                assert(gval(g0, d, cell_of_color(q0[j])) != 0);
                assert(gval(g1, d, cell_of_color(q0[j])) == gval(g0, d, cell_of_color(q0[j])));
            } else {
                assert(q1[j] == n);
            }
        }
    }
}

/// Floods the materials of the queued surface cells into the empty cells
/// around them. Afterwards no air cell and no painted cell has an empty
/// neighbour, air is unchanged, and every painted cell carries the material
/// of some surface voxel.
fn flood_colors(grid: &mut Vec<u16>, q: &mut VecDeque<(usize, usize, usize, u16)>, d0: usize, d1: usize, d2: usize,
    Ghost(s): Ghost<Seq<GridVoxel>>, Ghost(lo): Ghost<Cell3>)
    requires
        col_inv(old(grid)@, old(q)@, s, lo, dims_of(d0, d1, d2), old(grid)@, (0int, 0int, 0int), false, Set::empty(), 0),
        near_inv(old(grid)@, old(q)@, s, lo, dims_of(d0, d1, d2), 0, 0),
        path_inv(old(grid)@, old(q)@, s, lo, dims_of(d0, d1, d2), 0),
        d0 * d1 * d2 <= MAX_FILL_CELLS,
    ensures
        forall|c: Cell3| in_grid(dims_of(d0, d1, d2), c) && !occupied(s, lo, c)
            && #[trigger] gval(final(grid)@, dims_of(d0, d1, d2), c) != 0 && gval(final(grid)@, dims_of(d0, d1, d2), c) != AIR
            ==> exists|dirs: Seq<int>| #[trigger] grid_walk(final(grid)@, s, lo, dims_of(d0, d1, d2), c,
                gval(final(grid)@, dims_of(d0, d1, d2), c), dirs),
        forall|c: Cell3, k: int| in_grid(dims_of(d0, d1, d2), c) && #[trigger] first_touch(s, lo, c, k) && !occupied(s, lo, c)
            && gval(final(grid)@, dims_of(d0, d1, d2), c) != 0 && gval(final(grid)@, dims_of(d0, d1, d2), c) != AIR
            ==> gval(final(grid)@, dims_of(d0, d1, d2), c) == s[k].3,
        grid_base(final(grid)@, s, lo, dims_of(d0, d1, d2)),
        forall|c: Cell3| in_grid(dims_of(d0, d1, d2), c) ==>
            (#[trigger] gval(final(grid)@, dims_of(d0, d1, d2), c) == AIR) == (gval(old(grid)@, dims_of(d0, d1, d2), c) == AIR),
        forall|c: Cell3| in_grid(dims_of(d0, d1, d2), c) && #[trigger] gval(final(grid)@, dims_of(d0, d1, d2), c) != 0
            && gval(final(grid)@, dims_of(d0, d1, d2), c) != AIR && !occupied(s, lo, c)
            ==> sample_mat(s, gval(final(grid)@, dims_of(d0, d1, d2), c)),
        forall|c: Cell3| in_grid(dims_of(d0, d1, d2), c) && #[trigger] gval(final(grid)@, dims_of(d0, d1, d2), c) != 0
            ==> settled(final(grid)@, dims_of(d0, d1, d2), c),
{
    let ghost d = dims_of(d0, d1, d2);
    let ghost ga = grid@;
    let ghost mut marked: Set<int> = Set::empty();
    let ghost mut popped: nat = 0;
    while q.len() > 0
        invariant
            col_inv(grid@, q@, s, lo, d, ga, (0int, 0int, 0int), false, marked, popped),
            near_inv(grid@, q@, s, lo, d, popped as int, expanded(popped as int, s.len() as int)),
            path_inv(grid@, q@, s, lo, d, popped as int),
            d == dims_of(d0, d1, d2),
            d0 * d1 * d2 <= MAX_FILL_CELLS,
            popped <= grid@.len() + s.len(),
        decreases grid@.len() + s.len() - popped,
    {
        let ghost qb = q@;
        let (cx, cy, cz, mat) = q.pop_front().unwrap();
        let ghost c: Cell3 = (cx as int, cy as int, cz as int);
        proof {
            let p = popped as int;
            popped = popped + 1;
            assert(cell_of_color(qb[0]) == c);
            if p < s.len() {
                assert(cell_of_color(qb[0]) == local_of(s[p + 0], lo) && qb[0].3 == s[p + 0].3);
                assert(q@.len() >= s.len() - (p + 1));
                assert forall|j: int| 0 <= j < s.len() - (p + 1) implies cell_of_color(#[trigger] q@[j]) == local_of(s[(p + 1) + j], lo)
                    && q@[j].3 == s[(p + 1) + j].3 by {
                    assert(q@[j] == qb[j + 1]);
                    assert(cell_of_color(qb[j + 1]) == local_of(s[p + (j + 1)], lo) && qb[j + 1].3 == s[p + (j + 1)].3);
                }
            }
            assert(expanded(popped - 1, s.len() as int) == expanded(p, s.len() as int));
            if p >= s.len() {
                assert(!occupied(s, lo, cell_of_color(qb[0])) && gval(grid@, d, cell_of_color(qb[0])) == qb[0].3);
            }
            assert forall|j: int| 0 <= j < q@.len() && popped + j >= s.len() implies !occupied(s, lo, cell_of_color(#[trigger] q@[j]))
                && gval(grid@, d, cell_of_color(q@[j])) == q@[j].3 by {
                assert(q@[j] == qb[j + 1]);
                assert(p + (j + 1) >= s.len());
            }
            assert(near_inv(grid@, q@, s, lo, d, popped as int, expanded(popped - 1, s.len() as int)));
            assert forall|x: Cell3| in_grid(d, x) && #[trigger] gval(grid@, d, x) != 0 && gval(grid@, d, x) != AIR
                && !color_queued(q@, x) && !(x == c) implies settled(grid@, d, x) by {
                if color_queued(qb, x) {
                    let j = choose|j: int| 0 <= j < qb.len() && #[trigger] cell_of_color(qb[j]) == x;
                    if j > 0 {
                        assert(cell_of_color(q@[j - 1]) == x);
                    }
                }
            }
            assert forall|j: int| 0 <= j < q@.len() implies in_grid(d, cell_of_color(#[trigger] q@[j]))
                && gval(grid@, d, cell_of_color(q@[j])) != 0 && gval(grid@, d, cell_of_color(q@[j])) != AIR
                && sample_mat(s, q@[j].3) && mat_ok(q@[j].3) by {
                assert(q@[j] == qb[j + 1]);
            }
            assert(marked.subset_of(vstd::set_lib::set_int_range(0, grid@.len() as int)));
            vstd::set_lib::lemma_int_range(0, grid@.len() as int);
            vstd::set_lib::lemma_len_subset(marked, vstd::set_lib::set_int_range(0, grid@.len() as int));
            lemma_lin_bounds(d, c);
        }
        let ghost cval = gval(grid@, d, c);
        let mut dir: usize = 0;
        while dir < 6
            invariant
                dir <= 6,
                col_inv(grid@, q@, s, lo, d, ga, c, true, marked, popped),
                near_inv(grid@, q@, s, lo, d, popped as int, expanded(popped - 1, s.len() as int)),
                popped >= 1,
                popped - 1 < s.len() ==> c == local_of(s[popped - 1], lo) && mat == s[popped - 1].3,
                path_inv(grid@, q@, s, lo, d, popped as int),
                popped - 1 >= s.len() ==> !occupied(s, lo, c) && cval == mat,
                d == dims_of(d0, d1, d2),
                d0 * d1 * d2 <= MAX_FILL_CELLS,
                in_grid(d, c),
                c == (cx as int, cy as int, cz as int),
                gval(grid@, d, c) == cval,
                cval != 0 && cval != AIR,
                sample_mat(s, mat),
                mat_ok(mat),
                popped <= grid@.len() + s.len(),
                forall|e: int| 0 <= e < dir && in_grid(d, #[trigger] step(c, e)) ==> gval(grid@, d, step(c, e)) != 0,
            decreases 6 - dir,
        {
            let inside = match dir {
                0 => cx > 0,
                1 => cx + 1 < d0,
                2 => cy > 0,
                3 => cy + 1 < d1,
                4 => cz > 0,
                _ => cz + 1 < d2,
            };
            assert(inside == in_grid(d, step(c, dir as int)));
            if inside {
                let n: (usize, usize, usize, u16) = match dir {
                    0 => (cx - 1, cy, cz, mat),
                    1 => (cx + 1, cy, cz, mat),
                    2 => (cx, cy - 1, cz, mat),
                    3 => (cx, cy + 1, cz, mat),
                    4 => (cx, cy, cz - 1, mat),
                    _ => (cx, cy, cz + 1, mat),
                };
                assert(cell_of_color(n) == step(c, dir as int));
                proof {
                    lemma_lin_bounds(d, step(c, dir as int));
                }
                let idx = n.0 + n.1 * d0 + n.2 * (d0 * d1);
                let g_ = Ghost(grid@);
                let q_ = Ghost(q@);
                let pushed = visit_color(grid, q, idx, n);
                proof {
                    lemma_col_visit(g_@, q_@, grid@, q@, s, lo, d, ga, c, mat, dir as int, n, marked, popped);
                    lemma_near_visit(g_@, q_@, grid@, q@, s, lo, d, c, mat, dir as int, n, popped as int);
                    lemma_path_visit(g_@, q_@, grid@, q@, s, lo, d, c, mat, dir as int, n, popped as int);
                    if pushed {
                        marked = marked.insert(lin(d, step(c, dir as int)));
                    }
                }
            }
            dir = dir + 1;
        }
        proof {
            assert(settled(grid@, d, c));
            if popped - 1 < s.len() {
                let p = popped - 1;
                assert forall|j: int, e: int| 0 <= j < popped && 0 <= e < 6 && in_grid(d, #[trigger] step(local_of(s[j], lo), e))
                    implies gval(grid@, d, step(local_of(s[j], lo), e)) != 0 by {
                    if j == p {
                        assert(step(c, e) == step(local_of(s[j], lo), e));
                    }
                }
            }
        }
    }
}

/// When air and painted cells have no empty neighbour and the corner is
/// air, no cell of the grid is empty.
proof fn lemma_no_empty(g: Seq<u16>, d: Cell3, c: Cell3)
    requires
        forall|x: Cell3| in_grid(d, x) && #[trigger] gval(g, d, x) != 0 ==> settled(g, d, x),
        gval(g, d, (0int, 0int, 0int)) != 0,
        in_grid(d, c),
    ensures
        gval(g, d, c) != 0,
    decreases c.0 + c.1 + c.2,
{
    if c.0 > 0 {
        let p = step(c, 0);
        lemma_no_empty(g, d, p);
        assert(step(p, 1) == c);
        assert(settled(g, d, p));
    } else if c.1 > 0 {
        let p = step(c, 2);
        lemma_no_empty(g, d, p);
        assert(step(p, 3) == c);
        assert(settled(g, d, p));
    } else if c.2 > 0 {
        let p = step(c, 4);
        lemma_no_empty(g, d, p);
        assert(step(p, 5) == c);
        assert(settled(g, d, p));
    }
}


// ---------------------------------------------------------------------------
// The bounding box and the whole fill.
// ---------------------------------------------------------------------------

pub open spec fn axis(v: GridVoxel, k: int) -> int {
    if k == 0 {
        v.0 as int
    } else if k == 1 {
        v.1 as int
    } else {
        v.2 as int
    }
}

/// The smallest coordinate along axis `k` of the voxels (`i32::MAX` for none).
pub open spec fn box_lo(s: Seq<GridVoxel>, k: int) -> int
    decreases s.len(),
{
    if s.len() == 0 {
        i32::MAX as int
    } else {
        let m = box_lo(s.drop_last(), k);
        if axis(s.last(), k) < m { axis(s.last(), k) } else { m }
    }
}

/// The largest coordinate along axis `k` of the voxels (`i32::MIN` for none).
pub open spec fn box_hi(s: Seq<GridVoxel>, k: int) -> int
    decreases s.len(),
{
    if s.len() == 0 {
        i32::MIN as int
    } else {
        let m = box_hi(s.drop_last(), k);
        if axis(s.last(), k) > m { axis(s.last(), k) } else { m }
    }
}

pub open spec fn lo_corner(s: Seq<GridVoxel>) -> Cell3 {
    (box_lo(s, 0), box_lo(s, 1), box_lo(s, 2))
}

/// The padded grid: the bounding box and one more cell on every side.
pub open spec fn fill_dims(s: Seq<GridVoxel>) -> Cell3 {
    (box_hi(s, 0) - box_lo(s, 0) + 3, box_hi(s, 1) - box_lo(s, 1) + 3, box_hi(s, 2) - box_lo(s, 2) + 3)
}

/// A cell of the padded grid inside the bounding box.
pub open spec fn in_box(d: Cell3, c: Cell3) -> bool {
    1 <= c.0 <= d.0 - 2 && 1 <= c.1 <= d.1 - 2 && 1 <= c.2 <= d.2 - 2
}

/// `a` comes before `b` with z slowest, then y, then x.
pub open spec fn before(a: Cell3, b: Cell3) -> bool {
    a.2 < b.2 || (a.2 == b.2 && a.1 < b.1) || (a.2 == b.2 && a.1 == b.1 && a.0 < b.0)
}

/// The padded grid around a box within `2^20` of the origin.
pub open spec fn box_fits(lo: Cell3, d: Cell3) -> bool {
    &&& -0x10_0000 <= lo.0 && lo.0 + d.0 - 3 < 0x10_0000 && d.0 >= 3
    &&& -0x10_0000 <= lo.1 && lo.1 + d.1 - 3 < 0x10_0000 && d.1 >= 3
    &&& -0x10_0000 <= lo.2 && lo.2 + d.2 - 3 < 0x10_0000 && d.2 >= 3
}

pub open spec fn voxel_ok(v: GridVoxel) -> bool {
    -0x10_0000 <= v.0 < 0x10_0000 && -0x10_0000 <= v.1 < 0x10_0000 && -0x10_0000 <= v.2 < 0x10_0000 && mat_ok(v.3)
}

proof fn lemma_box(s: Seq<GridVoxel>, k: int)
    requires
        s.len() > 0,
        forall|j: int| 0 <= j < s.len() ==> voxel_ok(#[trigger] s[j]),
    ensures
        forall|j: int| 0 <= j < s.len() ==> box_lo(s, k) <= #[trigger] axis(s[j], k) <= box_hi(s, k),
        -0x10_0000 <= box_lo(s, k) <= box_hi(s, k) < 0x10_0000,
    decreases s.len(),
{
    let t = s.drop_last();
    assert(voxel_ok(s[s.len() - 1]));
    if t.len() == 0 {
        assert(box_lo(t, k) == i32::MAX);
        assert(box_hi(t, k) == i32::MIN);
        assert(s[0] == s.last());
    }
    if t.len() > 0 {
        assert forall|j: int| 0 <= j < t.len() implies voxel_ok(#[trigger] t[j]) by {
            assert(t[j] == s[j]);
        }
        lemma_box(t, k);
        assert forall|j: int| 0 <= j < s.len() implies box_lo(s, k) <= #[trigger] axis(s[j], k) <= box_hi(s, k) by {
            if j < t.len() {
                assert(s[j] == t[j]);
            }
        }
    }
}

proof fn lemma_last_mat(s: Seq<GridVoxel>, lo: Cell3, c: Cell3)
    requires
        occupied(s, lo, c),
    ensures
        sample_mat(s, last_mat(s, lo, c)),
    decreases s.len(),
{
    let t = s.drop_last();
    if local_of(s.last(), lo) == c {
        assert(s[s.len() - 1].3 == last_mat(s, lo, c));
    } else {
        let j = choose|j: int| 0 <= j < s.len() && #[trigger] local_of(s[j], lo) == c;
        assert(j < t.len());
        assert(local_of(t[j], lo) == c);
        lemma_last_mat(t, lo, c);
        let i = choose|i: int| 0 <= i < t.len() && #[trigger] t[i].3 == last_mat(t, lo, c);
        assert(s[i].3 == t[i].3);
    }
}

/// Cell `c` comes out of the fill with material `m`.
pub open spec fn comes_out(o: Seq<GridVoxel>, lo: Cell3, c: Cell3, m: u16) -> bool {
    exists|j: int| 0 <= j < o.len() && #[trigger] local_of(o[j], lo) == c && o[j].3 == m
}

/// Walking from cell `c` by the face steps `dirs`, every cell on the way holds
/// no surface voxel and comes out of the fill with material `m`, and the last
/// one lies beside a surface voxel of material `m`.
pub open spec fn out_walk(o: Seq<GridVoxel>, s: Seq<GridVoxel>, lo: Cell3, c: Cell3, m: u16, dirs: Seq<int>) -> bool
    decreases dirs.len(),
{
    &&& !occupied(s, lo, c)
    &&& comes_out(o, lo, c, m)
    &&& if dirs.len() == 0 {
        exists|i: int| 0 <= i < s.len() && #[trigger] touches_at(s, lo, c, i) && s[i].3 == m
    } else {
        0 <= dirs[0] < 6 && out_walk(o, s, lo, step(c, dirs[0]), m, dirs.drop_first())
    }
}

/// A walk through painted grid cells is a walk through cells of the fill's output.
proof fn lemma_walk_out(g: Seq<u16>, o: Seq<GridVoxel>, s: Seq<GridVoxel>, lo: Cell3, d: Cell3, c: Cell3, m: u16, dirs: Seq<int>)
    requires
        grid_walk(g, s, lo, d, c, m, dirs),
        m != 0,
        m != AIR,
        forall|x: Cell3| in_grid(d, x) && !occupied(s, lo, x) && #[trigger] gval(g, d, x) != 0 && gval(g, d, x) != AIR
            ==> comes_out(o, lo, x, gval(g, d, x)),
    ensures
        out_walk(o, s, lo, c, m, dirs),
    decreases dirs.len(),
{
    assert(gval(g, d, c) == m);
    if dirs.len() > 0 {
        lemma_walk_out(g, o, s, lo, d, step(c, dirs[0]), m, dirs.drop_first());
    }
}

/// The outside air reaches every cell of the grid's padding.
proof fn lemma_border_reach(s: Seq<GridVoxel>, lo: Cell3, d: Cell3, c: Cell3)
    requires
        in_grid(d, c),
        !in_box(d, c),
        forall|j: int| 0 <= j < s.len() ==> in_box(d, #[trigger] local_of(s[j], lo)),
    ensures
        reach(s, lo, d, c, (c.0 + c.1 + c.2) as nat),
    decreases c.0 + c.1 + c.2,
{
    assert(!occupied(s, lo, c)) by {
        if occupied(s, lo, c) {
            let j = choose|j: int| 0 <= j < s.len() && #[trigger] local_of(s[j], lo) == c;
        }
    }
    if c.0 + c.1 + c.2 > 0 {
        let dir: int = if c.0 == 0 || c.0 == d.0 - 1 {
            if c.1 > 0 { 2 } else if c.2 > 0 { 4 } else { 0 }
        } else {
            0
        };
        let p = step(c, dir);
        lemma_border_reach(s, lo, d, p);
        assert((c.0 + c.1 + c.2) as nat == ((p.0 + p.1 + p.2) as nat) + 1);
        lemma_reach_from(s, lo, d, c, dir, (p.0 + p.1 + p.2) as nat);
    }
}

/// The solid version of a voxelized surface: every cell of the surface's
/// bounding box that the outside air cannot reach (flowing between cells
/// no surface voxel holds, from outside the box) is a voxel; surface cells
/// keep the material of their last surface voxel, inner cells take the
/// material of some surface voxel, and an inner cell beside the surface takes
/// that of the first surface voxel in the list beside it (the surface spreads
/// inwards one face step at a time, in list order); every inner cell is joined
/// to a surface voxel of its material by face steps through inner cells of that
/// material; they come out with z slowest, then y,
/// then x. When the padded box has more than `MAX_FILL_CELLS` cells the
/// surface voxels come out unchanged.
pub fn solid_fill(samples: &Vec<GridVoxel>) -> (out: Vec<GridVoxel>)
    requires
        samples@.len() > 0,
        forall|j: int| 0 <= j < samples@.len() ==> voxel_ok(#[trigger] samples@[j]),
    ensures
        ({
            let s = samples@;
            let lo = lo_corner(s);
            let d = fill_dims(s);
            if d.0 * d.1 * d.2 <= MAX_FILL_CELLS {
                &&& forall|i: int| 0 <= i < out@.len() ==> {
                    let c = #[trigger] local_of(out@[i], lo);
                    &&& in_box(d, c)
                    &&& !exterior(s, lo, d, c)
                    &&& occupied(s, lo, c) ==> out@[i].3 == last_mat(s, lo, c)
                    &&& !occupied(s, lo, c) ==> sample_mat(s, out@[i].3)
                    &&& forall|k: int| #[trigger] first_touch(s, lo, c, k) && !occupied(s, lo, c) ==> out@[i].3 == s[k].3
                    &&& !occupied(s, lo, c) ==> exists|dirs: Seq<int>| #[trigger] out_walk(out@, s, lo, c, out@[i].3, dirs)
                }
                &&& forall|i: int, j: int| 0 <= i < j < out@.len() ==> before(local_of(out@[i], lo), local_of(out@[j], lo))
                &&& forall|c: Cell3| in_box(d, c) && !exterior(s, lo, d, c)
                    ==> exists|i: int| 0 <= i < out@.len() && #[trigger] local_of(out@[i], lo) == c
            } else {
                out@ == s
            }
        }),
{
    let ghost s = samples@;
    let n = samples.len();
    let mut min_g: [i32; 3] = [i32::MAX, i32::MAX, i32::MAX];
    let mut max_g: [i32; 3] = [i32::MIN, i32::MIN, i32::MIN];
    let mut i: usize = 0;
    while i < n
        invariant
            i <= n,
            n == s.len(),
            s == samples@,
            forall|k: int| 0 <= k < 3 ==> #[trigger] min_g[k] == box_lo(s.take(i as int), k),
            forall|k: int| 0 <= k < 3 ==> #[trigger] max_g[k] == box_hi(s.take(i as int), k),
        decreases n - i,
    {
        let v = samples[i];
        proof {
            assert(s.take(i + 1).drop_last() =~= s.take(i as int));
            assert(s.take(i + 1).last() == v);
        }
        if v.0 < min_g[0] { min_g[0] = v.0; }
        if v.1 < min_g[1] { min_g[1] = v.1; }
        if v.2 < min_g[2] { min_g[2] = v.2; }
        if v.0 > max_g[0] { max_g[0] = v.0; }
        if v.1 > max_g[1] { max_g[1] = v.1; }
        if v.2 > max_g[2] { max_g[2] = v.2; }
        i = i + 1;
        proof {
            assert forall|k: int| 0 <= k < 3 implies #[trigger] min_g[k] == box_lo(s.take(i as int), k) by {}
            assert forall|k: int| 0 <= k < 3 implies #[trigger] max_g[k] == box_hi(s.take(i as int), k) by {}
        }
    }
    proof {
        assert(s.take(n as int) =~= s);
        lemma_box(s, 0);
        lemma_box(s, 1);
        lemma_box(s, 2);
        assert(min_g[0] == box_lo(s, 0) && min_g[1] == box_lo(s, 1) && min_g[2] == box_lo(s, 2));
        assert(max_g[0] == box_hi(s, 0) && max_g[1] == box_hi(s, 1) && max_g[2] == box_hi(s, 2));
    }
    let ghost lo = lo_corner(s);
    let ghost d = fill_dims(s);
    proof {
        assert(box_fits(lo, d));
        assert forall|j: int| 0 <= j < s.len() implies in_box(d, #[trigger] local_of(s[j], lo)) by {
            assert(box_lo(s, 0) <= axis(s[j], 0) <= box_hi(s, 0));
            assert(box_lo(s, 1) <= axis(s[j], 1) <= box_hi(s, 1));
            assert(box_lo(s, 2) <= axis(s[j], 2) <= box_hi(s, 2));
        }
    }
    let size_x = (max_g[0] - min_g[0] + 1) as u64;
    let size_y = (max_g[1] - min_g[1] + 1) as u64;
    let size_z = (max_g[2] - min_g[2] + 1) as u64;
    let dx = size_x + 2;
    let dy = size_y + 2;
    let dz = size_z + 2;
    assert(dx * dy <= 0x20_0002 * 0x20_0002) by (nonlinear_arith)
        requires
            3 <= dx <= 0x20_0002,
            3 <= dy <= 0x20_0002,
    ;
    assert(dx * dy * dz <= 0x20_0002 * 0x20_0002 * 0x20_0002) by (nonlinear_arith)
        requires
            dx * dy <= 0x20_0002 * 0x20_0002,
            0 <= dx * dy,
            3 <= dz <= 0x20_0002,
    ;
    let total = dx * dy * dz;
    let mut out: Vec<GridVoxel> = Vec::new();
    if total > MAX_FILL_CELLS {
        let mut j: usize = 0;
        while j < n
            invariant
                j <= n,
                n == s.len(),
                s == samples@,
                out@ == s.take(j as int),
            decreases n - j,
        {
            out.push(samples[j]);
            j = j + 1;
            proof {
                assert(out@ =~= s.take(j as int));
            }
        }
        proof {
            assert(s.take(n as int) =~= s);
        }
        return out;
    }
    let d0 = dx as usize;
    let d1 = dy as usize;
    let d2 = dz as usize;
    assert(d == dims_of(d0, d1, d2));
    let mut grid: Vec<u16> = vec![0u16; total as usize];
    proof {
        assert forall|c: Cell3| in_grid(d, c) implies #[trigger] gval(grid@, d, c) == 0 by {
            lemma_lin_bounds(d, c);
        }
    }
    let mut cq: VecDeque<(usize, usize, usize, u16)> = VecDeque::new();
    let mut i: usize = 0;
    while i < n
        invariant
            i <= n,
            n == s.len(),
            s == samples@,
            forall|j: int| 0 <= j < s.len() ==> voxel_ok(#[trigger] s[j]),
            d == dims_of(d0, d1, d2),
            lo == lo_corner(s),
            d == fill_dims(s),
            min_g[0] == lo.0 && min_g[1] == lo.1 && min_g[2] == lo.2,
            box_fits(lo, d),
            d0 * d1 * d2 <= MAX_FILL_CELLS,
            grid@.len() == d0 * d1 * d2,
            forall|j: int| 0 <= j < s.len() ==> in_box(d, #[trigger] local_of(s[j], lo)),
            forall|c: Cell3| in_grid(d, c) ==> #[trigger] gval(grid@, d, c)
                == if occupied(s.take(i as int), lo, c) { last_mat(s.take(i as int), lo, c) } else { 0 },
            cq@.len() == i,
            forall|j: int| 0 <= j < i ==> #[trigger] cq@[j] == (
                (local_of(s[j], lo).0 as usize, local_of(s[j], lo).1 as usize, local_of(s[j], lo).2 as usize, s[j].3)),
        decreases n - i,
    {
        let v = samples[i];
        let lx = (v.0 - min_g[0] + 1) as usize;
        let ly = (v.1 - min_g[1] + 1) as usize;
        let lz = (v.2 - min_g[2] + 1) as usize;
        let ghost c: Cell3 = local_of(v, lo);
        assert(in_box(d, c));
        proof {
            lemma_lin_bounds(d, c);
        }
        let idx = lx + ly * d0 + lz * (d0 * d1);
        let ghost g0 = grid@;
        grid.set(idx, v.3);
        cq.push_back((lx, ly, lz, v.3));
        proof {
            let t0 = s.take(i as int);
            let t1 = s.take(i + 1);
            assert(t1.drop_last() =~= t0);
            assert(t1.last() == v);
            assert(lin(d, c) == idx);
            assert(last_mat(t1, lo, c) == v.3);
            assert forall|x: Cell3| in_grid(d, x) implies #[trigger] gval(grid@, d, x)
                == if occupied(t1, lo, x) { last_mat(t1, lo, x) } else { 0 } by {
                lemma_lin_bounds(d, x);
                if x != c && lin(d, x) == idx {
                    lemma_lin_inj(d, x, c);
                }
                if x != c {
                    assert(gval(grid@, d, x) == gval(g0, d, x));
                    assert(gval(g0, d, x) == if occupied(t0, lo, x) { last_mat(t0, lo, x) } else { 0 });
                    assert(last_mat(t1, lo, x) == last_mat(t0, lo, x));
                }
                if occupied(t0, lo, x) {
                    let j = choose|j: int| 0 <= j < t0.len() && #[trigger] local_of(t0[j], lo) == x;
                    assert(local_of(t1[j], lo) == x);
                }
                if occupied(t1, lo, x) && x != c {
                    let j = choose|j: int| 0 <= j < t1.len() && #[trigger] local_of(t1[j], lo) == x;
                    assert(j < t0.len());
                    assert(local_of(t0[j], lo) == x);
                }
                if x == c {
                    assert(local_of(t1[i as int], lo) == x);
                }
            }
        }
        i = i + 1;
    }
    proof {
        assert(s.take(n as int) =~= s);
        let origin: Cell3 = (0int, 0int, 0int);
        assert(!occupied(s, lo, origin)) by {
            if occupied(s, lo, origin) {
                let j = choose|j: int| 0 <= j < s.len() && #[trigger] local_of(s[j], lo) == origin;
                assert(in_box(d, local_of(s[j], lo)));
            }
        }
        assert forall|c: Cell3| in_grid(d, c) && occupied(s, lo, c) implies mat_ok(#[trigger] last_mat(s, lo, c)) by {
            lemma_last_mat(s, lo, c);
            let j = choose|j: int| 0 <= j < s.len() && #[trigger] s[j].3 == last_mat(s, lo, c);
            assert(voxel_ok(s[j]));
        }
    }
    flood_exterior(&mut grid, d0, d1, d2, Ghost(s), Ghost(lo));
    let ghost g1 = grid@;
    proof {
        let origin: Cell3 = (0int, 0int, 0int);
        assert forall|c: Cell3| in_grid(d, c) && #[trigger] gval(g1, d, c) != 0 && gval(g1, d, c) != AIR
            && !color_queued(cq@, c) && !(false && c == origin) implies settled(g1, d, c) by {
            assert(occupied(s, lo, c));
            let j = choose|j: int| 0 <= j < s.len() && #[trigger] local_of(s[j], lo) == c;
            assert(cell_of_color(cq@[j]) == c);
        }
        assert forall|j: int| 0 <= j < cq@.len() implies in_grid(d, cell_of_color(#[trigger] cq@[j]))
            && gval(g1, d, cell_of_color(cq@[j])) != 0 && gval(g1, d, cell_of_color(cq@[j])) != AIR
            && sample_mat(s, cq@[j].3) && mat_ok(cq@[j].3) by {
            let c = local_of(s[j], lo);
            assert(cell_of_color(cq@[j]) == c);
            assert(occupied(s, lo, c));
            assert(mat_ok(last_mat(s, lo, c)));
            assert(s[j].3 == cq@[j].3);
            assert(voxel_ok(s[j]));
        }
        let e: Set<int> = Set::empty();
        assert forall|i: int| #[trigger] e.contains(i) <==> 0 <= i < g1.len() && g1[i] == 0 && g1[i] != 0 by {}
        assert(col_inv(g1, cq@, s, lo, d, g1, origin, false, Set::empty(), 0));
        assert forall|j: int| 0 <= j < s.len() - 0 implies cell_of_color(#[trigger] cq@[j]) == local_of(s[0 + j], lo)
            && cq@[j].3 == s[0 + j].3 by {
            assert(cell_of_color(cq@[j]) == local_of(s[j], lo));
        }
        assert forall|c: Cell3, k: int| in_grid(d, c) && #[trigger] first_touch(s, lo, c, k) && !occupied(s, lo, c)
            && gval(g1, d, c) != 0 && gval(g1, d, c) != AIR implies gval(g1, d, c) == s[k].3 by {}
        assert(near_inv(g1, cq@, s, lo, d, 0, 0));
    }
    flood_colors(&mut grid, &mut cq, d0, d1, d2, Ghost(s), Ghost(lo));
    let ghost g2 = grid@;
    proof {
        let origin: Cell3 = (0int, 0int, 0int);
        assert forall|c: Cell3| in_grid(d, c) && !occupied(s, lo, c) && #[trigger] gval(g2, d, c) != 0 && gval(g2, d, c) != AIR
            implies in_box(d, c) && exists|dirs: Seq<int>| #[trigger] grid_walk(g2, s, lo, d, c, gval(g2, d, c), dirs) by {
            if !in_box(d, c) {
                lemma_border_reach(s, lo, d, c);
                assert(exterior(s, lo, d, c));
                assert(gval(g1, d, c) == AIR);
            }
        }
        assert forall|c: Cell3| in_box(d, c) implies (#[trigger] gval(g2, d, c) != AIR) == !exterior(s, lo, d, c)
            && gval(g2, d, c) != 0 by {
            lemma_no_empty(g2, d, c);
            if occupied(s, lo, c) {
                assert(mat_ok(last_mat(s, lo, c)));
                if exterior(s, lo, d, c) {
                    let k = choose|k: nat| #[trigger] reach(s, lo, d, c, k);
                    lemma_occupied_unreached(s, lo, d, c, k);
                }
            }
        }
    }
    let mut lz: usize = 1;
    while lz <= d2 - 2
        invariant
            1 <= lz <= d2 - 1,
            n == s.len(),
            s == samples@,
            d == dims_of(d0, d1, d2),
            lo == lo_corner(s),
            d == fill_dims(s),
            min_g[0] == lo.0 && min_g[1] == lo.1 && min_g[2] == lo.2,
            box_fits(lo, d),
            d0 * d1 * d2 <= MAX_FILL_CELLS,
            grid@ == g2,
            grid_base(g2, s, lo, d),
            forall|c: Cell3| in_grid(d, c) && !occupied(s, lo, c) && #[trigger] gval(g2, d, c) != 0 && gval(g2, d, c) != AIR
                ==> in_box(d, c) && exists|dirs: Seq<int>| #[trigger] grid_walk(g2, s, lo, d, c, gval(g2, d, c), dirs),
            forall|c: Cell3, k: int| in_grid(d, c) && #[trigger] first_touch(s, lo, c, k) && !occupied(s, lo, c)
                && gval(g2, d, c) != 0 && gval(g2, d, c) != AIR ==> gval(g2, d, c) == s[k].3,
            forall|c: Cell3| in_box(d, c) ==> (#[trigger] gval(g2, d, c) != AIR) == !exterior(s, lo, d, c) && gval(g2, d, c) != 0,
            forall|c: Cell3| in_grid(d, c) && #[trigger] gval(g2, d, c) != 0 && gval(g2, d, c) != AIR && !occupied(s, lo, c)
                ==> sample_mat(s, gval(g2, d, c)),
            forall|i: int| 0 <= i < out@.len() ==> {
                let c = #[trigger] local_of(out@[i], lo);
                &&& in_box(d, c)
                &&& before(c, (1int, 1int, lz as int))
                &&& gval(g2, d, c) != AIR
                &&& out@[i].3 == gval(g2, d, c)
            },
            forall|i: int, j: int| 0 <= i < j < out@.len() ==> before(local_of(out@[i], lo), local_of(out@[j], lo)),
            forall|c: Cell3| in_box(d, c) && before(c, (1int, 1int, lz as int)) && gval(g2, d, c) != AIR
                ==> exists|i: int| 0 <= i < out@.len() && #[trigger] local_of(out@[i], lo) == c,
        decreases d2 - lz,
    {
        let mut ly: usize = 1;
        while ly <= d1 - 2
            invariant
                1 <= lz <= d2 - 2,
                1 <= ly <= d1 - 1,
                n == s.len(),
                s == samples@,
                d == dims_of(d0, d1, d2),
                lo == lo_corner(s),
                d == fill_dims(s),
                min_g[0] == lo.0 && min_g[1] == lo.1 && min_g[2] == lo.2,
                box_fits(lo, d),
                d0 * d1 * d2 <= MAX_FILL_CELLS,
                grid@ == g2,
                grid_base(g2, s, lo, d),
                forall|c: Cell3| in_grid(d, c) && !occupied(s, lo, c) && #[trigger] gval(g2, d, c) != 0 && gval(g2, d, c) != AIR
                    ==> in_box(d, c) && exists|dirs: Seq<int>| #[trigger] grid_walk(g2, s, lo, d, c, gval(g2, d, c), dirs),
                forall|c: Cell3, k: int| in_grid(d, c) && #[trigger] first_touch(s, lo, c, k) && !occupied(s, lo, c)
                    && gval(g2, d, c) != 0 && gval(g2, d, c) != AIR ==> gval(g2, d, c) == s[k].3,
                forall|c: Cell3| in_box(d, c) ==> (#[trigger] gval(g2, d, c) != AIR) == !exterior(s, lo, d, c) && gval(g2, d, c) != 0,
                forall|i: int| 0 <= i < out@.len() ==> {
                    let c = #[trigger] local_of(out@[i], lo);
                    &&& in_box(d, c)
                    &&& before(c, (1int, ly as int, lz as int))
                    &&& gval(g2, d, c) != AIR
                    &&& out@[i].3 == gval(g2, d, c)
                },
                forall|i: int, j: int| 0 <= i < j < out@.len() ==> before(local_of(out@[i], lo), local_of(out@[j], lo)),
                forall|c: Cell3| in_box(d, c) && before(c, (1int, ly as int, lz as int)) && gval(g2, d, c) != AIR
                    ==> exists|i: int| 0 <= i < out@.len() && #[trigger] local_of(out@[i], lo) == c,
            decreases d1 - ly,
        {
            let mut lx: usize = 1;
            while lx <= d0 - 2
                invariant
                    1 <= lz <= d2 - 2,
                    1 <= ly <= d1 - 2,
                    1 <= lx <= d0 - 1,
                    n == s.len(),
                    s == samples@,
                    d == dims_of(d0, d1, d2),
                    lo == lo_corner(s),
                    d == fill_dims(s),
                    min_g[0] == lo.0 && min_g[1] == lo.1 && min_g[2] == lo.2,
                    box_fits(lo, d),
                    d0 * d1 * d2 <= MAX_FILL_CELLS,
                    grid@ == g2,
                    grid_base(g2, s, lo, d),
                    forall|c: Cell3| in_grid(d, c) && !occupied(s, lo, c) && #[trigger] gval(g2, d, c) != 0 && gval(g2, d, c) != AIR
                        ==> in_box(d, c) && exists|dirs: Seq<int>| #[trigger] grid_walk(g2, s, lo, d, c, gval(g2, d, c), dirs),
                    forall|c: Cell3, k: int| in_grid(d, c) && #[trigger] first_touch(s, lo, c, k) && !occupied(s, lo, c)
                        && gval(g2, d, c) != 0 && gval(g2, d, c) != AIR ==> gval(g2, d, c) == s[k].3,
                    forall|c: Cell3| in_box(d, c) ==> #[trigger] gval(g2, d, c) != 0,
                    forall|i: int| 0 <= i < out@.len() ==> {
                        let c = #[trigger] local_of(out@[i], lo);
                        &&& in_box(d, c)
                        &&& before(c, (lx as int, ly as int, lz as int))
                        &&& gval(g2, d, c) != AIR
                        &&& out@[i].3 == gval(g2, d, c)
                    },
                    forall|i: int, j: int| 0 <= i < j < out@.len() ==> before(local_of(out@[i], lo), local_of(out@[j], lo)),
                    forall|c: Cell3| in_box(d, c) && before(c, (lx as int, ly as int, lz as int)) && gval(g2, d, c) != AIR
                        ==> exists|i: int| 0 <= i < out@.len() && #[trigger] local_of(out@[i], lo) == c,
                decreases d0 - lx,
            {
                let ghost c: Cell3 = (lx as int, ly as int, lz as int);
                proof {
                    lemma_lin_bounds(d, c);
                }
                let idx = lx + ly * d0 + lz * (d0 * d1);
                let mat = grid[idx];
                assert(mat == gval(g2, d, c));
                let ghost before_out = out@;
                if mat != 0 && mat != AIR {
                    let gx = (lx as i32 - 1) + min_g[0];
                    let gy = (ly as i32 - 1) + min_g[1];
                    let gz = (lz as i32 - 1) + min_g[2];
                    out.push((gx, gy, gz, mat));
                    proof {
                        assert(local_of(out@[out@.len() - 1], lo) == c);
                        assert forall|i: int| 0 <= i < before_out.len() implies out@[i] == before_out[i] by {}
                    }
                }
                lx = lx + 1;
                proof {
                    let c2: Cell3 = (lx as int, ly as int, lz as int);
                    assert forall|x: Cell3| in_box(d, x) && before(x, c2) && gval(g2, d, x) != AIR
                        implies exists|i: int| 0 <= i < out@.len() && #[trigger] local_of(out@[i], lo) == x by {
                        if x == c {
                            assert(local_of(out@[out@.len() - 1], lo) == x);
                        } else {
                            assert(before(x, c));
                            let i = choose|i: int| 0 <= i < before_out.len() && #[trigger] local_of(before_out[i], lo) == x;
                            assert(local_of(out@[i], lo) == x);
                        }
                    }
                }
            }
            ly = ly + 1;
        }
        lz = lz + 1;
    }
    proof {
        assert forall|i: int| 0 <= i < out@.len() implies {
            let c = #[trigger] local_of(out@[i], lo);
            &&& in_box(d, c)
            &&& !exterior(s, lo, d, c)
            &&& occupied(s, lo, c) ==> out@[i].3 == last_mat(s, lo, c)
            &&& !occupied(s, lo, c) ==> sample_mat(s, out@[i].3)
            &&& forall|k: int| #[trigger] first_touch(s, lo, c, k) && !occupied(s, lo, c) ==> out@[i].3 == s[k].3
        } by {
            let c = local_of(out@[i], lo);
            assert(gval(g2, d, c) != 0);
        }
        assert forall|c: Cell3| in_box(d, c) && !exterior(s, lo, d, c)
            implies exists|i: int| 0 <= i < out@.len() && #[trigger] local_of(out@[i], lo) == c by {
            assert(before(c, (1int, 1int, (d.2 - 1) as int)));
        }
        assert forall|x: Cell3| in_grid(d, x) && !occupied(s, lo, x) && #[trigger] gval(g2, d, x) != 0 && gval(g2, d, x) != AIR
            implies comes_out(out@, lo, x, gval(g2, d, x)) by {
            assert(in_box(d, x));
            assert(!exterior(s, lo, d, x));
            let i = choose|i: int| 0 <= i < out@.len() && #[trigger] local_of(out@[i], lo) == x;
            assert(out@[i].3 == gval(g2, d, x));
        }
        assert forall|i: int| 0 <= i < out@.len() && !occupied(s, lo, #[trigger] local_of(out@[i], lo))
            implies exists|dirs: Seq<int>| #[trigger] out_walk(out@, s, lo, local_of(out@[i], lo), out@[i].3, dirs) by {
            let c = local_of(out@[i], lo);
            assert(gval(g2, d, c) != 0);
            let dirs = choose|dirs: Seq<int>| #[trigger] grid_walk(g2, s, lo, d, c, gval(g2, d, c), dirs);
            lemma_walk_out(g2, out@, s, lo, d, c, gval(g2, d, c), dirs);
        }
    }
    out
}

/// Air never reaches a cell a surface voxel holds.
proof fn lemma_occupied_unreached(s: Seq<GridVoxel>, lo: Cell3, d: Cell3, c: Cell3, k: nat)
    requires
        occupied(s, lo, c),
        !occupied(s, lo, (0int, 0int, 0int)),
    ensures
        !reach(s, lo, d, c, k),
    decreases k,
{
    if k > 0 {
        lemma_occupied_unreached(s, lo, d, c, (k - 1) as nat);
    }
}

} // verus!
