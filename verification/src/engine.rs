use vstd::prelude::*;
use crate::octree::{Octree, Point, MAX_EDIT, MAX_NODES, lemma_material_range, in_target, grown, pt, world_bounded, voxel_count, edge, fits, in_cube, lemma_target_aligned, canonical, tidy,
    leaf_count, materials, lemma_count_of_world,
    Store, store, written_store, collapsed_tree, fresh_store};
use crate::types::{VoxelDelta, CubeEdit, WorldType, HistoryAction, VoxelEntry};
use std::collections::HashSet;

verus! {

// ---------------------------------------------------------------------------
// 3D Bresenham lines between grid cells.
// ---------------------------------------------------------------------------

/// A grid cell as three integers.
pub type Cell = (int, int, int);

pub open spec fn cell_of(a: [i32; 3]) -> Cell {
    (a[0] as int, a[1] as int, a[2] as int)
}

pub open spec fn abs_diff(a: int, b: int) -> int {
    if a > b {
        a - b
    } else {
        b - a
    }
}

/// The direction a coordinate moves in to get from `from` to `to`
/// (-1 when they are equal).
pub open spec fn sign_toward(from: int, to: int) -> int {
    if to > from {
        1
    } else {
        -1
    }
}

/// `c0` moved `k` cells in direction `s`.
pub open spec fn stepped(c0: int, s: int, k: int) -> int {
    if s > 0 {
        c0 + k
    } else {
        c0 - k
    }
}

/// A coordinate that follows the driving axis of a line, whose extents along
/// the driving axis and along this one are `major` and `minor`: before each
/// step the error term decides whether the coordinate moves one cell too.
/// Returns the coordinate and the error term after `k` steps.
pub open spec fn follow(c0: int, s: int, major: int, minor: int, k: nat) -> (int, int)
    decreases k,
{
    if k == 0 {
        (c0, 2 * minor - major)
    } else {
        let (c, e) = follow(c0, s, major, minor, (k - 1) as nat);
        if e >= 0 {
            (c + s, e - 2 * major + 2 * minor)
        } else {
            (c, e + 2 * minor)
        }
    }
}

/// The walk of the z coordinate when y drives the line: its error term is
/// lowered by the z extent rather than the y extent when it moves, so once
/// the term is nonnegative it stays so and z moves at every step.
pub open spec fn follow_skewed(c0: int, s: int, major: int, minor: int, k: nat) -> (int, int)
    decreases k,
{
    if k == 0 {
        (c0, 2 * minor - major)
    } else {
        let (c, e) = follow_skewed(c0, s, major, minor, (k - 1) as nat);
        if e >= 0 {
            (c + s, e)
        } else {
            (c, e + 2 * minor)
        }
    }
}

/// The axis that drives the line: x when its extent is the largest, else y
/// when its extent is, else z.
pub open spec fn major_axis(p0: Cell, p1: Cell) -> int {
    let dx = abs_diff(p0.0, p1.0);
    let dy = abs_diff(p0.1, p1.1);
    let dz = abs_diff(p0.2, p1.2);
    if dx >= dy && dx >= dz {
        0
    } else if dy >= dx && dy >= dz {
        1
    } else {
        2
    }
}

/// The number of steps of the line: its extent along the driving axis.
pub open spec fn line_steps(p0: Cell, p1: Cell) -> nat {
    let dx = abs_diff(p0.0, p1.0);
    let dy = abs_diff(p0.1, p1.1);
    let dz = abs_diff(p0.2, p1.2);
    if major_axis(p0, p1) == 0 {
        dx as nat
    } else if major_axis(p0, p1) == 1 {
        dy as nat
    } else {
        dz as nat
    }
}

/// The cell the walk from `p0` towards `p1` stands on after `k` steps.
pub open spec fn walk_cell(p0: Cell, p1: Cell, k: nat) -> Cell {
    let dx = abs_diff(p0.0, p1.0);
    let dy = abs_diff(p0.1, p1.1);
    let dz = abs_diff(p0.2, p1.2);
    let xs = sign_toward(p0.0, p1.0);
    let ys = sign_toward(p0.1, p1.1);
    let zs = sign_toward(p0.2, p1.2);
    if major_axis(p0, p1) == 0 {
        (stepped(p0.0, xs, k as int), follow(p0.1, ys, dx, dy, k).0, follow(p0.2, zs, dx, dz, k).0)
    } else if major_axis(p0, p1) == 1 {
        (follow(p0.0, xs, dy, dx, k).0, stepped(p0.1, ys, k as int), follow_skewed(p0.2, zs, dy, dz, k).0)
    } else {
        (follow(p0.0, xs, dz, dx, k).0, follow(p0.1, ys, dz, dy, k).0, stepped(p0.2, zs, k as int))
    }
}

/// The cells of the line from `p0` to `p1`: the cell of the walk before each
/// step, then `p1` itself.
pub open spec fn line_cells(p0: Cell, p1: Cell) -> Seq<Cell> {
    Seq::new(line_steps(p0, p1), |k: int| walk_cell(p0, p1, k as nat)).push(p1)
}

/// Two cells touch: they differ by at most one along every axis.
pub open spec fn adjacent(a: Cell, b: Cell) -> bool {
    abs_diff(a.0, b.0) <= 1 && abs_diff(a.1, b.1) <= 1 && abs_diff(a.2, b.2) <= 1
}

/// The line has one cell more than it has steps, starts at `p0`, ends at
/// `p1`, and its driving coordinate moves by one cell at every step.
pub proof fn lemma_line_ends(p0: Cell, p1: Cell)
    ensures
        line_cells(p0, p1).len() == line_steps(p0, p1) + 1,
        line_cells(p0, p1)[0] == p0,
        line_cells(p0, p1).last() == p1,
        forall|k: int| 0 <= k < line_steps(p0, p1) ==> {
            let c = #[trigger] line_cells(p0, p1)[k];
            if major_axis(p0, p1) == 0 {
                c.0 == stepped(p0.0, sign_toward(p0.0, p1.0), k)
            } else if major_axis(p0, p1) == 1 {
                c.1 == stepped(p0.1, sign_toward(p0.1, p1.1), k)
            } else {
                c.2 == stepped(p0.2, sign_toward(p0.2, p1.2), k)
            }
        },
{
    let cells = line_cells(p0, p1);
    if line_steps(p0, p1) == 0 {
        assert(cells[0] == p1);
    } else {
        assert(cells[0] == walk_cell(p0, p1, 0));
    }
}

/// A coordinate that follows the driving axis moves by at most one cell per step.
proof fn lemma_follow_step(c0: int, s: int, major: int, minor: int, k: nat)
    requires
        s == 1 || s == -1,
    ensures
        abs_diff(follow(c0, s, major, minor, k + 1).0, follow(c0, s, major, minor, k).0) <= 1,
        abs_diff(follow_skewed(c0, s, major, minor, k + 1).0, follow_skewed(c0, s, major, minor, k).0) <= 1,
{
}

/// Along the way, the error term of a following coordinate records how far
/// the coordinate has moved; after `major` steps it has moved `minor` cells.
proof fn lemma_follow_count(c0: int, s: int, major: int, minor: int, k: nat)
    requires
        s == 1 || s == -1,
        0 <= minor <= major,
        1 <= major,
        k <= major,
    ensures
        ({
            let (c, e) = follow(c0, s, major, minor, k);
            let t = if s > 0 { c - c0 } else { c0 - c };
            &&& 0 <= t <= k
            &&& e == 2 * minor * (k + 1) - major - 2 * major * t
            &&& -2 * major <= e - 2 * minor < 0
            &&& k == major ==> c == stepped(c0, s, minor)
        }),
    decreases k,
{
    if k > 0 {
        lemma_follow_count(c0, s, major, minor, (k - 1) as nat);
        let (cp, ep) = follow(c0, s, major, minor, (k - 1) as nat);
        let tp = if s > 0 { cp - c0 } else { c0 - cp };
        let (c, e) = follow(c0, s, major, minor, k);
        let t = if s > 0 { c - c0 } else { c0 - c };
        let km1 = (k - 1) as nat;
        assert(km1 + 1 == k);
        assert(ep == 2 * minor * (km1 + 1) - major - 2 * major * tp);
        if ep >= 0 {
            assert(c == cp + s && e == ep - 2 * major + 2 * minor);
            assert(t == tp + 1);
            assert(e == 2 * minor * (k + 1) - major - 2 * major * t) by (nonlinear_arith)
                requires
                    ep == 2 * minor * (km1 + 1) - major - 2 * major * tp,
                    km1 + 1 == k,
                    e == ep - 2 * major + 2 * minor,
                    t == tp + 1,
            ;
        } else {
            assert(c == cp && e == ep + 2 * minor);
            assert(t == tp);
            assert(e == 2 * minor * (k + 1) - major - 2 * major * t) by (nonlinear_arith)
                requires
                    ep == 2 * minor * (km1 + 1) - major - 2 * major * tp,
                    km1 + 1 == k,
                    e == ep + 2 * minor,
                    t == tp,
            ;
        }
    } else {
        let (c, e) = follow(c0, s, major, minor, k);
        let t = if s > 0 { c - c0 } else { c0 - c };
        assert(e == 2 * minor * (k + 1) - major - 2 * major * t) by (nonlinear_arith)
            requires
                k == 0,
                t == 0,
                e == 2 * minor - major,
        ;
    }
    let (c, e) = follow(c0, s, major, minor, k);
    let t = if s > 0 { c - c0 } else { c0 - c };
    assert(0 <= t <= k);
    assert(e == 2 * minor * (k + 1) - major - 2 * major * t);
    assert(-2 * major <= e - 2 * minor < 0);
    if k == major {
        assert(t == minor) by (nonlinear_arith)
            requires
                1 <= major,
                e == 2 * minor * (k + 1) - major - 2 * major * t,
                -2 * major <= e - 2 * minor < 0,
                k == major,
        ;
    }
}

/// A following coordinate stays between where it starts and where it ends.
proof fn lemma_follow_between(c0: int, s: int, major: int, minor: int, k: nat)
    requires
        s == 1 || s == -1,
        0 <= minor <= major,
        1 <= major,
        k <= major,
    ensures
        between(follow(c0, s, major, minor, k).0, c0, stepped(c0, s, minor)),
{
    lemma_follow_count(c0, s, major, minor, k);
    let (c, e) = follow(c0, s, major, minor, k);
    let t = if s > 0 { c - c0 } else { c0 - c };
    assert(t <= minor) by (nonlinear_arith)
        requires
            1 <= major,
            k <= major,
            0 <= minor,
            e == 2 * minor * (k + 1) - major - 2 * major * t,
            -2 * major <= e - 2 * minor,
    {
        assert(minor * k <= minor * major) by (nonlinear_arith)
            requires
                0 <= minor,
                k <= major,
        ;
        if t > minor {
            assert(major * t >= major * (minor + 1)) by (nonlinear_arith)
                requires
                    t >= minor + 1,
                    1 <= major,
            ;
        }
    }
}

/// The skewed walk moves at most one cell per step, always in direction `s`.
proof fn lemma_skewed_drift(c0: int, s: int, major: int, minor: int, k: nat)
    requires
        s == 1 || s == -1,
    ensures
        between(follow_skewed(c0, s, major, minor, k).0, c0, stepped(c0, s, k as int)),
    decreases k,
{
    if k > 0 {
        lemma_skewed_drift(c0, s, major, minor, (k - 1) as nat);
    }
}

/// Where the walk stands after `k` steps lies between its ends, but for z on
/// a line that y drives: that stays within `k` cells of `p0`, on the side of `p1`.
proof fn lemma_walk_box(p0: Cell, p1: Cell, k: nat)
    requires
        k <= line_steps(p0, p1),
    ensures
        between(walk_cell(p0, p1, k).0, p0.0, p1.0),
        between(walk_cell(p0, p1, k).1, p0.1, p1.1),
        major_axis(p0, p1) != 1 ==> between(walk_cell(p0, p1, k).2, p0.2, p1.2),
        major_axis(p0, p1) == 1 ==> between(walk_cell(p0, p1, k).2, p0.2,
            stepped(p0.2, sign_toward(p0.2, p1.2), k as int)),
        major_axis(p0, p1) == 1 && p0.2 == p1.2 ==> walk_cell(p0, p1, k).2 == p0.2,
{
    let dx = abs_diff(p0.0, p1.0);
    let dy = abs_diff(p0.1, p1.1);
    let dz = abs_diff(p0.2, p1.2);
    let xs = sign_toward(p0.0, p1.0);
    let ys = sign_toward(p0.1, p1.1);
    let zs = sign_toward(p0.2, p1.2);
    if k == 0 {
        return;
    }
    if major_axis(p0, p1) == 0 {
        lemma_follow_between(p0.1, ys, dx, dy, k);
        lemma_follow_between(p0.2, zs, dx, dz, k);
    } else if major_axis(p0, p1) == 1 {
        lemma_follow_between(p0.0, xs, dy, dx, k);
        lemma_skewed_drift(p0.2, zs, dy, dz, k);
        if dz == 0 {
            lemma_skewed_flat(p0.2, zs, dy, k);
        }
    } else {
        lemma_follow_between(p0.0, xs, dz, dx, k);
        lemma_follow_between(p0.1, ys, dz, dy, k);
    }
}

/// With no extent along z, the skewed walk never moves z.
proof fn lemma_skewed_flat(c0: int, s: int, major: int, k: nat)
    requires
        1 <= major,
    ensures
        follow_skewed(c0, s, major, 0, k) == (c0, -major),
    decreases k,
{
    if k > 0 {
        lemma_skewed_flat(c0, s, major, (k - 1) as nat);
    }
}

/// The walk reaches `p1` after its last step, unless y drives the line and
/// it has extent along z.
proof fn lemma_walk_reaches(p0: Cell, p1: Cell)
    requires
        line_steps(p0, p1) >= 1,
        !(major_axis(p0, p1) == 1 && p0.2 != p1.2),
    ensures
        walk_cell(p0, p1, line_steps(p0, p1)) == p1,
{
    let dx = abs_diff(p0.0, p1.0);
    let dy = abs_diff(p0.1, p1.1);
    let dz = abs_diff(p0.2, p1.2);
    let xs = sign_toward(p0.0, p1.0);
    let ys = sign_toward(p0.1, p1.1);
    let zs = sign_toward(p0.2, p1.2);
    let n = line_steps(p0, p1);
    if major_axis(p0, p1) == 0 {
        lemma_follow_count(p0.1, ys, dx, dy, n);
        lemma_follow_count(p0.2, zs, dx, dz, n);
    } else if major_axis(p0, p1) == 1 {
        lemma_follow_count(p0.0, xs, dy, dx, n);
        lemma_skewed_flat(p0.2, zs, dy, n);
    } else {
        lemma_follow_count(p0.0, xs, dz, dx, n);
        lemma_follow_count(p0.1, ys, dz, dy, n);
    }
}

/// Consecutive cells of the line touch, so the line is a connected path of
/// cells from `p0` to `p1`, except where y drives the line and it has extent
/// along z: there z drifts and the last cell may jump back to `p1`.
pub proof fn lemma_line_connected(p0: Cell, p1: Cell)
    requires
        !(major_axis(p0, p1) == 1 && p0.2 != p1.2),
    ensures
        forall|k: int| 0 <= k < line_steps(p0, p1) ==> adjacent(#[trigger] line_cells(p0, p1)[k], line_cells(p0, p1)[k + 1]),
{
    let cells = line_cells(p0, p1);
    let n = line_steps(p0, p1);
    let dx = abs_diff(p0.0, p1.0);
    let dy = abs_diff(p0.1, p1.1);
    let dz = abs_diff(p0.2, p1.2);
    let xs = sign_toward(p0.0, p1.0);
    let ys = sign_toward(p0.1, p1.1);
    let zs = sign_toward(p0.2, p1.2);
    assert forall|k: int| 0 <= k < n implies adjacent(#[trigger] cells[k], cells[k + 1]) by {
        let kn = k as nat;
        lemma_follow_step(p0.0, xs, dy, dx, kn);
        lemma_follow_step(p0.0, xs, dz, dx, kn);
        lemma_follow_step(p0.1, ys, dx, dy, kn);
        lemma_follow_step(p0.1, ys, dz, dy, kn);
        lemma_follow_step(p0.2, zs, dx, dz, kn);
        lemma_follow_step(p0.2, zs, dy, dz, kn);
        assert(cells[k] == walk_cell(p0, p1, kn));
        if k + 1 < n {
            assert(cells[k + 1] == walk_cell(p0, p1, kn + 1));
        } else {
            lemma_walk_reaches(p0, p1);
            assert(cells[k + 1] == p1);
        }
    }
}

/// `v` lies between `a` and `b`, either way round.
pub open spec fn between(v: int, a: int, b: int) -> bool {
    (a <= v && v <= b) || (b <= v && v <= a)
}

/// From `a` to `b` a coordinate stays or moves one cell in direction `s`.
pub open spec fn toward(a: int, b: int, s: int) -> bool {
    b == a || b == a + s
}

/// Apart from lines that y drives with extent along z (there z drifts past
/// `p1`), every cell of the line lies in the box spanned by its ends, and
/// from each cell to the next every coordinate stays or moves one cell
/// towards `p1`.
pub proof fn lemma_line_monotone(p0: Cell, p1: Cell)
    requires
        !(major_axis(p0, p1) == 1 && p0.2 != p1.2),
    ensures
        forall|k: int| 0 <= k < line_cells(p0, p1).len() ==> {
            let c = #[trigger] line_cells(p0, p1)[k];
            between(c.0, p0.0, p1.0) && between(c.1, p0.1, p1.1) && between(c.2, p0.2, p1.2)
        },
        forall|k: int| 0 <= k < line_steps(p0, p1) ==> {
            let a = #[trigger] line_cells(p0, p1)[k];
            let b = line_cells(p0, p1)[k + 1];
            &&& toward(a.0, b.0, sign_toward(p0.0, p1.0))
            &&& toward(a.1, b.1, sign_toward(p0.1, p1.1))
            &&& toward(a.2, b.2, sign_toward(p0.2, p1.2))
        },
{
    let cells = line_cells(p0, p1);
    let n = line_steps(p0, p1);
    if n >= 1 {
        lemma_walk_reaches(p0, p1);
    }
    assert forall|k: int| 0 <= k < cells.len() implies {
        let c = #[trigger] cells[k];
        between(c.0, p0.0, p1.0) && between(c.1, p0.1, p1.1) && between(c.2, p0.2, p1.2)
    } by {
        if k < n {
            lemma_walk_box(p0, p1, k as nat);
        }
    }
    assert forall|k: int| 0 <= k < n implies {
        let a = #[trigger] cells[k];
        let b = cells[k + 1];
        &&& toward(a.0, b.0, sign_toward(p0.0, p1.0))
        &&& toward(a.1, b.1, sign_toward(p0.1, p1.1))
        &&& toward(a.2, b.2, sign_toward(p0.2, p1.2))
    } by {
        let kn = k as nat;
        assert(cells[k] == walk_cell(p0, p1, kn));
        assert(cells[k + 1] == walk_cell(p0, p1, kn + 1));
        let dy = abs_diff(p0.1, p1.1);
        if major_axis(p0, p1) == 1 {
            lemma_skewed_flat(p0.2, sign_toward(p0.2, p1.2), dy, kn);
            lemma_skewed_flat(p0.2, sign_toward(p0.2, p1.2), dy, kn + 1);
        }
    }
}

/// A line fits `i32` arithmetic when its extents are at most `2^29` and,
/// where y drives it, z can drift as many cells as the line has steps
/// towards `p1` without leaving `i32`.
pub proof fn lemma_line_fits(p0: [i32; 3], p1: [i32; 3])
    requires
        abs_diff(p0[0] as int, p1[0] as int) <= 0x2000_0000,
        abs_diff(p0[1] as int, p1[1] as int) <= 0x2000_0000,
        abs_diff(p0[2] as int, p1[2] as int) <= 0x2000_0000,
        major_axis(cell_of(p0), cell_of(p1)) == 1 ==> i32::MIN <= stepped(p0[2] as int,
            sign_toward(p0[2] as int, p1[2] as int), abs_diff(p0[1] as int, p1[1] as int)) <= i32::MAX,
    ensures
        line_fits(p0, p1),
{
    let c0 = cell_of(p0);
    let c1 = cell_of(p1);
    assert forall|k: nat| k <= line_steps(c0, c1) implies cell_fits_i32(#[trigger] walk_cell(c0, c1, k)) by {
        lemma_walk_box(c0, c1, k);
    }
}

/// The cell's coordinates are `i32` values.
pub open spec fn cell_fits_i32(c: Cell) -> bool {
    &&& i32::MIN <= c.0 <= i32::MAX
    &&& i32::MIN <= c.1 <= i32::MAX
    &&& i32::MIN <= c.2 <= i32::MAX
}

/// The line from `p0` to `p1` can be walked in `i32` arithmetic: its extent
/// along each axis is at most `2^29`, and every cell the walk stands on,
/// the one after its last step included, has `i32` coordinates.
pub open spec fn line_fits(p0: [i32; 3], p1: [i32; 3]) -> bool {
    let c0 = cell_of(p0);
    let c1 = cell_of(p1);
    &&& abs_diff(c0.0, c1.0) <= 0x2000_0000
    &&& abs_diff(c0.1, c1.1) <= 0x2000_0000
    &&& abs_diff(c0.2, c1.2) <= 0x2000_0000
    &&& forall|k: nat| k <= line_steps(c0, c1) ==> cell_fits_i32(#[trigger] walk_cell(c0, c1, k))
}

/// The cells of the 3D Bresenham line from `p0` to `p1`.
pub fn bresenham_3d(p0: [i32; 3], p1: [i32; 3]) -> (points: Vec<[i32; 3]>)
    requires
        line_fits(p0, p1),
    ensures
        points@.len() == line_cells(cell_of(p0), cell_of(p1)).len(),
        forall|j: int| 0 <= j < points@.len() ==> #[trigger] cell_of(points@[j]) == line_cells(cell_of(p0), cell_of(p1))[j],
{
    let ghost c0 = cell_of(p0);
    let ghost c1 = cell_of(p1);
    let mut points: Vec<[i32; 3]> = Vec::new();
    let mut x = p0[0];
    let mut y = p0[1];
    let mut z = p0[2];
    let x2 = p1[0];
    let y2 = p1[1];
    let z2 = p1[2];
    let dx = if x2 > x { x2 - x } else { x - x2 };
    let dy = if y2 > y { y2 - y } else { y - y2 };
    let dz = if z2 > z { z2 - z } else { z - z2 };
    let xs: i32 = if x2 > x { 1 } else { -1 };
    let ys: i32 = if y2 > y { 1 } else { -1 };
    let zs: i32 = if z2 > z { 1 } else { -1 };
    let ghost mut k: nat = 0;
    if dx >= dy && dx >= dz {
        let mut p1_err = 2 * dy - dx;
        let mut p2_err = 2 * dz - dx;
        while x != x2
            invariant
                c0 == cell_of(p0),
                c1 == cell_of(p1),
                x2 == p1[0] && y2 == p1[1] && z2 == p1[2],
                line_fits(p0, p1),
                dx == abs_diff(c0.0, c1.0) && dy == abs_diff(c0.1, c1.1) && dz == abs_diff(c0.2, c1.2),
                xs == sign_toward(c0.0, c1.0) && ys == sign_toward(c0.1, c1.1) && zs == sign_toward(c0.2, c1.2),
                major_axis(c0, c1) == 0,
                k <= dx,
                x == stepped(c0.0, xs as int, k as int),
                (y as int, p1_err as int) == follow(c0.1, ys as int, dx as int, dy as int, k),
                (z as int, p2_err as int) == follow(c0.2, zs as int, dx as int, dz as int, k),
                -2 * dx <= p1_err <= 2 * dy,
                -2 * dx <= p2_err <= 2 * dz,
                abs_diff(y as int, c0.1) <= k,
                abs_diff(z as int, c0.2) <= k,
                points@.len() == k,
                forall|j: int| 0 <= j < k ==> #[trigger] cell_of(points@[j]) == walk_cell(c0, c1, j as nat),
            decreases dx - k,
        {
            points.push([x, y, z]);
            proof {
                let w = walk_cell(c0, c1, (k + 1) as nat);
                assert(cell_fits_i32(w));
            }
            x = x + xs;
            if p1_err >= 0 {
                y = y + ys;
                p1_err = p1_err - 2 * dx;
            }
            if p2_err >= 0 {
                z = z + zs;
                p2_err = p2_err - 2 * dx;
            }
            p1_err = p1_err + 2 * dy;
            p2_err = p2_err + 2 * dz;
            proof {
                k = k + 1;
            }
        }
    } else if dy >= dx && dy >= dz {
        let mut p1_err = 2 * dx - dy;
        let mut p2_err = 2 * dz - dy;
        while y != y2
            invariant
                c0 == cell_of(p0),
                c1 == cell_of(p1),
                x2 == p1[0] && y2 == p1[1] && z2 == p1[2],
                line_fits(p0, p1),
                dx == abs_diff(c0.0, c1.0) && dy == abs_diff(c0.1, c1.1) && dz == abs_diff(c0.2, c1.2),
                xs == sign_toward(c0.0, c1.0) && ys == sign_toward(c0.1, c1.1) && zs == sign_toward(c0.2, c1.2),
                major_axis(c0, c1) == 1,
                k <= dy,
                y == stepped(c0.1, ys as int, k as int),
                (x as int, p1_err as int) == follow(c0.0, xs as int, dy as int, dx as int, k),
                (z as int, p2_err as int) == follow_skewed(c0.2, zs as int, dy as int, dz as int, k),
                -2 * dy <= p1_err <= 2 * dx,
                -dy <= p2_err <= 2 * dz,
                abs_diff(x as int, c0.0) <= k,
                abs_diff(z as int, c0.2) <= k,
                points@.len() == k,
                forall|j: int| 0 <= j < k ==> #[trigger] cell_of(points@[j]) == walk_cell(c0, c1, j as nat),
            decreases dy - k,
        {
            points.push([x, y, z]);
            proof {
                let w = walk_cell(c0, c1, (k + 1) as nat);
                assert(cell_fits_i32(w));
            }
            y = y + ys;
            if p1_err >= 0 {
                x = x + xs;
                p1_err = p1_err - 2 * dy;
            }
            if p2_err >= 0 {
                z = z + zs;
                p2_err = p2_err - 2 * dz;
            }
            p1_err = p1_err + 2 * dx;
            p2_err = p2_err + 2 * dz;
            proof {
                k = k + 1;
            }
        }
    } else {
        let mut p1_err = 2 * dy - dz;
        let mut p2_err = 2 * dx - dz;
        while z != z2
            invariant
                c0 == cell_of(p0),
                c1 == cell_of(p1),
                x2 == p1[0] && y2 == p1[1] && z2 == p1[2],
                line_fits(p0, p1),
                dx == abs_diff(c0.0, c1.0) && dy == abs_diff(c0.1, c1.1) && dz == abs_diff(c0.2, c1.2),
                xs == sign_toward(c0.0, c1.0) && ys == sign_toward(c0.1, c1.1) && zs == sign_toward(c0.2, c1.2),
                major_axis(c0, c1) == 2,
                k <= dz,
                z == stepped(c0.2, zs as int, k as int),
                (y as int, p1_err as int) == follow(c0.1, ys as int, dz as int, dy as int, k),
                (x as int, p2_err as int) == follow(c0.0, xs as int, dz as int, dx as int, k),
                -2 * dz <= p1_err <= 2 * dy,
                -2 * dz <= p2_err <= 2 * dx,
                abs_diff(x as int, c0.0) <= k,
                abs_diff(y as int, c0.1) <= k,
                points@.len() == k,
                forall|j: int| 0 <= j < k ==> #[trigger] cell_of(points@[j]) == walk_cell(c0, c1, j as nat),
            decreases dz - k,
        {
            points.push([x, y, z]);
            proof {
                let w = walk_cell(c0, c1, (k + 1) as nat);
                assert(cell_fits_i32(w));
            }
            z = z + zs;
            if p1_err >= 0 {
                y = y + ys;
                p1_err = p1_err - 2 * dz;
            }
            if p2_err >= 0 {
                x = x + xs;
                p2_err = p2_err - 2 * dz;
            }
            p1_err = p1_err + 2 * dy;
            p2_err = p2_err + 2 * dx;
            proof {
                k = k + 1;
            }
        }
    }
    points.push([x2, y2, z2]);
    proof {
        let cells = line_cells(c0, c1);
        assert(k == line_steps(c0, c1));
        assert forall|j: int| 0 <= j < points@.len() implies #[trigger] cell_of(points@[j]) == cells[j] by {
            if j < k {
                assert(cells[j] == walk_cell(c0, c1, j as nat));
            }
        }
    }
    points
}


// ---------------------------------------------------------------------------
// Replaying edits.
// ---------------------------------------------------------------------------

/// A cube to write: minimum corner, edge and material, in grid units.
pub type Edit = ([i64; 3], i64, u16);

/// An edit the octree can take: an edge and a corner within `MAX_EDIT`.
pub open spec fn edit_ok(e: Edit) -> bool {
    &&& 1 <= e.1 <= MAX_EDIT
    &&& -MAX_EDIT <= e.0[0] <= MAX_EDIT
    &&& -MAX_EDIT <= e.0[1] <= MAX_EDIT
    &&& -MAX_EDIT <= e.0[2] <= MAX_EDIT
}

/// The world cube after the first `k` edits, starting from the cube at
/// `min` of the given level: each edit grows it until it holds its cube.
pub open spec fn world_after(min: Point, level: nat, edits: Seq<Edit>, k: nat) -> (Point, nat)
    decreases k,
{
    if k == 0 {
        (min, level)
    } else {
        let w = world_after(min, level, edits, (k - 1) as nat);
        grown(w.0, w.1, pt(edits[k - 1].0), edits[k - 1].1 as int)
    }
}

/// What point `p` holds after the first `k` edits, starting from `base`:
/// the material of the last of them whose target cell (in the world as it
/// stood after that edit) holds `p`, else what `base` had there.
pub open spec fn painted(base: spec_fn(Point) -> int, min: Point, level: nat, edits: Seq<Edit>, k: nat, p: Point) -> int
    decreases k,
{
    if k == 0 {
        base(p)
    } else {
        let w = world_after(min, level, edits, k);
        let e = edits[k - 1];
        if in_target(w.0, w.1, pt(e.0), e.1 as int, p) {
            e.2 as int
        } else {
            painted(base, min, level, edits, (k - 1) as nat, p)
        }
    }
}


/// The room the node array needs for `count` more edits.
pub open spec fn room_for(octree: Octree, count: int) -> bool {
    octree.nodes@.len() + 848 * count + 1024 < MAX_NODES
}

/// Writes the edits into the octree one after the other.
fn paint(octree: &mut Octree, edits: &[Edit], auto_collapse: bool)
    requires
        old(octree).wf(),
        world_bounded(*old(octree)),
        forall|k: int| 0 <= k < edits@.len() ==> edit_ok(#[trigger] edits@[k]),
        room_for(*old(octree), edits@.len() as int),
    ensures
        final(octree).wf(),
        world_bounded(*final(octree)),
        (final(octree).world_min_point(), final(octree).root_level())
            == world_after(old(octree).world_min_point(), old(octree).root_level(), edits@, edits@.len()),
        forall|p: Point| #[trigger] final(octree).material_at(p) == painted(|q: Point| old(octree).material_at(q),
            old(octree).world_min_point(), old(octree).root_level(), edits@, edits@.len(), p),
        final(octree).nodes@.len() <= old(octree).nodes@.len() + 848 * edits@.len(),
        final(octree).root_index == old(octree).root_index,
        final(octree).total_voxels == old(octree).total_voxels,
        store(*final(octree)) == painted_store(store(*old(octree)), old(octree).world_min_point(),
            old(octree).root_level(), edits@, edits@.len(), auto_collapse),
{
    let ghost s0 = *octree;
    let ghost base = |q: Point| s0.material_at(q);
    let mut i: usize = 0;
    while i < edits.len()
        invariant
            i <= edits@.len(),
            octree.wf(),
            world_bounded(*octree),
            forall|k: int| 0 <= k < edits@.len() ==> edit_ok(#[trigger] edits@[k]),
            room_for(*octree, edits@.len() - i),
            octree.nodes@.len() <= s0.nodes@.len() + 848 * i,
            (octree.world_min_point(), octree.root_level())
                == world_after(s0.world_min_point(), s0.root_level(), edits@, i as nat),
            forall|p: Point| #[trigger] octree.material_at(p) == painted(base, s0.world_min_point(), s0.root_level(),
                edits@, i as nat, p),
            octree.root_index == s0.root_index,
            octree.total_voxels == s0.total_voxels,
            base == (|q: Point| s0.material_at(q)),
            store(*octree) == painted_store(store(s0), s0.world_min_point(), s0.root_level(), edits@, i as nat,
                auto_collapse),
        decreases edits@.len() - i,
    {
        let e = edits[i];
        assert(edit_ok(edits@[i as int]));
        let ghost before = *octree;
        octree.insert_cube_world(e.0, e.1, e.2, auto_collapse);
        proof {
            assert(edits@[i as int] == e);
            assert forall|p: Point| #[trigger] octree.material_at(p) == painted(base, s0.world_min_point(),
                s0.root_level(), edits@, (i + 1) as nat, p) by {
                assert(before.material_at(p) == painted(base, s0.world_min_point(), s0.root_level(), edits@, i as nat, p));
            }
        }
        i = i + 1;
    }
}

/// The store after the first `k` edits written one after the other, each
/// into the world as the edits before it left it.
pub open spec fn painted_store(h: Store, min: Point, level: nat, edits: Seq<Edit>, k: nat, ac: bool) -> Store
    decreases k,
{
    if k == 0 {
        h
    } else {
        let w = world_after(min, level, edits, (k - 1) as nat);
        let e = edits[k - 1];
        written_store(painted_store(h, min, level, edits, (k - 1) as nat, ac), w.0, w.1, pt(e.0), e.1 as int, e.2, ac)
    }
}

/// The edits a list of deltas makes: each delta's cell with its new material
/// (`use_new`) or its old one.
pub open spec fn delta_edits(deltas: Seq<VoxelDelta>, use_new: bool) -> Seq<Edit> {
    Seq::new(deltas.len(), |k: int| (deltas[k].pos, deltas[k].size,
        if use_new { deltas[k].new_material } else { deltas[k].old_material }))
}

/// Writes each delta's new material (`use_new`) or old one back into its
/// cell, then tidies the tree and recounts its voxels. A single delta is
/// written with collapsing on the way up; several are written plainly and
/// the whole tree is collapsed afterwards.
pub fn apply_deltas(octree: &mut Octree, deltas: &[VoxelDelta], use_new: bool)
    requires
        old(octree).wf(),
        world_bounded(*old(octree)),
        forall|k: int| 0 <= k < deltas@.len() ==> edit_ok(#[trigger] delta_edits(deltas@, use_new)[k]),
        room_for(*old(octree), deltas@.len() as int),
    ensures
        final(octree).wf(),
        world_bounded(*final(octree)),
        (final(octree).world_min_point(), final(octree).root_level()) == world_after(old(octree).world_min_point(),
            old(octree).root_level(), delta_edits(deltas@, use_new), deltas@.len()),
        forall|p: Point| #[trigger] final(octree).material_at(p) == painted(|q: Point| old(octree).material_at(q),
            old(octree).world_min_point(), old(octree).root_level(), delta_edits(deltas@, use_new), deltas@.len(), p),
        deltas@.len() == 0 ==> *final(octree) == *old(octree),
        deltas@.len() > 0 ==> final(octree).total_voxels == voxel_count(final(octree).nodes@, 0, final(octree).root_level()),
        deltas@.len() == 1 ==> store(*final(octree)) == painted_store(store(*old(octree)),
            old(octree).world_min_point(), old(octree).root_level(), delta_edits(deltas@, use_new), 1, true),
        deltas@.len() > 1 ==> store(*final(octree)) == collapsed_tree(painted_store(store(*old(octree)),
            old(octree).world_min_point(), old(octree).root_level(), delta_edits(deltas@, use_new), deltas@.len(), false),
            0, final(octree).root_level()).0,
        deltas@.len() > 1 ==> canonical(final(octree).nodes@, 0, final(octree).root_level())
            && tidy(final(octree).nodes@, 0, final(octree).root_level())
            && final(octree).total_voxels == leaf_count(materials(*final(octree)), final(octree).world_min_point(),
                final(octree).root_level()),
        final(octree).nodes@.len() <= old(octree).nodes@.len() + 848 * deltas@.len(),
{
    if deltas.len() == 0 {
        return;
    }
    let ghost s0 = *octree;
    let mut edits: Vec<Edit> = Vec::new();
    let mut i: usize = 0;
    while i < deltas.len()
        invariant
            i <= deltas@.len(),
            edits@ == delta_edits(deltas@, use_new).take(i as int),
        decreases deltas@.len() - i,
    {
        let d = deltas[i];
        let mat = if use_new { d.new_material } else { d.old_material };
        edits.push((d.pos, d.size, mat));
        i = i + 1;
        proof {
            assert(edits@ =~= delta_edits(deltas@, use_new).take(i as int));
        }
    }
    assert(edits@ =~= delta_edits(deltas@, use_new));
    if deltas.len() == 1 {
        paint(octree, edits.as_slice(), true);
    } else {
        paint(octree, edits.as_slice(), false);
        let root = octree.root_index as usize;
        octree.collapse(root);
    }
    let ghost painted_state = *octree;
    octree.recalculate_voxel_count();
    proof {
        let b = |q: Point| s0.material_at(q);
        assert forall|p: Point| #[trigger] octree.material_at(p) == painted(b, s0.world_min_point(), s0.root_level(),
            delta_edits(deltas@, use_new), deltas@.len(), p) by {
            assert(octree.material_at(p) == painted_state.material_at(p));
        }
        if deltas@.len() > 1 {
            lemma_count_of_world(*octree);
        }
    }
}


// ---------------------------------------------------------------------------
// World generation.
// ---------------------------------------------------------------------------

/// Grid units per world unit: terrain is built of cubes one world unit wide.
pub const TERRAIN_CELL: i64 = 64;

/// The columns of terrain a generator fills: a 128 x 128 square centred on
/// the origin, or 96 x 96 for the floating islands.
pub open spec fn column_side(wt: WorldType) -> int {
    match wt {
        WorldType::Empty => 0,
        WorldType::FloatingIslands => 96,
        _ => 128,
    }
}

/// The number of unit cubes a generator considers in column `c`.
pub open spec fn column_len(wt: WorldType, heights: Seq<i32>, c: int) -> int {
    match wt {
        WorldType::Empty => 0,
        WorldType::Flat => 3,
        WorldType::Hills => if heights[c] + 5 > 0 { heights[c] + 5 } else { 0 },
        WorldType::Mountains => if heights[c] + 7 > 0 { heights[c] + 7 } else { 0 },
        WorldType::FloatingIslands => 32,
    }
}

/// The lowest cube of a column.
pub open spec fn column_floor(wt: WorldType) -> int {
    match wt {
        WorldType::Flat => -2,
        WorldType::Hills => -4,
        WorldType::Mountains => -6,
        _ => 0,
    }
}

/// The material of the cube at height `y` of column `c`, if the generator
/// places one: grass on top of stone, snow from height 18 up in the
/// mountains, grass for every solid cell of the islands.
pub open spec fn terrain_material(wt: WorldType, heights: Seq<i32>, solid: Seq<bool>, c: int, y: int) -> Option<u16> {
    match wt {
        WorldType::Empty => None,
        WorldType::Flat => Some(if y == 0 { 2u16 } else { 1u16 }),
        WorldType::Hills => Some(if y == heights[c] { 2u16 } else { 1u16 }),
        WorldType::Mountains => Some(if y >= 18 { 3u16 } else if y == heights[c] { 2u16 } else { 1u16 }),
        WorldType::FloatingIslands => if solid[c * 32 + y] { Some(2u16) } else { None },
    }
}

/// The unit cube at world cell `(x, y, z)` with material `m`.
pub open spec fn unit_cube(x: int, y: int, z: int, m: u16) -> Edit {
    ([(x * 64) as i64, (y * 64) as i64, (z * 64) as i64], 64i64, m)
}

/// The cubes of column `c` among its first `j` candidates, bottom up.
pub open spec fn column_cubes(wt: WorldType, heights: Seq<i32>, solid: Seq<bool>, c: int, j: nat) -> Seq<Edit>
    decreases j,
{
    if j == 0 {
        Seq::empty()
    } else {
        let prev = column_cubes(wt, heights, solid, c, (j - 1) as nat);
        let half = column_side(wt) / 2;
        let y = column_floor(wt) + j - 1;
        match terrain_material(wt, heights, solid, c, y) {
            Some(m) => prev.push(unit_cube(c / column_side(wt) - half, y, c % column_side(wt) - half, m)),
            None => prev,
        }
    }
}

/// The cubes of the whole terrain, column by column (x outer, z inner).
pub open spec fn terrain_plan(wt: WorldType, heights: Seq<i32>, solid: Seq<bool>) -> Seq<Edit> {
    Seq::new((column_side(wt) * column_side(wt)) as nat, |c: int|
        column_cubes(wt, heights, solid, c, column_len(wt, heights, c) as nat)).flatten()
}

/// What the generator needs: a height per column for hills and mountains,
/// a solidity per cell for the islands, heights within 64 cells of the ground.
pub open spec fn terrain_inputs_ok(wt: WorldType, heights: Seq<i32>, solid: Seq<bool>) -> bool {
    &&& (wt == WorldType::Hills || wt == WorldType::Mountains) ==> {
        &&& heights.len() == 128 * 128
        &&& forall|c: int| 0 <= c < heights.len() ==> -64 <= #[trigger] heights[c] <= 64
    }
    &&& wt == WorldType::FloatingIslands ==> solid.len() == 96 * 96 * 32
}

/// The unit cubes of a generated terrain, in the order they are placed:
/// columns with x outermost and z inside, each column bottom up.
pub fn terrain_edits(world_type: WorldType, heights: &[i32], solid: &[bool]) -> (edits: Vec<Edit>)
    requires
        terrain_inputs_ok(world_type, heights@, solid@),
    ensures
        edits@ == terrain_plan(world_type, heights@, solid@),
        edits@.len() <= 128 * 128 * 71,
        forall|k: int| 0 <= k < edits@.len() ==> edit_ok(#[trigger] edits@[k]),
{
    let ghost wt = world_type;
    let ghost hs = heights@;
    let ghost so = solid@;
    let ghost col = |c: int| column_cubes(wt, hs, so, c, column_len(wt, hs, c) as nat);
    let mut edits: Vec<Edit> = Vec::new();
    let side: i64 = match world_type {
        WorldType::Empty => 0,
        WorldType::FloatingIslands => 96,
        _ => 128,
    };
    let half = side / 2;
    let floor: i64 = match world_type {
        WorldType::Flat => -2,
        WorldType::Hills => -4,
        WorldType::Mountains => -6,
        _ => 0,
    };
    let mut x = -half;
    while x < half
        invariant
            side as int == column_side(wt),
            half == side / 2,
            floor as int == column_floor(wt),
            wt == world_type,
            hs == heights@,
            so == solid@,
            terrain_inputs_ok(wt, hs, so),
            -half <= x <= half,
            col == (|c: int| column_cubes(wt, hs, so, c, column_len(wt, hs, c) as nat)),
            edits@ == Seq::new(((x + half) * side) as nat, col).flatten(),
            edits@.len() <= (x + half) * side * 71,
            forall|k: int| 0 <= k < edits@.len() ==> edit_ok(#[trigger] edits@[k]),
        decreases half - x,
    {
        let mut z = -half;
        while z < half
            invariant
                side as int == column_side(wt),
                half == side / 2,
                side > 0,
                floor as int == column_floor(wt),
                wt == world_type,
                hs == heights@,
                so == solid@,
                terrain_inputs_ok(wt, hs, so),
                -half <= x < half,
                -half <= z <= half,
                col == (|c: int| column_cubes(wt, hs, so, c, column_len(wt, hs, c) as nat)),
                edits@ == Seq::new(((x + half) * side + (z + half)) as nat, col).flatten(),
                edits@.len() <= ((x + half) * side + (z + half)) * 71,
                forall|k: int| 0 <= k < edits@.len() ==> edit_ok(#[trigger] edits@[k]),
            decreases half - z,
        {
            let c = ((x + half) * side + (z + half)) as usize;
            let ghost prefix = edits@;
            let count: i64 = match world_type {
                WorldType::Empty => 0,
                WorldType::Flat => 3,
                WorldType::Hills => if heights[c] as i64 + 5 > 0 { heights[c] as i64 + 5 } else { 0 },
                WorldType::Mountains => if heights[c] as i64 + 7 > 0 { heights[c] as i64 + 7 } else { 0 },
                WorldType::FloatingIslands => 32,
            };
            let mut j: i64 = 0;
            while j < count
                invariant
                    side as int == column_side(wt),
                    half == side / 2,
                    side > 0,
                    floor as int == column_floor(wt),
                    wt == world_type,
                    hs == heights@,
                    so == solid@,
                    terrain_inputs_ok(wt, hs, so),
                    -half <= x < half,
                    -half <= z < half,
                    c as int == (x + half) * side + (z + half),
                    count == column_len(wt, hs, c as int),
                    0 <= count <= 71,
                    0 <= j <= count,
                    edits@ == prefix + column_cubes(wt, hs, so, c as int, j as nat),
                    prefix.len() <= ((x + half) * side + (z + half)) * 71,
                    edits@.len() <= prefix.len() + j,
                    forall|k: int| 0 <= k < edits@.len() ==> edit_ok(#[trigger] edits@[k]),
                decreases count - j,
            {
                let y = floor + j;
                let cell: Option<u16> = match world_type {
                    WorldType::Empty => None,
                    WorldType::Flat => Some(if y == 0 { 2u16 } else { 1u16 }),
                    WorldType::Hills => Some(if y == heights[c] as i64 { 2u16 } else { 1u16 }),
                    WorldType::Mountains => Some(if y >= 18 { 3u16 } else if y == heights[c] as i64 { 2u16 } else { 1u16 }),
                    WorldType::FloatingIslands => if solid[c * 32 + y as usize] { Some(2u16) } else { None },
                };
                proof {
                    assert(c as int / side as int == x + half) by (nonlinear_arith)
                        requires
                            c as int == (x + half) * side + (z + half),
                            0 <= z + half < side,
                            side > 0,
                    ;
                    assert(c as int % side as int == z + half) by (nonlinear_arith)
                        requires
                            c as int == (x + half) * side + (z + half),
                            0 <= z + half < side,
                            side > 0,
                    ;
                }
                if let Some(m) = cell {
                    edits.push(([x * 64, y * 64, z * 64], 64, m));
                }
                j = j + 1;
                proof {
                    assert(edits@ =~= prefix + column_cubes(wt, hs, so, c as int, j as nat));
                }
            }
            proof {
                let n = ((x + half) * side + (z + half)) as nat;
                assert(Seq::new(n + 1, col) =~= Seq::new(n, col).push(col(n as int)));
                Seq::new(n, col).lemma_flatten_push(col(n as int));
            }
            z = z + 1;
        }
        x = x + 1;
    }
    edits
}


/// The edits of a list of cubes.
pub open spec fn cube_edits(cubes: Seq<CubeEdit>) -> Seq<Edit> {
    Seq::new(cubes.len(), |k: int| (cubes[k].pos, cubes[k].size, cubes[k].material))
}

/// A fresh world of the given type: its terrain (built from `heights` or
/// `solid` where the type needs them), then `edits` on top, the tree
/// collapsed and its voxels counted.
pub fn generate_world_terrain(world_type: WorldType, heights: &[i32], solid: &[bool], edits: &[CubeEdit]) -> (octree: Octree)
    requires
        terrain_inputs_ok(world_type, heights@, solid@),
        edits@.len() <= 1_000_000,
        forall|k: int| 0 <= k < edits@.len() ==> edit_ok(#[trigger] cube_edits(edits@)[k]),
    ensures
        octree.wf(),
        world_bounded(octree),
        forall|p: Point| #[trigger] octree.material_at(p) == painted(|q: Point| 0int,
            (crate::octree::INITIAL_WORLD_MIN as int, crate::octree::INITIAL_WORLD_MIN as int,
                crate::octree::INITIAL_WORLD_MIN as int), 15, terrain_plan(world_type, heights@, solid@)
                + cube_edits(edits@), (terrain_plan(world_type, heights@, solid@) + cube_edits(edits@)).len(), p),
        octree.total_voxels == voxel_count(octree.nodes@, 0, octree.root_level()),
        canonical(octree.nodes@, 0, octree.root_level()),
        tidy(octree.nodes@, 0, octree.root_level()),
        (octree.world_min_point(), octree.root_level()) == world_after((crate::octree::INITIAL_WORLD_MIN as int,
            crate::octree::INITIAL_WORLD_MIN as int, crate::octree::INITIAL_WORLD_MIN as int), 15,
            terrain_plan(world_type, heights@, solid@) + cube_edits(edits@),
            (terrain_plan(world_type, heights@, solid@) + cube_edits(edits@)).len()),
        octree.total_voxels == leaf_count(materials(octree), octree.world_min_point(), octree.root_level()),
        store(octree) == collapsed_tree(painted_store(fresh_store(), (crate::octree::INITIAL_WORLD_MIN as int,
            crate::octree::INITIAL_WORLD_MIN as int, crate::octree::INITIAL_WORLD_MIN as int), 15,
            terrain_plan(world_type, heights@, solid@) + cube_edits(edits@),
            (terrain_plan(world_type, heights@, solid@) + cube_edits(edits@)).len(), false), 0, octree.root_level()).0,
{
    let mut octree = Octree::new();
    let plan = terrain_edits(world_type, heights, solid);
    let mut all: Vec<Edit> = plan;
    let ghost plan_seq = all@;
    let mut i: usize = 0;
    while i < edits.len()
        invariant
            i <= edits@.len(),
            all@ == plan_seq + cube_edits(edits@).take(i as int),
            forall|k: int| 0 <= k < plan_seq.len() ==> edit_ok(#[trigger] plan_seq[k]),
            forall|k: int| 0 <= k < edits@.len() ==> edit_ok(#[trigger] cube_edits(edits@)[k]),
        decreases edits@.len() - i,
    {
        let e = edits[i];
        all.push((e.pos, e.size, e.material));
        i = i + 1;
        proof {
            assert(all@ =~= plan_seq + cube_edits(edits@).take(i as int));
        }
    }
    proof {
        assert(cube_edits(edits@).take(edits@.len() as int) =~= cube_edits(edits@));
        assert forall|k: int| 0 <= k < all@.len() implies edit_ok(#[trigger] all@[k]) by {
            if k >= plan_seq.len() {
                assert(all@[k] == cube_edits(edits@)[k - plan_seq.len()]);
            }
        }
        vstd::arithmetic::power2::lemma2_to64();
    }
    let ghost s0 = octree;
    paint(&mut octree, all.as_slice(), false);
    let ghost s1 = octree;
    octree.collapse(0);
    octree.recalculate_voxel_count();
    proof {
        assert forall|p: Point| #[trigger] octree.material_at(p) == painted(|q: Point| 0int, s0.world_min_point(),
            s0.root_level(), all@, all@.len(), p) by {
            assert(octree.material_at(p) == s1.material_at(p));
            assert(all@ == terrain_plan(world_type, heights@, solid@) + cube_edits(edits@));
            lemma_painted_base(|q: Point| s0.material_at(q), |q: Point| 0int, s0.world_min_point(), s0.root_level(),
                all@, all@.len(), p);
        }
        assert(all@ == terrain_plan(world_type, heights@, solid@) + cube_edits(edits@));
        lemma_count_of_world(octree);
    }
    octree
}


/// The edits that carry the world across a history action: forwards, the
/// voxels from before it are cleared and those after it written; backwards,
/// the other way round.
pub open spec fn history_edits(action: HistoryAction, forward: bool) -> Seq<Edit> {
    let gone = if forward { action.removed@ } else { action.added@ };
    let back = if forward { action.added@ } else { action.removed@ };
    Seq::new(gone.len(), |k: int| (gone[k].0, gone[k].1, 0u16)) + back
}

/// Replays a history action (`forward`) or reverts it: clears the voxels it
/// is leaving, writes the voxels it is going to, then tidies the tree and
/// recounts its voxels.
pub fn apply_history_action(octree: &mut Octree, action: &HistoryAction, forward: bool)
    requires
        old(octree).wf(),
        world_bounded(*old(octree)),
        forall|k: int| 0 <= k < history_edits(*action, forward).len() ==> edit_ok(#[trigger] history_edits(*action, forward)[k]),
        room_for(*old(octree), history_edits(*action, forward).len() as int),
    ensures
        final(octree).wf(),
        world_bounded(*final(octree)),
        forall|p: Point| #[trigger] final(octree).material_at(p) == painted(|q: Point| old(octree).material_at(q),
            old(octree).world_min_point(), old(octree).root_level(), history_edits(*action, forward),
            history_edits(*action, forward).len(), p),
        final(octree).total_voxels == voxel_count(final(octree).nodes@, 0, final(octree).root_level()),
        canonical(final(octree).nodes@, 0, final(octree).root_level()),
        tidy(final(octree).nodes@, 0, final(octree).root_level()),
        (final(octree).world_min_point(), final(octree).root_level()) == world_after(old(octree).world_min_point(),
            old(octree).root_level(), history_edits(*action, forward), history_edits(*action, forward).len()),
        final(octree).total_voxels == leaf_count(materials(*final(octree)), final(octree).world_min_point(),
            final(octree).root_level()),
        store(*final(octree)) == collapsed_tree(painted_store(store(*old(octree)), old(octree).world_min_point(),
            old(octree).root_level(), history_edits(*action, forward), history_edits(*action, forward).len(), false),
            0, final(octree).root_level()).0,
{
    let ghost s0 = *octree;
    let gone: &Vec<VoxelEntry> = if forward { &action.removed } else { &action.added };
    let back: &Vec<VoxelEntry> = if forward { &action.added } else { &action.removed };
    let mut edits: Vec<Edit> = Vec::new();
    let mut i: usize = 0;
    while i < gone.len()
        invariant
            i <= gone@.len(),
            edits@ == Seq::new(i as nat, |k: int| (gone@[k].0, gone@[k].1, 0u16)),
        decreases gone@.len() - i,
    {
        let v = gone[i];
        edits.push((v.0, v.1, 0u16));
        i = i + 1;
        proof {
            assert(edits@ =~= Seq::new(i as nat, |k: int| (gone@[k].0, gone@[k].1, 0u16)));
        }
    }
    let ghost cleared = edits@;
    let mut j: usize = 0;
    while j < back.len()
        invariant
            j <= back@.len(),
            edits@ == cleared + back@.take(j as int),
        decreases back@.len() - j,
    {
        edits.push(back[j]);
        j = j + 1;
        proof {
            assert(edits@ =~= cleared + back@.take(j as int));
        }
    }
    proof {
        assert(back@.take(back@.len() as int) =~= back@);
        assert(edits@ =~= history_edits(*action, forward));
    }
    paint(octree, edits.as_slice(), false);
    let ghost s1 = *octree;
    let root = octree.root_index as usize;
    octree.collapse(root);
    octree.recalculate_voxel_count();
    proof {
        assert forall|p: Point| #[trigger] octree.material_at(p) == painted(|q: Point| s0.material_at(q),
            s0.world_min_point(), s0.root_level(), history_edits(*action, forward), history_edits(*action, forward).len(), p) by {
            assert(octree.material_at(p) == s1.material_at(p));
        }
        lemma_count_of_world(*octree);
    }
}


// ---------------------------------------------------------------------------
// Brush strokes: the cells a tool covers, as deltas.
// ---------------------------------------------------------------------------

/// The deltas a stroke of `material` makes over the first `k` cells: one per
/// cell whose material differs, recording the material it held.
pub open spec fn stroke_deltas(octree: Octree, cells: Seq<[i64; 3]>, size: i64, material: u16, k: nat) -> Seq<VoxelDelta>
    decreases k,
{
    if k == 0 {
        Seq::empty()
    } else {
        let prev = stroke_deltas(octree, cells, size, material, (k - 1) as nat);
        let c = cells[k - 1];
        let old = octree.material_at(pt(c));
        if old != material as int {
            prev.push(VoxelDelta { pos: c, size, old_material: old as u16, new_material: material })
        } else {
            prev
        }
    }
}

/// A stroke records every cell whose material differs from the stroke's,
/// whether it held air or another material, with the material it held.
pub proof fn lemma_stroke_cover(octree: Octree, cells: Seq<[i64; 3]>, size: i64, material: u16, n: nat)
    requires
        octree.wf(),
        n <= cells.len(),
    ensures
        forall|k: int| 0 <= k < n && octree.material_at(pt(#[trigger] cells[k])) != material ==>
            exists|j: int| 0 <= j < stroke_deltas(octree, cells, size, material, n).len()
                && #[trigger] stroke_deltas(octree, cells, size, material, n)[j] == (VoxelDelta {
                pos: cells[k],
                size,
                old_material: octree.material_at(pt(cells[k])) as u16,
                new_material: material,
            }),
    decreases n,
{
    if n > 0 {
        let m = (n - 1) as nat;
        lemma_stroke_cover(octree, cells, size, material, m);
        let prev = stroke_deltas(octree, cells, size, material, m);
        let cur = stroke_deltas(octree, cells, size, material, n);
        let c = cells[m as int];
        lemma_material_range(octree, pt(c));
        assert forall|k: int| 0 <= k < n && octree.material_at(pt(#[trigger] cells[k])) != material implies
            exists|j: int| 0 <= j < cur.len() && #[trigger] cur[j] == (VoxelDelta {
                pos: cells[k],
                size,
                old_material: octree.material_at(pt(cells[k])) as u16,
                new_material: material,
            }) by {
            if k < m {
                let j = choose|j: int| 0 <= j < prev.len() && #[trigger] prev[j] == (VoxelDelta {
                    pos: cells[k],
                    size,
                    old_material: octree.material_at(pt(cells[k])) as u16,
                    new_material: material,
                });
                assert(cur[j] == prev[j]);
            } else {
                assert(cur[prev.len() as int] == cur.last());
            }
        }
    }
}

/// The deltas that writing `material` over the cells of a stroke (minimum
/// corners `cells`, edge `size`) would make, in the order of the cells: one
/// for each cell whose material (read at its corner) differs.
pub fn stroke_to_deltas(octree: &Octree, cells: &[[i64; 3]], size: i64, material: u16) -> (deltas: Vec<VoxelDelta>)
    requires
        octree.wf(),
    ensures
        deltas@ == stroke_deltas(*octree, cells@, size, material, cells@.len()),
        forall|k: int| 0 <= k < cells@.len() && octree.material_at(pt(#[trigger] cells@[k])) != material ==>
            exists|j: int| 0 <= j < deltas@.len() && #[trigger] deltas@[j] == (VoxelDelta {
                pos: cells@[k],
                size,
                old_material: octree.material_at(pt(cells@[k])) as u16,
                new_material: material,
            }),
{
    let mut deltas: Vec<VoxelDelta> = Vec::new();
    let mut i: usize = 0;
    while i < cells.len()
        invariant
            i <= cells@.len(),
            octree.wf(),
            deltas@ == stroke_deltas(*octree, cells@, size, material, i as nat),
        decreases cells@.len() - i,
    {
        let c = cells[i];
        let old = octree.query_point(c);
        assert(pt(c) == (c[0] as int, c[1] as int, c[2] as int));
        if old != material {
            deltas.push(VoxelDelta { pos: c, size, old_material: old, new_material: material });
        }
        i = i + 1;
    }
    proof {
        lemma_stroke_cover(*octree, cells@, size, material, cells@.len());
        assert(deltas@ == stroke_deltas(*octree, cells@, size, material, cells@.len()));
    }
    deltas
}

/// The cells in order of first appearance, each once.
pub open spec fn first_cells(cells: Seq<[i32; 3]>, k: nat) -> Seq<[i32; 3]>
    decreases k,
{
    if k == 0 {
        Seq::empty()
    } else {
        let prev = first_cells(cells, (k - 1) as nat);
        if cells.take(k - 1).contains(cells[k - 1]) {
            prev
        } else {
            prev.push(cells[k - 1])
        }
    }
}

/// The key a cell is remembered by: its three coordinates' bits side by side.
pub open spec fn cell_key(c: [i32; 3]) -> u128 {
    (((c[0] as u32) as u128) << 64u128) | (((c[1] as u32) as u128) << 32u128) | ((c[2] as u32) as u128)
}

/// Distinct cells have distinct keys.
proof fn lemma_cell_key_injective(a: [i32; 3], b: [i32; 3])
    requires
        cell_key(a) == cell_key(b),
    ensures
        a == b,
{
    let (a0, a1, a2, b0, b1, b2) = (a[0], a[1], a[2], b[0], b[1], b[2]);
    assert(a0 == b0 && a1 == b1 && a2 == b2) by (bit_vector)
        requires
            (((a0 as u32) as u128) << 64u128) | (((a1 as u32) as u128) << 32u128) | ((a2 as u32) as u128)
                == (((b0 as u32) as u128) << 64u128) | (((b1 as u32) as u128) << 32u128) | ((b2 as u32) as u128),
    ;
    assert(a =~= b);
}

fn cell_key_of(c: [i32; 3]) -> (k: u128)
    ensures
        k == cell_key(c),
{
    (((c[0] as u32) as u128) << 64u128) | (((c[1] as u32) as u128) << 32u128) | ((c[2] as u32) as u128)
}

/// The cells a stroke visits, each once, in the order it first meets them.
pub fn dedup_cells(cells: &[[i32; 3]]) -> (unique: Vec<[i32; 3]>)
    ensures
        unique@ == first_cells(cells@, cells@.len()),
{
    broadcast use vstd::std_specs::hash::group_hash_axioms;
    let mut seen: HashSet<u128> = HashSet::new();
    let mut unique: Vec<[i32; 3]> = Vec::new();
    let mut i: usize = 0;
    while i < cells.len()
        invariant
            i <= cells@.len(),
            unique@ == first_cells(cells@, i as nat),
            forall|key: u128| #[trigger] seen@.contains(key) <==> exists|k: int| 0 <= k < i
                && #[trigger] cell_key(cells@[k]) == key,
        decreases cells@.len() - i,
    {
        let c = cells[i];
        let key = cell_key_of(c);
        proof {
            assert(cells@.take(i as int).contains(c) <==> seen@.contains(key)) by {
                if cells@.take(i as int).contains(c) {
                    let k = choose|k: int| 0 <= k < i && cells@.take(i as int)[k] == c;
                    assert(cells@[k] == c);
                    assert(cell_key(cells@[k]) == key);
                }
                if seen@.contains(key) {
                    let k = choose|k: int| 0 <= k < i && #[trigger] cell_key(cells@[k]) == key;
                    lemma_cell_key_injective(cells@[k], c);
                    assert(cells@.take(i as int)[k] == c);
                }
            }
        }
        if !seen.contains(&key) {
            seen.insert(key);
            unique.push(c);
        }
        i = i + 1;
        proof {
            assert forall|key2: u128| #[trigger] seen@.contains(key2) <==> exists|k: int| 0 <= k < i
                && #[trigger] cell_key(cells@[k]) == key2 by {
                if key2 == key {
                    assert(cell_key(cells@[i - 1]) == key2);
                }
            }
        }
    }
    unique
}


/// What point `p` holds after the first `k` writes of cubes of level `t`
/// at their corners: the material of the last cube holding `p`, else what
/// `base` had there.
pub open spec fn last_cover(base: spec_fn(Point) -> int, edits: Seq<Edit>, t: nat, k: nat, p: Point) -> int
    decreases k,
{
    if k == 0 {
        base(p)
    } else {
        let e = edits[k - 1];
        if in_cube(pt(e.0), t, p) {
            e.2 as int
        } else {
            last_cover(base, edits, t, (k - 1) as nat, p)
        }
    }
}

/// Replaying writes of cubes of edge `2^t`, each inside the world and at a
/// corner aligned to `2^t` from the world's corner, leaves the world as it
/// is and gives every point the material of the last cube that holds it.
pub proof fn lemma_painted_aligned(base: spec_fn(Point) -> int, min: Point, level: nat, edits: Seq<Edit>, t: nat,
    k: nat, p: Point)
    requires
        t <= level,
        k <= edits.len(),
        forall|j: int| 0 <= j < k ==> {
            let e = #[trigger] edits[j];
            &&& e.1 == edge(t)
            &&& fits(min, level, pt(e.0), edge(t))
            &&& (e.0[0] - min.0) % edge(t) == 0
            &&& (e.0[1] - min.1) % edge(t) == 0
            &&& (e.0[2] - min.2) % edge(t) == 0
        },
    ensures
        world_after(min, level, edits, k) == (min, level),
        painted(base, min, level, edits, k, p) == last_cover(base, edits, t, k, p),
    decreases k,
{
    if k > 0 {
        lemma_painted_aligned(base, min, level, edits, t, (k - 1) as nat, p);
        let e = edits[k - 1];
        assert(e == edits[k - 1]);
        vstd::arithmetic::power2::lemma_pow2_pos(t);
        assert(in_cube(min, level, pt(e.0)));
        lemma_target_aligned(min, level, pt(e.0), t, p);
    }
}

/// Replaying onto two worlds that agree everywhere gives the same result.
pub proof fn lemma_painted_base(b1: spec_fn(Point) -> int, b2: spec_fn(Point) -> int, min: Point, level: nat,
    edits: Seq<Edit>, k: nat, p: Point)
    requires
        forall|q: Point| #[trigger] b1(q) == b2(q),
    ensures
        painted(b1, min, level, edits, k, p) == painted(b2, min, level, edits, k, p),
    decreases k,
{
    if k > 0 {
        lemma_painted_base(b1, b2, min, level, edits, (k - 1) as nat, p);
    }
}


// ---------------------------------------------------------------------------
// Writing deltas forth and back.
// ---------------------------------------------------------------------------

/// The level of a cube whose edge is a power of two.
pub open spec fn size_level(size: int) -> nat {
    choose|t: nat| #[trigger] edge(t) == size
}

/// The cube written by edit `e` holds `p`, when its edge is a power of two
/// and its corner aligned to its edge.
pub open spec fn holds(e: Edit, p: Point) -> bool {
    in_cube(pt(e.0), size_level(e.1 as int), p)
}

/// A cube of power-of-two edge, inside the world and aligned to its edge
/// from the world's corner.
pub open spec fn cube_ok(min: Point, level: nat, pos: [i64; 3], size: i64) -> bool {
    &&& exists|t: nat| #[trigger] edge(t) == size
    &&& fits(min, level, pt(pos), size as int)
    &&& (pos[0] - min.0) % (size as int) == 0
    &&& (pos[1] - min.1) % (size as int) == 0
    &&& (pos[2] - min.2) % (size as int) == 0
}

/// What point `p` holds after the first `k` cubes are written: the material
/// of the last of them that holds `p`, else what `base` had there.
pub open spec fn last_write(base: spec_fn(Point) -> int, edits: Seq<Edit>, k: nat, p: Point) -> int
    decreases k,
{
    if k == 0 {
        base(p)
    } else if holds(edits[k - 1], p) {
        edits[k - 1].2 as int
    } else {
        last_write(base, edits, (k - 1) as nat, p)
    }
}

/// Replaying writes of cubes of power-of-two edges, each inside the world
/// and aligned to its own edge, leaves the world cube as it is and gives
/// every point the material of the last cube that holds it.
pub proof fn lemma_painted_sized(base: spec_fn(Point) -> int, min: Point, level: nat, edits: Seq<Edit>, k: nat, p: Point)
    requires
        k <= edits.len(),
        forall|j: int| 0 <= j < k ==> cube_ok(min, level, (#[trigger] edits[j]).0, edits[j].1),
    ensures
        world_after(min, level, edits, k) == (min, level),
        painted(base, min, level, edits, k, p) == last_write(base, edits, k, p),
    decreases k,
{
    if k > 0 {
        lemma_painted_sized(base, min, level, edits, (k - 1) as nat, p);
        let e = edits[k - 1];
        assert(cube_ok(min, level, e.0, e.1));
        let t = size_level(e.1 as int);
        assert(edge(t) == e.1);
        vstd::arithmetic::power2::lemma_pow2_pos(t);
        if t > level {
            vstd::arithmetic::power2::lemma_pow2_strictly_increases(level, t);
        }
        assert(in_cube(min, level, pt(e.0)));
        lemma_target_aligned(min, level, pt(e.0), t, p);
    }
}

/// When cube `j` is the last of the first `n` that holds `p`, `p` takes its
/// material.
proof fn lemma_last_write_one(base: spec_fn(Point) -> int, edits: Seq<Edit>, n: nat, p: Point, j: int)
    requires
        0 <= j < n <= edits.len(),
        holds(edits[j], p),
        forall|i: int| j < i < n ==> !holds(#[trigger] edits[i], p),
    ensures
        last_write(base, edits, n, p) == edits[j].2 as int,
    decreases n,
{
    if n - 1 != j {
        assert(!holds(edits[n - 1], p));
        lemma_last_write_one(base, edits, (n - 1) as nat, p, j);
    }
}

/// When no cube from the `m`-th to the `n`-th holds `p`, `p` holds after
/// `n` cubes what it held after `m`.
proof fn lemma_last_write_skip(base: spec_fn(Point) -> int, edits: Seq<Edit>, m: nat, n: nat, p: Point)
    requires
        m <= n <= edits.len(),
        forall|i: int| m <= i < n ==> !holds(#[trigger] edits[i], p),
    ensures
        last_write(base, edits, n, p) == last_write(base, edits, m, p),
    decreases n,
{
    if n > m {
        assert(!holds(edits[n - 1], p));
        lemma_last_write_skip(base, edits, m, (n - 1) as nat, p);
    }
}

/// When some of the first `n` cubes holds `p` and all of them are air, `p`
/// is air.
proof fn lemma_last_write_air(base: spec_fn(Point) -> int, edits: Seq<Edit>, n: nat, p: Point, j: int)
    requires
        0 <= j < n <= edits.len(),
        holds(edits[j], p),
        forall|i: int| 0 <= i < n ==> (#[trigger] edits[i]).2 == 0,
    ensures
        last_write(base, edits, n, p) == 0,
    decreases n,
{
    if !holds(edits[n - 1], p) {
        lemma_last_write_air(base, edits, (n - 1) as nat, p, j);
    }
}

/// The cell of a delta holds `p`.
pub open spec fn delta_holds(d: VoxelDelta, p: Point) -> bool {
    in_cube(pt(d.pos), size_level(d.size as int), p)
}

/// The deltas' cells are cubes of power-of-two edges, inside the world and
/// aligned to their own edges.
pub open spec fn deltas_aligned(min: Point, level: nat, deltas: Seq<VoxelDelta>) -> bool {
    forall|j: int| 0 <= j < deltas.len() ==> cube_ok(min, level, (#[trigger] deltas[j]).pos, deltas[j].size)
}

/// No two of the deltas' cells share a point.
pub open spec fn deltas_disjoint(deltas: Seq<VoxelDelta>) -> bool {
    forall|i: int, j: int, q: Point| 0 <= i < j < deltas.len() && #[trigger] delta_holds(deltas[i], q)
        ==> !#[trigger] delta_holds(deltas[j], q)
}

/// Writing deltas' new materials and then their old ones back restores the
/// world, when their cells are aligned cubes of power-of-two edges (of any
/// sizes), pairwise disjoint, and each held its delta's old material
/// throughout; in between, each cell holds its delta's new material, and the
/// world cube never changes.
pub proof fn lemma_deltas_round_trip(base: spec_fn(Point) -> int, min: Point, level: nat, deltas: Seq<VoxelDelta>,
    p: Point)
    requires
        deltas_aligned(min, level, deltas),
        deltas_disjoint(deltas),
        forall|j: int, q: Point| 0 <= j < deltas.len() && #[trigger] delta_holds(deltas[j], q)
            ==> base(q) == deltas[j].old_material,
    ensures
        world_after(min, level, delta_edits(deltas, true), deltas.len()) == (min, level),
        world_after(min, level, delta_edits(deltas, false), deltas.len()) == (min, level),
        forall|j: int| 0 <= j < deltas.len() && delta_holds(deltas[j], p)
            ==> painted(base, min, level, delta_edits(deltas, true), deltas.len(), p) == deltas[j].new_material,
        painted(|q: Point| painted(base, min, level, delta_edits(deltas, true), deltas.len(), q), min, level,
            delta_edits(deltas, false), deltas.len(), p) == base(p),
{
    let n = deltas.len();
    let fwd = delta_edits(deltas, true);
    let bwd = delta_edits(deltas, false);
    let b2 = |q: Point| painted(base, min, level, fwd, n, q);
    assert forall|j: int| 0 <= j < n implies cube_ok(min, level, (#[trigger] fwd[j]).0, fwd[j].1)
        && holds(fwd[j], p) == delta_holds(deltas[j], p) by {
        assert(cube_ok(min, level, deltas[j].pos, deltas[j].size));
    }
    assert forall|j: int| 0 <= j < n implies cube_ok(min, level, (#[trigger] bwd[j]).0, bwd[j].1)
        && holds(bwd[j], p) == delta_holds(deltas[j], p) by {
        assert(cube_ok(min, level, deltas[j].pos, deltas[j].size));
    }
    lemma_painted_sized(base, min, level, fwd, n, p);
    lemma_painted_sized(b2, min, level, bwd, n, p);
    if exists|j: int| 0 <= j < n && delta_holds(deltas[j], p) {
        let j = choose|j: int| 0 <= j < n && delta_holds(deltas[j], p);
        assert forall|i: int| 0 <= i < n && i != j implies !delta_holds(#[trigger] deltas[i], p) by {
            if i < j {
                if delta_holds(deltas[i], p) {
                    assert(!delta_holds(deltas[j], p));
                }
            } else if delta_holds(deltas[i], p) {
                assert(delta_holds(deltas[j], p));
            }
        }
        assert forall|i: int| j < i < n implies !holds(#[trigger] fwd[i], p) by {
            assert(!delta_holds(deltas[i], p));
        }
        assert forall|i: int| j < i < n implies !holds(#[trigger] bwd[i], p) by {
            assert(!delta_holds(deltas[i], p));
        }
        assert(holds(fwd[j], p) && holds(bwd[j], p));
        lemma_last_write_one(base, fwd, n, p, j);
        lemma_last_write_one(b2, bwd, n, p, j);
        assert forall|k: int| 0 <= k < n && delta_holds(deltas[k], p)
            implies painted(base, min, level, fwd, n, p) == deltas[k].new_material by {
            if k != j {
                assert(!delta_holds(deltas[k], p));
            }
        }
    } else {
        assert forall|i: int| 0 <= i < n implies !holds(#[trigger] fwd[i], p) by {
            assert(!delta_holds(deltas[i], p));
        }
        assert forall|i: int| 0 <= i < n implies !holds(#[trigger] bwd[i], p) by {
            assert(!delta_holds(deltas[i], p));
        }
        lemma_last_write_skip(base, fwd, 0, n, p);
        lemma_last_write_skip(b2, bwd, 0, n, p);
    }
}

/// The entries of a history action are cubes of power-of-two edges, inside
/// the world and aligned to their own edges.
pub open spec fn entries_aligned(min: Point, level: nat, entries: Seq<VoxelEntry>) -> bool {
    forall|j: int| 0 <= j < entries.len() ==> cube_ok(min, level, (#[trigger] entries[j]).0, entries[j].1)
}

/// Some entry's cube holds `p`.
pub open spec fn covered(entries: Seq<VoxelEntry>, p: Point) -> bool {
    exists|j: int| 0 <= j < entries.len() && #[trigger] holds(entries[j], p)
}

/// A world as a history action leaves it: every cube the action added holds
/// its material, and what the action removed without adding back is air.
pub open spec fn action_done(w: spec_fn(Point) -> int, action: HistoryAction) -> bool {
    &&& forall|j: int, q: Point| 0 <= j < action.added@.len() && #[trigger] holds(action.added@[j], q)
        ==> w(q) == action.added@[j].2
    &&& forall|q: Point| #[trigger] covered(action.removed@, q) && !covered(action.added@, q) ==> w(q) == 0
}

/// Undoing a history action and redoing it gives back the world it left,
/// when its cubes are aligned cubes of power-of-two edges, the cubes it
/// added are pairwise disjoint, and the world is as the action left it; the
/// world cube never changes.
pub proof fn lemma_undo_redo_world(w: spec_fn(Point) -> int, min: Point, level: nat, action: HistoryAction, p: Point)
    requires
        entries_aligned(min, level, action.removed@),
        entries_aligned(min, level, action.added@),
        forall|i: int, j: int, q: Point| 0 <= i < j < action.added@.len()
            && #[trigger] holds(action.added@[i], q) ==> !#[trigger] holds(action.added@[j], q),
        action_done(w, action),
    ensures
        world_after(min, level, history_edits(action, false), history_edits(action, false).len()) == (min, level),
        world_after(min, level, history_edits(action, true), history_edits(action, true).len()) == (min, level),
        painted(|q: Point| painted(w, min, level, history_edits(action, false), history_edits(action, false).len(), q),
            min, level, history_edits(action, true), history_edits(action, true).len(), p) == w(p),
{
    let rem = action.removed@;
    let add = action.added@;
    let bwd = history_edits(action, false);
    let fwd = history_edits(action, true);
    let nb = bwd.len();
    let nf = fwd.len();
    let w2 = |q: Point| painted(w, min, level, bwd, nb, q);
    // forwards: the removed cubes cleared, then the added ones written; backwards the other way round.
    assert forall|j: int| 0 <= j < add.len() implies #[trigger] fwd[rem.len() + j] == add[j] by {}
    assert forall|j: int| 0 <= j < rem.len() implies (#[trigger] fwd[j]).0 == rem[j].0 && fwd[j].1 == rem[j].1
        && fwd[j].2 == 0 by {}
    assert forall|j: int| 0 <= j < rem.len() implies #[trigger] bwd[add.len() + j] == rem[j] by {}
    assert forall|j: int| 0 <= j < add.len() implies (#[trigger] bwd[j]).0 == add[j].0 && bwd[j].1 == add[j].1
        && bwd[j].2 == 0 by {}
    assert forall|j: int| 0 <= j < nf implies cube_ok(min, level, (#[trigger] fwd[j]).0, fwd[j].1) by {
        if j < rem.len() {
            assert(cube_ok(min, level, rem[j].0, rem[j].1));
        } else {
            assert(fwd[rem.len() + (j - rem.len())] == add[j - rem.len()]);
            assert(cube_ok(min, level, add[j - rem.len()].0, add[j - rem.len()].1));
        }
    }
    assert forall|j: int| 0 <= j < nb implies cube_ok(min, level, (#[trigger] bwd[j]).0, bwd[j].1) by {
        if j < add.len() {
            assert(cube_ok(min, level, add[j].0, add[j].1));
        } else {
            assert(bwd[add.len() + (j - add.len())] == rem[j - add.len()]);
            assert(cube_ok(min, level, rem[j - add.len()].0, rem[j - add.len()].1));
        }
    }
    lemma_painted_sized(w, min, level, bwd, nb, p);
    lemma_painted_sized(w2, min, level, fwd, nf, p);
    if covered(add, p) {
        let j = choose|j: int| 0 <= j < add.len() && #[trigger] holds(add[j], p);
        assert forall|i: int| rem.len() + j < i < nf implies !holds(#[trigger] fwd[i], p) by {
            let k = i - rem.len();
            assert(fwd[rem.len() + k] == add[k]);
        }
        assert(fwd[rem.len() + j] == add[j]);
        lemma_last_write_one(w2, fwd, nf, p, rem.len() + j);
    } else {
        assert forall|i: int| rem.len() <= i < nf implies !holds(#[trigger] fwd[i], p) by {
            let k = i - rem.len();
            assert(fwd[rem.len() + k] == add[k]);
        }
        lemma_last_write_skip(w2, fwd, rem.len() as nat, nf, p);
        if covered(rem, p) {
            let j = choose|j: int| 0 <= j < rem.len() && #[trigger] holds(rem[j], p);
            assert(holds(fwd[j], p) == holds(rem[j], p));
            lemma_last_write_air(w2, fwd, rem.len() as nat, p, j);
        } else {
            assert forall|i: int| 0 <= i < rem.len() implies !holds(#[trigger] fwd[i], p) by {
                assert(holds(fwd[i], p) == holds(rem[i], p));
            }
            lemma_last_write_skip(w2, fwd, 0, rem.len() as nat, p);
            // backwards: p is in no cube at all, so it keeps what `w` had.
            assert forall|i: int| 0 <= i < nb implies !holds(#[trigger] bwd[i], p) by {
                if i < add.len() {
                    assert(holds(bwd[i], p) == holds(add[i], p));
                } else {
                    let k = i - add.len();
                    assert(bwd[add.len() + k] == rem[k]);
                }
            }
            lemma_last_write_skip(w, bwd, 0, nb, p);
        }
    }
}

} // verus!
