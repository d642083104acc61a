use vstd::prelude::*;
use vstd::arithmetic::power2::{pow2, lemma_pow2_unfold, lemma_pow2_pos, lemma_pow2_strictly_increases, lemma2_to64, lemma2_to64_rest};
use std::collections::HashSet;

verus! {

broadcast use vstd::std_specs::hash::group_hash_axioms;

/// Number of octree nodes per page of the dirty-page tracker.
pub const SVO_PAGE_SIZE: usize = 2048;

/// Largest level (log2 of the edge in grid units) a cube of the tree may have.
pub const MAX_LEVEL: u64 = 62;

/// One node of the sparse voxel octree, laid out as the GPU reads it.
#[derive(Clone, Copy, Debug)]
pub struct OctreeNode {
    pub child_mask: u32,
    pub child_pointer: u32,
    pub material_id: u32,
    pub _pad: u32,
}

pub open spec fn empty_node() -> OctreeNode {
    OctreeNode { child_mask: 0, child_pointer: 0, material_id: 0, _pad: 0 }
}

/// A node holds something: a material or children.
pub open spec fn node_nonempty(n: OctreeNode) -> bool {
    n.material_id != 0 || n.child_pointer != 0
}

/// Bit `o` of a child mask.
pub open spec fn mask_bit(mask: u32, o: int) -> bool {
    (mask >> (o as u32)) & 1u32 == 1u32
}

impl OctreeNode {
    pub fn empty() -> (n: OctreeNode)
        ensures
            n == empty_node(),
    {
        OctreeNode { child_mask: 0, child_pointer: 0, material_id: 0, _pad: 0 }
    }
}

impl Default for OctreeNode {
    fn default() -> (n: OctreeNode)
        ensures
            n == empty_node(),
    {
        OctreeNode::empty()
    }
}

// ---------------------------------------------------------------------------
// Geometry of cubes: a cube is given by its minimum corner and its level; its
// edge is 2^level grid units.
// ---------------------------------------------------------------------------

pub type Point = (int, int, int);

pub open spec fn edge(level: nat) -> int {
    pow2(level) as int
}

pub open spec fn in_cube(min: Point, level: nat, p: Point) -> bool {
    &&& min.0 <= p.0 < min.0 + edge(level)
    &&& min.1 <= p.1 < min.1 + edge(level)
    &&& min.2 <= p.2 < min.2 + edge(level)
}

/// The octant of `p` within a cube of level >= 1: bit 0 for x, bit 1 for y,
/// bit 2 for z, each set when `p` lies in the upper half along that axis.
pub open spec fn octant_of(min: Point, level: nat, p: Point) -> int {
    let half = edge((level - 1) as nat);
    (if p.0 >= min.0 + half { 1int } else { 0int }) + (if p.1 >= min.1 + half { 2int } else { 0int })
        + (if p.2 >= min.2 + half { 4int } else { 0int })
}

/// Minimum corner of child octant `o` of a cube of level >= 1.
pub open spec fn child_min(min: Point, level: nat, o: int) -> Point {
    let half = edge((level - 1) as nat);
    (
        min.0 + (if o % 2 == 1 { half } else { 0 }),
        min.1 + (if (o / 2) % 2 == 1 { half } else { 0 }),
        min.2 + (if o >= 4 { half } else { 0 }),
    )
}

/// What the subtree rooted at node `idx`, standing for the cube `min` of the
/// given level, holds at point `p`: the material of the leaf met by walking
/// down through the octants of `p`, or 0 where a child mask bit is clear.
pub open spec fn sem(nodes: Seq<OctreeNode>, idx: int, level: nat, min: Point, p: Point) -> int
    decreases level,
{
    if !(0 <= idx < nodes.len()) {
        0
    } else if nodes[idx].child_pointer == 0 || level == 0 {
        nodes[idx].material_id as int
    } else {
        let o = octant_of(min, level, p);
        if !mask_bit(nodes[idx].child_mask, o) {
            0
        } else {
            sem(
                nodes,
                nodes[idx].child_pointer + o,
                (level - 1) as nat,
                child_min(min, level, o),
                p,
            )
        }
    }
}

/// `x` is node `idx` or lies in the subtree below it.
pub open spec fn in_reach(nodes: Seq<OctreeNode>, idx: int, level: nat, x: int) -> bool
    decreases level, 9nat,
{
    x == idx || (0 <= idx < nodes.len() && level > 0 && nodes[idx].child_pointer != 0
        && in_reach_block(nodes, nodes[idx].child_pointer as int, (level - 1) as nat, x, 8))
}

/// `x` lies in the subtree of one of the first `k` nodes of the block at `b`.
pub open spec fn in_reach_block(nodes: Seq<OctreeNode>, b: int, level: nat, x: int, k: nat) -> bool
    decreases level + 1, k,
{
    if k == 0 {
        false
    } else {
        in_reach_block(nodes, b, level, x, (k - 1) as nat) || in_reach(nodes, b + k - 1, level, x)
    }
}


// ---------------------------------------------------------------------------
// Structural invariant of the node array.
// ---------------------------------------------------------------------------

/// Node `i` is sound: its material fits a `u16`; when it has children its
/// mask is not empty, the children form a block of 8 nodes starting at an
/// index 1 modulo 8, one level below, and every nonempty child has its bit
/// set in the mask.
pub open spec fn node_ok(n: Seq<OctreeNode>, lv: Seq<nat>, i: int) -> bool {
    let p = n[i].child_pointer as int;
    &&& n[i].material_id <= 0xffff
    &&& p != 0 ==> {
        &&& n[i].child_mask != 0
        &&& p % 8 == 1
        &&& p + 8 <= n.len()
        &&& lv[i] >= 1
        &&& forall|o: int| 0 <= o < 8 ==> #[trigger] lv[p + o] == lv[i] - 1
        &&& forall|o: int| 0 <= o < 8 && node_nonempty(#[trigger] n[p + o]) ==> mask_bit(n[i].child_mask, o)
    }
}

/// No two nodes point at the same child block.
pub open spec fn pointers_unique(n: Seq<OctreeNode>) -> bool {
    forall|i: int, j: int|
        0 <= i < n.len() && 0 <= j < n.len() && i != j && (#[trigger] n[i]).child_pointer != 0
            ==> n[i].child_pointer != (#[trigger] n[j]).child_pointer
}

pub open spec fn tree_ok(n: Seq<OctreeNode>, lv: Seq<nat>) -> bool {
    &&& lv.len() == n.len()
    &&& forall|i: int| 0 <= i < n.len() ==> #[trigger] node_ok(n, lv, i)
    &&& pointers_unique(n)
}

/// No node points at block `b`.
pub open spec fn unreferenced(n: Seq<OctreeNode>, b: int) -> bool {
    forall|i: int| 0 <= i < n.len() ==> (#[trigger] n[i]).child_pointer != b
}

/// The free list holds distinct, in-range, unreferenced blocks.
pub open spec fn free_ok(n: Seq<OctreeNode>, free: Seq<u32>) -> bool {
    &&& forall|k: int| 0 <= k < free.len() ==> (#[trigger] free[k]) % 8 == 1 && free[k] + 8 <= n.len()
    &&& forall|k1: int, k2: int|
        0 <= k1 < free.len() && 0 <= k2 < free.len() && k1 != k2 ==> #[trigger] free[k1] != #[trigger] free[k2]
    &&& forall|k: int| 0 <= k < free.len() ==> unreferenced(n, #[trigger] free[k] as int)
}

/// Node `x` lies in a block of the free list.
pub open spec fn in_free(free: Seq<u32>, x: int) -> bool {
    exists|k: int| 0 <= k < free.len() && #[trigger] free[k] <= x < free[k] + 8
}

// ---------------------------------------------------------------------------
// Lemmas on subtrees.
// ---------------------------------------------------------------------------

pub proof fn lemma_block(n: Seq<OctreeNode>, b: int, level: nat, x: int, k: nat)
    ensures
        in_reach_block(n, b, level, x, k) <==> exists|o: int| 0 <= o < k && #[trigger] in_reach(n, b + o, level, x),
    decreases k,
{
    if k > 0 {
        lemma_block(n, b, level, x, (k - 1) as nat);
        if in_reach(n, b + k - 1, level, x) {
            assert(in_reach(n, b + (k - 1), level, x));
        }
    }
}

/// The child subtrees of a node with children make up the rest of its subtree.
pub proof fn lemma_reach_unfold(n: Seq<OctreeNode>, idx: int, level: nat, x: int)
    requires
        0 <= idx < n.len(),
        level > 0,
        n[idx].child_pointer != 0,
    ensures
        in_reach(n, idx, level, x) <==> (x == idx || exists|o: int|
            0 <= o < 8 && #[trigger] in_reach(n, n[idx].child_pointer + o, (level - 1) as nat, x)),
{
    lemma_block(n, n[idx].child_pointer as int, (level - 1) as nat, x, 8);
}

/// Changing nodes outside a subtree changes neither what it holds nor its extent.
pub proof fn lemma_frame(n1: Seq<OctreeNode>, n2: Seq<OctreeNode>, idx: int, level: nat)
    requires
        forall|x: int| #[trigger] in_reach(n1, idx, level, x) ==> 0 <= x < n1.len() && x < n2.len() && n2[x] == n1[x],
    ensures
        forall|min: Point, p: Point| #[trigger] sem(n2, idx, level, min, p) == sem(n1, idx, level, min, p),
        forall|x: int| #[trigger] in_reach(n2, idx, level, x) == in_reach(n1, idx, level, x),
    decreases level, 2nat,
{
    assert(in_reach(n1, idx, level, idx));
    if level > 0 && n1[idx].child_pointer != 0 {
        let ptr = n1[idx].child_pointer as int;
        lemma_frame_child(n1, n2, idx, level, 0);
        lemma_frame_child(n1, n2, idx, level, 1);
        lemma_frame_child(n1, n2, idx, level, 2);
        lemma_frame_child(n1, n2, idx, level, 3);
        lemma_frame_child(n1, n2, idx, level, 4);
        lemma_frame_child(n1, n2, idx, level, 5);
        lemma_frame_child(n1, n2, idx, level, 6);
        lemma_frame_child(n1, n2, idx, level, 7);
        assert forall|min: Point, p: Point| #[trigger] sem(n2, idx, level, min, p) == sem(n1, idx, level, min, p) by {
            let o = octant_of(min, level, p);
            assert(0 <= o < 8);
            assert(sem(n2, ptr + o, (level - 1) as nat, child_min(min, level, o), p)
                == sem(n1, ptr + o, (level - 1) as nat, child_min(min, level, o), p));
        }
        assert forall|x: int| in_reach(n2, idx, level, x) == in_reach(n1, idx, level, x) by {
            lemma_reach_unfold(n1, idx, level, x);
            lemma_reach_unfold(n2, idx, level, x);
            if in_reach(n1, idx, level, x) && x != idx {
                let o = choose|o: int| 0 <= o < 8 && #[trigger] in_reach(n1, ptr + o, (level - 1) as nat, x);
                assert(in_reach(n2, ptr + o, (level - 1) as nat, x));
            }
            if in_reach(n2, idx, level, x) && x != idx {
                let o = choose|o: int| 0 <= o < 8 && #[trigger] in_reach(n2, ptr + o, (level - 1) as nat, x);
                assert(in_reach(n1, ptr + o, (level - 1) as nat, x));
            }
        }
    }
}

proof fn lemma_frame_child(n1: Seq<OctreeNode>, n2: Seq<OctreeNode>, idx: int, level: nat, o: int)
    requires
        forall|x: int| #[trigger] in_reach(n1, idx, level, x) ==> 0 <= x < n1.len() && x < n2.len() && n2[x] == n1[x],
        level > 0,
        0 <= idx < n1.len(),
        n1[idx].child_pointer != 0,
        0 <= o < 8,
    ensures
        ({
            let c = n1[idx].child_pointer + o;
            &&& forall|min: Point, p: Point| #[trigger] sem(n2, c, (level - 1) as nat, min, p)
                == sem(n1, c, (level - 1) as nat, min, p)
            &&& forall|x: int| #[trigger] in_reach(n2, c, (level - 1) as nat, x)
                == in_reach(n1, c, (level - 1) as nat, x)
        }),
    decreases level, 1nat,
{
    let c = n1[idx].child_pointer + o;
    assert forall|x: int| #[trigger] in_reach(n1, c, (level - 1) as nat, x) implies
        0 <= x < n1.len() && x < n2.len() && n2[x] == n1[x] by {
        lemma_reach_unfold(n1, idx, level, x);
    }
    lemma_frame(n1, n2, c, (level - 1) as nat);
}

/// Every node of a subtree sits at most at the level of its root, and only
/// the root sits at that level.
pub proof fn lemma_reach_levels(n: Seq<OctreeNode>, lv: Seq<nat>, idx: int, level: nat, x: int)
    requires
        tree_ok(n, lv),
        0 <= idx < n.len(),
        lv[idx] == level,
        in_reach(n, idx, level, x),
    ensures
        0 <= x < n.len(),
        lv[x] <= level,
        x != idx ==> lv[x] < level,
    decreases level,
{
    if x != idx {
        assert(node_ok(n, lv, idx));
        lemma_reach_unfold(n, idx, level, x);
        let ptr = n[idx].child_pointer as int;
        let o = choose|o: int| 0 <= o < 8 && #[trigger] in_reach(n, ptr + o, (level - 1) as nat, x);
        assert(lv[ptr + o] == lv[idx] - 1);
        lemma_reach_levels(n, lv, ptr + o, (level - 1) as nat, x);
    }
}

/// A block that no node points at holds no node of a subtree rooted outside it.
pub proof fn lemma_unreferenced_unreachable(n: Seq<OctreeNode>, lv: Seq<nat>, idx: int, level: nat, b: int, x: int)
    requires
        tree_ok(n, lv),
        0 <= idx < n.len(),
        b % 8 == 1,
        unreferenced(n, b),
        !(b <= idx < b + 8),
        b <= x < b + 8,
    ensures
        !in_reach(n, idx, level, x),
    decreases level,
{
    if level > 0 && n[idx].child_pointer != 0 {
        assert(node_ok(n, lv, idx));
        lemma_reach_unfold(n, idx, level, x);
        let ptr = n[idx].child_pointer as int;
        assert(n[idx].child_pointer != b);
        assert forall|o: int| 0 <= o < 8 implies !#[trigger] in_reach(n, ptr + o, (level - 1) as nat, x) by {
            lemma_unreferenced_unreachable(n, lv, ptr + o, (level - 1) as nat, b, x);
        }
    }
}

/// Subtrees of two distinct nodes at the same level share no node.
pub proof fn lemma_disjoint(n: Seq<OctreeNode>, lv: Seq<nat>, i: int, j: int, level: nat, x: int)
    requires
        tree_ok(n, lv),
        0 <= i < n.len(),
        0 <= j < n.len(),
        i != j,
        lv[i] == level,
        lv[j] == level,
    ensures
        !(in_reach(n, i, level, x) && in_reach(n, j, level, x)),
    decreases level,
{
    if in_reach(n, i, level, x) && in_reach(n, j, level, x) {
        lemma_reach_levels(n, lv, i, level, x);
        lemma_reach_levels(n, lv, j, level, x);
        assert(x != i && x != j);
        assert(node_ok(n, lv, i));
        assert(node_ok(n, lv, j));
        lemma_reach_unfold(n, i, level, x);
        lemma_reach_unfold(n, j, level, x);
        let pi = n[i].child_pointer as int;
        let pj = n[j].child_pointer as int;
        let oi = choose|o: int| 0 <= o < 8 && #[trigger] in_reach(n, pi + o, (level - 1) as nat, x);
        let oj = choose|o: int| 0 <= o < 8 && #[trigger] in_reach(n, pj + o, (level - 1) as nat, x);
        if pi + oi == pj + oj {
            assert(pi == pj);
            assert(n[i].child_pointer != n[j].child_pointer);
        } else {
            assert(lv[pi + oi] == level - 1);
            assert(lv[pj + oj] == level - 1);
            lemma_disjoint(n, lv, pi + oi, pj + oj, (level - 1) as nat, x);
        }
    }
}


// ---------------------------------------------------------------------------
// The octree.
// ---------------------------------------------------------------------------

/// Bound on the number of nodes, so that every node index fits the
/// 32-bit child pointers and every page count fits a `usize`.
pub const MAX_NODES: usize = 0x8000_0000;

/// Bound on the coordinates and the edge of a cube written into the world.
pub const MAX_EDIT: i64 = 0x100_0000_0000;

/// Bound on the edge of the world cube before a cube is written into it.
pub const MAX_WORLD_BEFORE_EDIT: i64 = 0x10_0000_0000_0000;

/// Grid units per world unit: the finest voxel the editor places is 1/64.
pub const UNITS_PER_WORLD_UNIT: i64 = 64;

/// The world cube of a fresh octree: 512 world units wide, centred on the origin.
pub const INITIAL_WORLD_MIN: i64 = -16384;
pub const INITIAL_WORLD_SIZE: i64 = 32768;

/// A sparse voxel octree stored as a flat array of nodes. Node 0 is the root
/// and stands for the world cube; a node with children points at a block of
/// eight consecutive nodes, one per octant.
pub struct Octree {
    pub nodes: Vec<OctreeNode>,
    pub root_index: u32,
    pub free_list: Vec<u32>,
    pub dirty_pages: HashSet<usize>,
    pub total_voxels: usize,
    pub world_min: [i64; 3],
    pub world_size: i64,
    /// The level of each node: the log2 of the edge of the cube it stands for.
    pub levels: Ghost<Seq<nat>>,
}

/// The mutable part of an octree: its nodes, its free list and its dirty
/// pages.
#[verifier::ext_equal]
pub struct Store {
    pub nodes: Seq<OctreeNode>,
    pub free: Seq<u32>,
    pub dirty: Set<usize>,
}

pub open spec fn store(s: Octree) -> Store {
    Store { nodes: s.nodes@, free: s.free_list@, dirty: s.dirty_pages@ }
}

/// Freeing the block at `b` whose nodes stand at `level`: each of its eight
/// nodes in turn is emptied and the block below it (if any) freed, then the
/// block's pages are marked dirty and the block goes on the free list.
pub open spec fn freed_block(h: Store, b: int, level: nat) -> Store
    decreases level, 9nat,
{
    let h8 = freeing_block(h, b, level, 8);
    Store { nodes: h8.nodes, free: h8.free.push(b as u32), dirty: h8.dirty.union(page_range(b, 8)) }
}

/// The block a new allocation takes: the last freed block, else eight new
/// nodes at the end.
pub open spec fn alloc_ptr(h: Store) -> int {
    if h.free.len() > 0 { h.free.last() as int } else { h.nodes.len() as int }
}

/// Allocating a block: its eight nodes emptied (appended when the free
/// list is empty, else the last free block taken off the list), its pages
/// marked dirty.
pub open spec fn allocated(h: Store) -> Store {
    let b = alloc_ptr(h);
    Store {
        nodes: Seq::new(if h.free.len() > 0 { h.nodes.len() } else { h.nodes.len() + 8 },
            |x: int| if b <= x < b + 8 { empty_node() } else { h.nodes[x] }),
        free: if h.free.len() > 0 { h.free.drop_last() } else { h.free },
        dirty: h.dirty.union(page_range(b, 8)),
    }
}

/// Splitting leaf `idx` before a write into octant `o`: a block is allocated
/// for eight leaves of its material, the node points at them with every
/// child flagged (or, for an air leaf, just octant `o`), and its page is
/// marked dirty.
pub open spec fn subdivided_store(h: Store, idx: int, o: int) -> Store {
    let b = alloc_ptr(h);
    let h1 = allocated(h);
    let m = h.nodes[idx].material_id;
    Store {
        nodes: Seq::new(h1.nodes.len(), |x: int|
            if b <= x < b + 8 {
                OctreeNode { child_mask: 0, child_pointer: 0, material_id: m, _pad: 0 }
            } else if x == idx {
                OctreeNode {
                    child_mask: if m != 0 { 0xFFu32 } else { 1u32 << (o as u32) },
                    child_pointer: b as u32,
                    material_id: 0,
                    _pad: h.nodes[idx]._pad,
                }
            } else {
                h1.nodes[x]
            }),
        free: h1.free,
        dirty: h1.dirty.union(page_range(idx, 1)),
    }
}

/// Offering the nodes of `path` for collapsing, last first, stopping after
/// the first that cannot be collapsed; `lv` gives each node's level.
pub open spec fn path_store(h: Store, lv: Seq<nat>, path: Seq<(usize, usize)>) -> Store
    decreases path.len(),
{
    if path.len() == 0 {
        h
    } else {
        let i = path.last().0 as int;
        let c = collapsed_store(h, i, lv[i]);
        if c.1 { path_store(c.0, lv, path.drop_last()) } else { c.0 }
    }
}

/// The mask flagging exactly the nonempty children of the block at `cp`.
pub open spec fn collapse_mask(n: Seq<OctreeNode>, cp: int) -> u32 {
    choose|m: u32| #[trigger] flags_children(m, n, cp)
}

/// `m` is below 256 and flags exactly the nonempty children of the block at `cp`.
pub open spec fn flags_children(m: u32, n: Seq<OctreeNode>, cp: int) -> bool {
    m < 256 && forall|o: int| 0 <= o < 8 ==> #[trigger] mask_bit(m, o) == node_nonempty(n[cp + o])
}

/// Offering node `i` (at `level`) for collapsing: a leaf stays as it is; a
/// node whose eight children are leaves of one material becomes a leaf of
/// it, its child block freed; any other node gets its material cleared and
/// its mask recomputed. The node's page is marked dirty whenever it changes.
/// The answer is whether the node is now a leaf.
pub open spec fn collapsed_store(h: Store, i: int, level: nat) -> (Store, bool) {
    let n = h.nodes;
    let cp = n[i].child_pointer as int;
    if cp == 0 {
        (h, true)
    } else if uniform_leaves(n, cp) {
        let m = n[cp].material_id;
        let h1 = Store {
            nodes: n.update(i, OctreeNode {
                material_id: m,
                child_pointer: 0,
                child_mask: if m != 0 { 0xFFu32 } else { 0u32 },
                _pad: n[i]._pad,
            }),
            ..h
        };
        let h2 = freed_block(h1, cp, (level - 1) as nat);
        (Store { dirty: h2.dirty.union(page_range(i, 1)), ..h2 }, true)
    } else {
        (Store {
            nodes: n.update(i, OctreeNode { child_mask: collapse_mask(n, cp), material_id: 0, ..n[i] }),
            free: h.free,
            dirty: h.dirty.union(page_range(i, 1)),
        }, false)
    }
}

/// Writing `m` over the cell that holds `pos` below node `idx`, which
/// stands for the cube at `min` of the given level. While the cube is wider
/// than the edit the write goes down into the octant of `pos`: a leaf that
/// already holds `m` ends it with nothing changed; any other leaf is split
/// first; for a material other than air the octant's mask bit is set. Coming
/// back up, with `ac`, each node is offered for collapsing as long as the one
/// below it became a leaf. The cell where the descent stops becomes a leaf
/// of `m`, the subtree it had freed and its page marked dirty. The answer is
/// the store and whether anything was written and whether the node above
/// should still be offered for collapsing.
pub open spec fn inserted_store(h: Store, idx: int, level: nat, min: Point, pos: Point, size: int, m: u16, ac: bool)
    -> (Store, bool, bool)
    decreases level,
{
    let node = h.nodes[idx];
    if wider(edge(level), size) && level > 0 {
        if node.child_pointer == 0 && node.material_id == m as u32 {
            (h, false, false)
        } else {
            let o = octant_of(min, level, pos);
            let h1 = if node.child_pointer == 0 { subdivided_store(h, idx, o) } else { h };
            let cp = h1.nodes[idx].child_pointer as int;
            let h2 = if m != 0 {
                Store {
                    nodes: h1.nodes.update(idx, OctreeNode {
                        child_mask: h1.nodes[idx].child_mask | (1u32 << (o as u32)),
                        ..h1.nodes[idx]
                    }),
                    ..h1
                }
            } else {
                h1
            };
            let r = inserted_store(h2, cp + o, (level - 1) as nat, child_min(min, level, o), pos, size, m, ac);
            if !r.1 {
                (r.0, false, false)
            } else if ac && r.2 {
                let c = collapsed_store(r.0, idx, level);
                (c.0, true, c.1)
            } else {
                (r.0, true, false)
            }
        }
    } else {
        let h1 = Store {
            nodes: h.nodes.update(idx, OctreeNode {
                material_id: m as u32,
                child_pointer: 0,
                child_mask: if m != 0 { 0xFFu32 } else { 0u32 },
                _pad: node._pad,
            }),
            ..h
        };
        let h2 = freed_subtree(h1, node.child_pointer as int, (level - 1) as nat);
        (Store { dirty: h2.dirty.union(page_range(idx, 1)), ..h2 }, true, true)
    }
}

/// One step of the descent of `inserted_store`, put together from its parts.
proof fn lemma_insert_step(h0: Store, h1: Store, h2: Store, h3: Store, idx: int, level: nat, min: Point, pos: Point,
    size: int, m: u16, ac: bool, cp: int, changed: bool, cont: bool)
    requires
        wider(edge(level), size),
        level > 0,
        !(h0.nodes[idx].child_pointer == 0 && h0.nodes[idx].material_id == m as u32),
        h1 == (if h0.nodes[idx].child_pointer == 0 { subdivided_store(h0, idx, octant_of(min, level, pos)) } else { h0 }),
        cp == h1.nodes[idx].child_pointer,
        h2 == (if m != 0 {
            Store {
                nodes: h1.nodes.update(idx, OctreeNode {
                    child_mask: h1.nodes[idx].child_mask | (1u32 << (octant_of(min, level, pos) as u32)),
                    ..h1.nodes[idx]
                }),
                ..h1
            }
        } else {
            h1
        }),
        (h3, changed, cont) == inserted_store(h2, cp + octant_of(min, level, pos), (level - 1) as nat,
            child_min(min, level, octant_of(min, level, pos)), pos, size, m, ac),
    ensures
        !changed ==> inserted_store(h0, idx, level, min, pos, size, m, ac) == (h3, false, false),
        changed && ac && cont ==> inserted_store(h0, idx, level, min, pos, size, m, ac)
            == (collapsed_store(h3, idx, level).0, true, collapsed_store(h3, idx, level).1),
        changed && !(ac && cont) ==> inserted_store(h0, idx, level, min, pos, size, m, ac) == (h3, true, false),
{
}

/// The octant the old world takes in the world doubled towards `pos`.
pub open spec fn toward_octant(min: Point, pos: Point) -> int {
    (if pos.0 < min.0 { 1int } else { 0int }) + (if pos.1 < min.1 { 2int } else { 0int })
        + (if pos.2 < min.2 { 4int } else { 0int })
}

/// Doubling the world: an empty root stays as it is; otherwise a block is
/// allocated, the old root moves into octant `oct` of it, and the new root
/// points at it with just that octant flagged and its page marked dirty.
pub open spec fn expanded_store(h: Store, oct: int) -> Store {
    let r = h.nodes[0];
    if r.child_mask == 0 && r.material_id == 0 {
        h
    } else {
        let b = alloc_ptr(h);
        let h1 = allocated(h);
        Store {
            nodes: h1.nodes.update(b + oct, r).update(0, OctreeNode {
                child_mask: 1u32 << (oct as u32),
                child_pointer: b as u32,
                material_id: 0,
                _pad: 0,
            }),
            free: h1.free,
            dirty: h1.dirty.union(page_range(0, 1)),
        }
    }
}

/// Doubling the world towards `pos` until it holds the cube of edge `size`
/// there, as `grown` does for the world cube.
pub open spec fn grown_store(h: Store, min: Point, level: nat, pos: Point, size: int) -> Store
    decreases 62 - level,
{
    if fits(min, level, pos, size) || level >= 62 {
        h
    } else {
        grown_store(expanded_store(h, toward_octant(min, pos)), grow_once(min, level, pos), level + 1, pos, size)
    }
}

/// Writing a cube into the world: the world doubled until it holds the
/// cube, then the write below the root (the root stands for the world cube).
pub open spec fn written_store(h: Store, min: Point, level: nat, pos: Point, size: int, m: u16, ac: bool) -> Store {
    let g = grown(min, level, pos, size);
    inserted_store(grown_store(h, min, level, pos, size), 0, g.1, g.0, pos, size, m, ac).0
}

/// Collapsing the subtree of `idx` bottom-up: each of its children's
/// subtrees in turn, then `idx` itself offered for collapsing. The answer
/// is whether `idx` is a leaf afterwards.
pub open spec fn collapsed_tree(h: Store, idx: int, level: nat) -> (Store, bool)
    decreases level, 9nat,
{
    let cp = h.nodes[idx].child_pointer as int;
    if cp == 0 || level == 0 {
        (h, true)
    } else {
        collapsed_store(collapsing_children(h, cp, (level - 1) as nat, 8), idx, level)
    }
}

/// The subtrees of the first `i` nodes of the block at `cp` collapsed in turn.
pub open spec fn collapsing_children(h: Store, cp: int, level: nat, i: nat) -> Store
    decreases level + 1, i,
{
    if i == 0 {
        h
    } else {
        collapsed_tree(collapsing_children(h, cp, level, (i - 1) as nat), cp + i - 1, level).0
    }
}

/// The store of a fresh world: the root alone, nothing free, page 0 dirty.
pub open spec fn fresh_store() -> Store {
    Store { nodes: seq![empty_node()], free: Seq::empty(), dirty: set![0usize] }
}

/// Freeing the subtree below a pointer: nothing for a null pointer.
pub open spec fn freed_subtree(h: Store, b: int, level: nat) -> Store {
    if b == 0 { h } else { freed_block(h, b, level) }
}

/// The first `i` nodes of the block at `b` emptied, each with the block below it freed.
pub open spec fn freeing_block(h: Store, b: int, level: nat, i: nat) -> Store
    decreases level, i,
{
    if i == 0 {
        h
    } else {
        let h1 = freeing_block(h, b, level, (i - 1) as nat);
        let nd = h1.nodes[b + i - 1];
        let h2 = Store { nodes: h1.nodes.update(b + i - 1, empty_node()), ..h1 };
        if nd.child_pointer != 0 && level > 0 {
            freed_block(h2, nd.child_pointer as int, (level - 1) as nat)
        } else {
            h2
        }
    }
}

pub open spec fn page_range(start: int, count: int) -> Set<usize> {
    let last = if start + count >= 1 { start + count - 1 } else { 0 };
    Set::new(|p: usize| start / SVO_PAGE_SIZE as int <= p <= last / SVO_PAGE_SIZE as int)
}

impl Octree {
    pub open spec fn root_level(self) -> nat {
        self.levels@[0]
    }

    pub open spec fn world_min_point(self) -> Point {
        (self.world_min[0] as int, self.world_min[1] as int, self.world_min[2] as int)
    }

    pub open spec fn world_ok(self) -> bool {
        &&& self.root_level() <= MAX_LEVEL
        &&& self.world_size as int == edge(self.root_level())
        &&& 1 <= self.world_size <= 0x4000_0000_0000_0000
        &&& -self.world_size <= self.world_min[0] <= 0
        &&& -self.world_size <= self.world_min[1] <= 0
        &&& -self.world_size <= self.world_min[2] <= 0
        &&& self.root_level() >= 15
        &&& self.world_min[0] % 0x4000 == 0
        &&& self.world_min[1] % 0x4000 == 0
        &&& self.world_min[2] % 0x4000 == 0
    }

    /// The structural invariant of the octree.
    pub open spec fn wf(self) -> bool {
        let n = self.nodes@;
        &&& n.len() >= 1
        &&& n.len() % 8 == 1
        &&& n.len() < MAX_NODES
        &&& self.root_index == 0
        &&& tree_ok(n, self.levels@)
        &&& free_ok(n, self.free_list@)
        &&& self.world_ok()
    }

    /// The material stored at grid point `p`; 0 is air, and so is every point
    /// outside the world cube.
    pub open spec fn material_at(self, p: Point) -> int {
        if in_cube(self.world_min_point(), self.root_level(), p) {
            sem(self.nodes@, 0, self.root_level(), self.world_min_point(), p)
        } else {
            0
        }
    }

    /// An empty world: the root alone, air everywhere, page 0 dirty.
    pub fn new() -> (t: Octree)
        ensures
            t.wf(),
            t.nodes@ == seq![empty_node()],
            t.free_list@.len() == 0,
            t.dirty_pages@ == set![0usize],
            t.total_voxels == 0,
            t.world_min == [INITIAL_WORLD_MIN, INITIAL_WORLD_MIN, INITIAL_WORLD_MIN],
            t.world_size == INITIAL_WORLD_SIZE,
            forall|p: Point| t.material_at(p) == 0,
            world_bounded(t),
            t.root_level() == 15,
            store(t) == fresh_store(),
    {
        let mut nodes: Vec<OctreeNode> = Vec::with_capacity(8192);
        nodes.push(OctreeNode::empty());
        let mut dirty_pages: HashSet<usize> = HashSet::new();
        dirty_pages.insert(0);
        proof {
            lemma2_to64();
        }
        let ghost lv: Seq<nat> = seq![15nat];
        let t = Octree {
            nodes,
            root_index: 0,
            free_list: Vec::with_capacity(512),
            dirty_pages,
            total_voxels: 0,
            world_min: [INITIAL_WORLD_MIN, INITIAL_WORLD_MIN, INITIAL_WORLD_MIN],
            world_size: INITIAL_WORLD_SIZE,
            levels: Ghost(lv),
        };
        assert(t.dirty_pages@ =~= set![0usize]);
        assert(edge(15) == 32768);
        assert(node_ok(t.nodes@, t.levels@, 0));
        assert(open_sides(t) == 6);
        assert(world_bounded(t));
        t
    }

    /// Marks dirty every page that holds one of the `count` nodes from `start`
    /// (page 0 when the range is empty and starts at 0).
    pub fn mark_dirty(&mut self, start: usize, count: usize)
        requires
            start + count <= usize::MAX,
        ensures
            final(self).dirty_pages@ == old(self).dirty_pages@.union(page_range(start as int, count as int)),
            final(self).nodes == old(self).nodes,
            final(self).root_index == old(self).root_index,
            final(self).free_list == old(self).free_list,
            final(self).total_voxels == old(self).total_voxels,
            final(self).world_min == old(self).world_min,
            final(self).world_size == old(self).world_size,
            final(self).levels == old(self).levels,
    {
        let start_page = start / SVO_PAGE_SIZE;
        let end_page = (start + count).saturating_sub(1) / SVO_PAGE_SIZE;
        let mut p = start_page;
        while p <= end_page
            invariant
                start_page <= p <= end_page + 1,
                end_page < usize::MAX,
                start_page == start / SVO_PAGE_SIZE,
                end_page as int == (if start + count >= 1 { start + count - 1 } else { 0 }) / SVO_PAGE_SIZE as int,
                self.dirty_pages@ == old(self).dirty_pages@.union(
                    Set::new(|q: usize| start_page <= q < p)),
                self.nodes == old(self).nodes,
                self.root_index == old(self).root_index,
                self.free_list == old(self).free_list,
                self.total_voxels == old(self).total_voxels,
                self.world_min == old(self).world_min,
                self.world_size == old(self).world_size,
                self.levels == old(self).levels,
            decreases end_page + 1 - p,
        {
            self.dirty_pages.insert(p);
            p = p + 1;
            assert(self.dirty_pages@ =~= old(self).dirty_pages@.union(
                Set::new(|q: usize| start_page <= q < p)));
        }
        assert(self.dirty_pages@ =~= old(self).dirty_pages@.union(page_range(start as int, count as int)));
    }

    /// Marks dirty every page that holds a node.
    pub fn mark_all_dirty(&mut self)
        requires
            old(self).nodes@.len() < MAX_NODES,
        ensures
            final(self).dirty_pages@ == old(self).dirty_pages@.union(
                Set::new(|q: usize| q < (old(self).nodes@.len() + SVO_PAGE_SIZE - 1) / SVO_PAGE_SIZE as int)),
            final(self).nodes == old(self).nodes,
            final(self).root_index == old(self).root_index,
            final(self).free_list == old(self).free_list,
            final(self).total_voxels == old(self).total_voxels,
            final(self).world_min == old(self).world_min,
            final(self).world_size == old(self).world_size,
            final(self).levels == old(self).levels,
    {
        let total_pages = (self.nodes.len() + SVO_PAGE_SIZE - 1) / SVO_PAGE_SIZE;
        let mut p: usize = 0;
        while p < total_pages
            invariant
                p <= total_pages,
                total_pages as int == (old(self).nodes@.len() + SVO_PAGE_SIZE - 1) / SVO_PAGE_SIZE as int,
                self.dirty_pages@ == old(self).dirty_pages@.union(Set::new(|q: usize| q < p)),
                self.nodes == old(self).nodes,
                self.root_index == old(self).root_index,
                self.free_list == old(self).free_list,
                self.total_voxels == old(self).total_voxels,
                self.world_min == old(self).world_min,
                self.world_size == old(self).world_size,
                self.levels == old(self).levels,
            decreases total_pages - p,
        {
            self.dirty_pages.insert(p);
            p = p + 1;
            assert(self.dirty_pages@ =~= old(self).dirty_pages@.union(Set::new(|q: usize| q < p)));
        }
        assert(self.dirty_pages@ =~= old(self).dirty_pages@.union(
            Set::new(|q: usize| q < (old(self).nodes@.len() + SVO_PAGE_SIZE - 1) / SVO_PAGE_SIZE as int)));
    }

    /// The fields that say where the world is and what it holds in total.
    pub open spec fn same_frame(self, other: Octree) -> bool {
        &&& self.root_index == other.root_index
        &&& self.world_min == other.world_min
        &&& self.world_size == other.world_size
        &&& self.total_voxels == other.total_voxels
    }

    /// Takes a block of eight empty nodes: the most recently freed block when
    /// there is one, else eight new nodes at the end of the array.
    pub fn allocate_block(&mut self) -> (ptr: u32)
        requires
            old(self).wf(),
            old(self).free_list@.len() > 0 || old(self).nodes@.len() + 8 < MAX_NODES,
        ensures
            final(self).wf(),
            final(self).same_frame(*old(self)),
            ptr % 8 == 1,
            ptr + 8 <= final(self).nodes@.len(),
            forall|o: int| 0 <= o < 8 ==> #[trigger] final(self).nodes@[ptr + o] == empty_node(),
            unreferenced(final(self).nodes@, ptr as int),
            forall|x: int| ptr <= x < ptr + 8 ==> !in_free(final(self).free_list@, x),
            old(self).free_list@.len() > 0 ==> {
                &&& ptr == old(self).free_list@.last()
                &&& final(self).free_list@ == old(self).free_list@.drop_last()
                &&& final(self).nodes@.len() == old(self).nodes@.len()
            },
            old(self).free_list@.len() == 0 ==> {
                &&& ptr == old(self).nodes@.len()
                &&& final(self).free_list@ == old(self).free_list@
                &&& final(self).nodes@.len() == old(self).nodes@.len() + 8
            },
            forall|x: int| 0 <= x < old(self).nodes@.len() && !(ptr <= x < ptr + 8)
                ==> #[trigger] final(self).nodes@[x] == old(self).nodes@[x],
            forall|x: int| 0 <= x < old(self).nodes@.len() ==> #[trigger] final(self).levels@[x] == old(self).levels@[x],
            forall|x: int| #[trigger] in_free(final(self).free_list@, x) ==> in_free(old(self).free_list@, x),
            final(self).dirty_pages@ == old(self).dirty_pages@.union(page_range(ptr as int, 8)),
            ptr == alloc_ptr(store(*old(self))),
            store(*final(self)) == allocated(store(*old(self))),
    {
        let ghost n0 = self.nodes@;
        let ghost f0 = self.free_list@;
        if let Some(ptr) = self.free_list.pop() {
            let ghost k0 = f0.len() - 1;
            assert(f0[k0] == ptr);
            assert(ptr % 8 == 1 && ptr + 8 <= n0.len());
            let mut c: u32 = 0;
            while c < 8
                invariant
                    c <= 8,
                    ptr % 8 == 1,
                    ptr + 8 <= n0.len(),
                    n0.len() < MAX_NODES,
                    self.nodes@.len() == n0.len(),
                    forall|x: int| 0 <= x < n0.len() && !(ptr <= x < ptr + c)
                        ==> #[trigger] self.nodes@[x] == n0[x],
                    forall|x: int| ptr <= x < ptr + c ==> #[trigger] self.nodes@[x] == empty_node(),
                    self.free_list@ == f0.drop_last(),
                    self.levels == old(self).levels,
                    self.dirty_pages == old(self).dirty_pages,
                    self.same_frame(*old(self)),
                decreases 8 - c,
            {
                self.nodes[(ptr + c) as usize] = OctreeNode::empty();
                c = c + 1;
            }
            proof {
                let n1 = self.nodes@;
                let lv = self.levels@;
                assert forall|i: int| 0 <= i < n1.len() implies #[trigger] node_ok(n1, lv, i) by {
                    if !(ptr <= i < ptr + 8) {
                        assert(node_ok(n0, lv, i));
                        assert(n0[i].child_pointer != ptr);
                        let q = n0[i].child_pointer as int;
                        if q != 0 {
                            assert forall|o: int| 0 <= o < 8 implies #[trigger] n1[q + o] == n0[q + o] by {}
                        }
                    }
                }
                assert forall|k: int| 0 <= k < self.free_list@.len() implies
                    unreferenced(n1, #[trigger] self.free_list@[k] as int) by {
                    assert(f0[k] == self.free_list@[k]);
                    assert(unreferenced(n0, f0[k] as int));
                    assert(f0[k] != f0[k0]);
                }
                assert forall|x: int| ptr <= x < ptr + 8 implies !in_free(self.free_list@, x) by {
                    if in_free(self.free_list@, x) {
                        let k = choose|k: int| 0 <= k < self.free_list@.len()
                            && #[trigger] self.free_list@[k] <= x < self.free_list@[k] + 8;
                        assert(f0[k] == self.free_list@[k]);
                        assert(f0[k] != f0[k0]);
                    }
                }
                assert forall|x: int| #[trigger] in_free(self.free_list@, x) implies in_free(f0, x) by {
                    let k = choose|k: int| 0 <= k < self.free_list@.len()
                        && #[trigger] self.free_list@[k] <= x < self.free_list@[k] + 8;
                    assert(f0[k] == self.free_list@[k]);
                }
            }
            self.mark_dirty(ptr as usize, 8);
            ptr
        } else {
            let ptr = self.nodes.len() as u32;
            let mut c: u32 = 0;
            while c < 8
                invariant
                    c <= 8,
                    ptr as int == n0.len(),
                    n0.len() + 8 < MAX_NODES,
                    self.nodes@.len() == n0.len() + c,
                    forall|x: int| 0 <= x < n0.len() ==> #[trigger] self.nodes@[x] == n0[x],
                    forall|x: int| ptr <= x < ptr + c ==> #[trigger] self.nodes@[x] == empty_node(),
                    self.free_list@ == f0,
                    self.levels@.len() == n0.len() + c,
                    forall|x: int| 0 <= x < n0.len() ==> #[trigger] self.levels@[x] == old(self).levels@[x],
                    self.dirty_pages == old(self).dirty_pages,
                    self.same_frame(*old(self)),
                decreases 8 - c,
            {
                self.nodes.push(OctreeNode::empty());
                self.levels = Ghost(self.levels@.push(0nat));
                c = c + 1;
            }
            proof {
                let n1 = self.nodes@;
                let lv = self.levels@;
                assert forall|i: int| 0 <= i < n1.len() implies #[trigger] node_ok(n1, lv, i) by {
                    if i < n0.len() {
                        assert(node_ok(n0, old(self).levels@, i));
                        let q = n0[i].child_pointer as int;
                        if q != 0 {
                            assert forall|o: int| 0 <= o < 8 implies #[trigger] n1[q + o] == n0[q + o]
                                && lv[q + o] == old(self).levels@[q + o] by {}
                        }
                    }
                }
                assert forall|i: int, j: int|
                    0 <= i < n1.len() && 0 <= j < n1.len() && i != j && (#[trigger] n1[i]).child_pointer != 0
                        implies n1[i].child_pointer != (#[trigger] n1[j]).child_pointer by {
                    if j >= n0.len() {
                        assert(n1[j] == empty_node());
                    }
                }
                assert forall|k: int| 0 <= k < f0.len() implies unreferenced(n1, #[trigger] f0[k] as int) by {
                    assert(unreferenced(n0, f0[k] as int));
                }
                assert(unreferenced(n1, ptr as int)) by {
                    assert forall|i: int| 0 <= i < n1.len() implies (#[trigger] n1[i]).child_pointer != ptr by {
                        if i < n0.len() {
                            assert(node_ok(n0, old(self).levels@, i));
                        }
                    }
                }
                assert forall|x: int| ptr <= x < ptr + 8 implies !in_free(self.free_list@, x) by {
                    if in_free(self.free_list@, x) {
                        let k = choose|k: int| 0 <= k < self.free_list@.len()
                            && #[trigger] self.free_list@[k] <= x < self.free_list@[k] + 8;
                    }
                }
            }
            self.mark_dirty(ptr as usize, 8);
            ptr
        }
    }

    /// Returns to the free list the block at `child_ptr` (which no node points
    /// at any more) together with every block below it, emptying their nodes.
    /// Blocks go on the list children first, `child_ptr` last.
    pub fn free_subtree(&mut self, child_ptr: u32)
        requires
            old(self).wf(),
            child_ptr != 0 ==> detached_block(old(self).nodes@, old(self).levels@, old(self).free_list@, child_ptr as int),
        ensures
            final(self).wf(),
            final(self).same_frame(*old(self)),
            final(self).levels == old(self).levels,
            final(self).nodes@.len() == old(self).nodes@.len(),
            child_ptr == 0 ==> final(self).nodes == old(self).nodes && final(self).free_list == old(self).free_list
                && final(self).dirty_pages == old(self).dirty_pages,
            child_ptr != 0 ==> freed(*old(self), *final(self), child_ptr as int, old(self).levels@[child_ptr as int]),
            store(*final(self)) == freed_subtree(store(*old(self)), child_ptr as int, old(self).levels@[child_ptr as int]),
    {
        if child_ptr == 0 {
            return;
        }
        let ghost level = self.levels@[child_ptr as int];
        self.free_block(child_ptr, Ghost(level));
    }

    fn free_block(&mut self, ptr: u32, Ghost(level): Ghost<nat>)
        requires
            old(self).wf(),
            detached_block(old(self).nodes@, old(self).levels@, old(self).free_list@, ptr as int),
            old(self).levels@[ptr as int] == level,
        ensures
            final(self).wf(),
            final(self).same_frame(*old(self)),
            final(self).levels == old(self).levels,
            final(self).nodes@.len() == old(self).nodes@.len(),
            freed(*old(self), *final(self), ptr as int, level),
            store(*final(self)) == freed_block(store(*old(self)), ptr as int, level),
        decreases level,
    {
        let ghost n0 = self.nodes@;
        let ghost f0 = self.free_list@;
        let ghost lv = self.levels@;
        let mut i: u32 = 0;
        while i < 8
            invariant
                i <= 8,
                self.wf(),
                self.same_frame(*old(self)),
                self.levels@ == lv,
                n0 == old(self).nodes@,
                f0 == old(self).free_list@,
                lv == old(self).levels@,
                detached_block(n0, lv, f0, ptr as int),
                tree_ok(n0, lv),
                free_ok(n0, f0),
                n0.len() < MAX_NODES,
                lv[ptr as int] == level,
                unreferenced(self.nodes@, ptr as int),
                self.nodes@.len() == n0.len(),
                forall|j: int| 0 <= j < i ==> #[trigger] self.nodes@[ptr + j] == empty_node(),
                forall|x: int| 0 <= x < n0.len() && #[trigger] in_reach_block(n0, ptr as int, level, x, i as nat)
                    ==> self.nodes@[x] == empty_node(),
                forall|x: int| 0 <= x < n0.len() && !in_reach_block(n0, ptr as int, level, x, i as nat)
                    ==> #[trigger] self.nodes@[x] == n0[x],
                self.free_list@.len() >= f0.len(),
                self.free_list@.subrange(0, f0.len() as int) == f0,
                forall|k: int| f0.len() <= k < self.free_list@.len()
                    ==> referenced_within(n0, ptr as int, level, #[trigger] self.free_list@[k] as int, i as nat),
                self.dirty_pages@ == old(self).dirty_pages@.union(freed_pages(self.free_list@, f0.len() as int)),
                store(*self) == freeing_block(store(*old(self)), ptr as int, level, i as nat),
            decreases 8 - i,
        {
            let ghost cur = self.nodes@;
            let ghost fcur = self.free_list@;
            proof {
                lemma_block_level(n0, lv, ptr as int, level, i as int, i as nat);
                assert(lv[ptr + i] == lv[ptr as int]);
            }
            let node = self.nodes[(ptr + i) as usize];
            assert(node == n0[ptr + i]);
            self.nodes[(ptr + i) as usize] = OctreeNode::empty();
            let ghost mid = self.nodes@;
            let ghost hmid = store(*self);
            let sub = node.child_pointer;
            proof {
                lemma_make_leaf(cur, mid, lv, fcur, ptr as int + i, empty_node());
            }
            if sub != 0 {
                proof {
                    assert(node_ok(n0, lv, ptr + i));
                    assert(lv[sub + 0] == level - 1);
                    assert forall|o: int| 0 <= o < 8 implies #[trigger] lv[sub + o] == lv[sub as int] by {}
                }
                self.free_block(sub, Ghost((level - 1) as nat));
            }
            proof {
                let hprev = freeing_block(store(*old(self)), ptr as int, level, i as nat);
                assert(hprev.nodes[ptr + i] == node);
                assert(hmid =~= Store { nodes: hprev.nodes.update(ptr + i, empty_node()), ..hprev });
                assert(store(*self) =~= freeing_block(store(*old(self)), ptr as int, level, (i + 1) as nat));
                let after = self.nodes@;
                assert forall|x: int| 0 <= x < n0.len() && !in_reach_block(n0, ptr as int, level, x, (i + 1) as nat)
                    && x != ptr + i implies #[trigger] mid[x] == n0[x] by {
                    lemma_block(n0, ptr as int, level, x, (i + 1) as nat);
                    lemma_block(n0, ptr as int, level, x, i as nat);
                }
                // The subtree freed just now is the subtree of child i.
                assert forall|x: int| 0 <= x < n0.len() && !in_reach_block(n0, ptr as int, level, x, (i + 1) as nat)
                    implies #[trigger] after[x] == n0[x] by {
                    lemma_block(n0, ptr as int, level, x, (i + 1) as nat);
                    lemma_block(n0, ptr as int, level, x, i as nat);
                    assert(!in_reach(n0, ptr + i, level, x));
                    if sub != 0 {
                        lemma_reach_unfold(n0, ptr + i, level, x);
                        if in_reach_block(mid, sub as int, (level - 1) as nat, x, 8) {
                            lemma_block(mid, sub as int, (level - 1) as nat, x, 8);
                            let o = choose|o: int| 0 <= o < 8 && #[trigger] in_reach(mid, sub + o, (level - 1) as nat, x);
                            lemma_child_subtree_frame(n0, mid, lv, ptr as int, level, i as int, o);
                            assert(in_reach(n0, sub + o, (level - 1) as nat, x));
                        }
                    }
                }
                assert forall|k: int| f0.len() <= k < self.free_list@.len() implies
                    referenced_within(n0, ptr as int, level, #[trigger] self.free_list@[k] as int, (i + 1) as nat) by {
                    let b = self.free_list@[k] as int;
                    if k >= fcur.len() {
                        if b == sub {
                            lemma_block(n0, ptr as int, level, ptr + i, (i + 1) as nat);
                            assert(in_reach(n0, ptr + i, level, ptr + i));
                            assert(in_reach_block(n0, ptr as int, level, ptr + i, (i + 1) as nat));
                        } else {
                            assert(referenced_within(mid, sub as int, (level - 1) as nat, b, 8));
                            let q = choose|q: int| 0 <= q < mid.len() && #[trigger] in_reach_block(mid, sub as int, (level - 1) as nat, q, 8)
                                && mid[q].child_pointer == b;
                            lemma_block(mid, sub as int, (level - 1) as nat, q, 8);
                            let o = choose|o: int| 0 <= o < 8 && #[trigger] in_reach(mid, sub + o, (level - 1) as nat, q);
                            lemma_child_subtree_frame(n0, mid, lv, ptr as int, level, i as int, o);
                            assert(in_reach(n0, sub + o, (level - 1) as nat, q));
                            lemma_reach_unfold(n0, ptr + i, level, q);
                            assert(in_reach(n0, ptr + i, level, q));
                            lemma_block(n0, ptr as int, level, q, (i + 1) as nat);
                            lemma_block(n0, ptr as int, level, q, i as nat);
                            assert forall|j: int| 0 <= j < i implies !#[trigger] in_reach(n0, ptr + j, level, q) by {
                                lemma_disjoint(n0, lv, ptr + j, ptr + i, level, q);
                            }
                            lemma_reach_levels(n0, lv, sub + o, (level - 1) as nat, q);
                            assert(q != ptr + i);
                            assert(mid[q] == n0[q]);
                        }
                    } else {
                        assert(self.free_list@[k] == fcur[k]);
                        let q = choose|q: int| 0 <= q < n0.len() && #[trigger] in_reach_block(n0, ptr as int, level, q, i as nat)
                            && n0[q].child_pointer == b;
                        lemma_block(n0, ptr as int, level, q, (i + 1) as nat);
                        lemma_block(n0, ptr as int, level, q, i as nat);
                    }
                }
                assert forall|x: int| 0 <= x < n0.len() && #[trigger] in_reach_block(n0, ptr as int, level, x, (i + 1) as nat)
                    implies after[x] == empty_node() by {
                    lemma_block(n0, ptr as int, level, x, (i + 1) as nat);
                    lemma_block(n0, ptr as int, level, x, i as nat);
                    if !in_reach_block(n0, ptr as int, level, x, i as nat) {
                        assert(in_reach(n0, ptr + i, level, x));
                        if x != ptr + i {
                            lemma_reach_unfold(n0, ptr + i, level, x);
                            let o = choose|o: int| 0 <= o < 8 && #[trigger] in_reach(n0, sub + o, (level - 1) as nat, x);
                            lemma_child_subtree_frame(n0, mid, lv, ptr as int, level, i as int, o);
                            assert(in_reach(mid, sub + o, (level - 1) as nat, x));
                            lemma_block(mid, sub as int, (level - 1) as nat, x, 8);
                        } else if sub != 0 {
                            lemma_block_level(n0, lv, ptr as int, level, i as int, i as nat);
                            assert forall|o: int| 0 <= o < 8 implies !#[trigger] in_reach(mid, sub + o, (level - 1) as nat, x) by {
                                lemma_child_subtree_frame(n0, mid, lv, ptr as int, level, i as int, o);
                                assert(node_ok(n0, lv, ptr + i));
                                if in_reach(n0, sub + o, (level - 1) as nat, x) {
                                    lemma_reach_levels(n0, lv, sub + o, (level - 1) as nat, x);
                                }
                            }
                            lemma_block(mid, sub as int, (level - 1) as nat, x, 8);
                        }
                    } else {
                        assert(cur[x] == empty_node());
                        if x != ptr + i && sub != 0 {
                            assert(mid[x] == empty_node());
                            if in_reach_block(mid, sub as int, (level - 1) as nat, x, 8) {
                            } else {
                                assert(after[x] == mid[x]);
                            }
                        }
                    }
                }
                assert forall|q: usize| freed_pages(self.free_list@, f0.len() as int).contains(q) <==>
                    (freed_pages(fcur, f0.len() as int).contains(q) || freed_pages(self.free_list@, fcur.len() as int).contains(q)) by {
                    let f1 = self.free_list@;
                    if freed_pages(f1, f0.len() as int).contains(q) {
                        let k = choose|k: int| f0.len() <= k < f1.len() && #[trigger] page_range(f1[k] as int, 8).contains(q);
                        if k < fcur.len() {
                            assert(f1[k] == fcur[k]);
                        }
                    }
                    if freed_pages(fcur, f0.len() as int).contains(q) {
                        let k = choose|k: int| f0.len() <= k < fcur.len() && #[trigger] page_range(fcur[k] as int, 8).contains(q);
                        assert(f1[k] == fcur[k]);
                    }
                }
                assert(self.dirty_pages@ =~= old(self).dirty_pages@.union(freed_pages(self.free_list@, f0.len() as int)));
            }
            i = i + 1;
        }
        proof {
            assert forall|k: int| 0 <= k < self.free_list@.len() implies #[trigger] self.free_list@[k] != ptr by {
                if k < f0.len() {
                    assert(self.free_list@[k] == f0[k]);
                } else {
                    assert(referenced_within(n0, ptr as int, level, self.free_list@[k] as int, 8));
                }
            }
        }
        let ghost fb = self.free_list@;
        let ghost d0 = self.dirty_pages@;
        assert(d0 == old(self).dirty_pages@.union(freed_pages(fb, f0.len() as int)));
        self.mark_dirty(ptr as usize, 8);
        assert(self.dirty_pages@ == d0.union(page_range(ptr as int, 8)));
        self.free_list.push(ptr);
        proof {
            assert(store(*self) =~= freed_block(store(*old(self)), ptr as int, level));
            let f1 = self.free_list@;
            assert(f1.subrange(0, f0.len() as int) =~= f0);
            assert forall|q: usize| #[trigger] self.dirty_pages@.contains(q) <==>
                old(self).dirty_pages@.union(freed_pages(f1, f0.len() as int)).contains(q) by {
                if freed_pages(f1, f0.len() as int).contains(q) {
                    let k = choose|k: int| f0.len() <= k < f1.len() && #[trigger] page_range(f1[k] as int, 8).contains(q);
                    if k < fb.len() {
                        assert(f1[k] == fb[k]);
                        assert(freed_pages(fb, f0.len() as int).contains(q));
                    }
                }
                if freed_pages(fb, f0.len() as int).contains(q) {
                    let k = choose|k: int| f0.len() <= k < fb.len() && #[trigger] page_range(fb[k] as int, 8).contains(q);
                    assert(f1[k] == fb[k]);
                    assert(freed_pages(f1, f0.len() as int).contains(q));
                }
                if page_range(ptr as int, 8).contains(q) {
                    assert(f1[f1.len() - 1] == ptr);
                    assert(page_range(f1[f1.len() - 1] as int, 8).contains(q));
                    assert(freed_pages(f1, f0.len() as int).contains(q));
                }
            }
            assert(self.dirty_pages@ =~= old(self).dirty_pages@.union(freed_pages(f1, f0.len() as int)));
        }
    }

    /// Tidies node `node_idx` after an edit below it. When its eight children
    /// are all leaves of one material it becomes a leaf of that material, its
    /// child block is freed, and the answer is `true` (as it is for a node
    /// that already is a leaf). Otherwise its mask is recomputed to flag
    /// exactly its nonempty children, its own material is cleared, and the
    /// answer is `false`. What the node holds does not change.
    pub fn try_collapse_node(&mut self, node_idx: usize) -> (collapsed: bool)
        requires
            old(self).wf(),
            node_idx < old(self).nodes@.len(),
        ensures
            final(self).wf(),
            collapse_step(*old(self), *final(self), node_idx as int, collapsed),
            (store(*final(self)), collapsed) == collapsed_store(store(*old(self)), node_idx as int,
                old(self).levels@[node_idx as int]),
    {
        let ghost n0 = self.nodes@;
        let ghost lv = self.levels@;
        let ghost level = lv[node_idx as int];
        proof {
            assert(node_ok(n0, lv, node_idx as int));
        }
        let child_ptr = self.nodes[node_idx].child_pointer;
        if child_ptr == 0 {
            return true;
        }
        let mut all_leaves = true;
        let mut i: u32 = 0;
        while i < 8
            invariant
                i <= 8,
                self.nodes@ == n0,
                child_ptr + 8 <= n0.len(),
                n0.len() < MAX_NODES,
                all_leaves == (forall|j: int| 0 <= j < i ==> (#[trigger] n0[child_ptr + j]).child_pointer == 0),
            decreases 8 - i,
        {
            if self.nodes[(child_ptr + i) as usize].child_pointer != 0 {
                all_leaves = false;
            }
            i = i + 1;
        }
        if all_leaves {
            let first_mat = self.nodes[child_ptr as usize].material_id;
            let mut all_same = true;
            let mut i: u32 = 1;
            while i < 8
                invariant
                    1 <= i <= 8,
                    self.nodes@ == n0,
                    child_ptr + 8 <= n0.len(),
                    n0.len() < MAX_NODES,
                    first_mat == n0[child_ptr as int].material_id,
                    all_same == (forall|j: int| 1 <= j < i ==> (#[trigger] n0[child_ptr + j]).material_id == first_mat),
                decreases 8 - i,
            {
                if self.nodes[(child_ptr + i) as usize].material_id != first_mat {
                    all_same = false;
                }
                i = i + 1;
            }
            if all_same {
                assert(n0[child_ptr + 0] == n0[child_ptr as int]);
                let ghost f0 = self.free_list@;
                self.nodes[node_idx].material_id = first_mat;
                self.nodes[node_idx].child_pointer = 0;
                self.nodes[node_idx].child_mask = if first_mat != 0 { 0xFF } else { 0 };
                let ghost mid = self.nodes@;
                proof {
                    assert(mid =~= n0.update(node_idx as int, mid[node_idx as int]));
                    assert(node_ok(n0, lv, child_ptr as int));
                    lemma_make_leaf(n0, mid, lv, f0, node_idx as int, mid[node_idx as int]);
                    lemma_collapse_sem(n0, mid, lv, node_idx as int);
                    lemma_child_block_frame(n0, mid, lv, node_idx as int);
                }
                let ghost t_mid = *self;
                self.free_subtree(child_ptr);
                let ghost t_freed = *self;
                self.mark_dirty(node_idx, 1);
                proof {
                    let cp0 = child_ptr as int;
                    assert(uniform_leaves(n0, cp0));
                    assert(lv[cp0 + 0] == level - 1);
                    assert(store(t_mid) =~= Store { nodes: n0.update(node_idx as int, OctreeNode {
                        material_id: first_mat,
                        child_pointer: 0,
                        child_mask: if first_mat != 0 { 0xFFu32 } else { 0u32 },
                        _pad: n0[node_idx as int]._pad,
                    }), ..store(*old(self)) });
                    assert(store(*self) =~= collapsed_store(store(*old(self)), node_idx as int, level).0);
                }
                proof {
                    let n2 = self.nodes@;
                    let cp = child_ptr as int;
                    assert(freed(t_mid, t_freed, cp, lv[cp]));
                    assert(lv[cp + 0] == level - 1);
                    // The freed region is the child block alone: its nodes are leaves.
                    assert forall|x: int| 0 <= x < n0.len() && #[trigger] in_reach_block(mid, cp, (level - 1) as nat, x, 8)
                        implies cp <= x < cp + 8 by {
                        lemma_block(mid, cp, (level - 1) as nat, x, 8);
                        let o = choose|o: int| 0 <= o < 8 && #[trigger] in_reach(mid, cp + o, (level - 1) as nat, x);
                        assert(in_reach(n0, cp + o, (level - 1) as nat, x));
                        assert(n0[cp + o].child_pointer == 0);
                    }
                    assert(n2[node_idx as int] == mid[node_idx as int]) by {
                        if in_reach_block(mid, cp, (level - 1) as nat, node_idx as int, 8) {
                            assert(cp <= node_idx < cp + 8);
                            assert(lv[cp + (node_idx as int - cp)] == level - 1);
                        }
                    }
                    assert forall|min: Point, p: Point| #[trigger] sem(n2, node_idx as int, level, min, p)
                        == sem(n0, node_idx as int, level, min, p) by {
                        assert(sem(n2, node_idx as int, level, min, p) == sem(mid, node_idx as int, level, min, p));
                    }
                    assert forall|x: int| 0 <= x < n0.len() && !in_reach(n0, node_idx as int, level, x)
                        implies #[trigger] n2[x] == n0[x] by {
                        lemma_reach_unfold(n0, node_idx as int, level, x);
                        if in_reach_block(mid, cp, (level - 1) as nat, x, 8) {
                            assert(cp <= x < cp + 8);
                            assert(in_reach(n0, cp + (x - cp), (level - 1) as nat, x));
                        }
                    }
                    assert forall|x: int| #[trigger] in_reach(n2, node_idx as int, level, x)
                        implies in_reach(n0, node_idx as int, level, x) by {}
                    let f1 = self.free_list@;
                    assert(f1.len() == f0.len() + 1) by {
                        if f1.len() > f0.len() + 1 {
                        let k = f0.len() as int;
                        assert(referenced_within(mid, cp, (level - 1) as nat, f1[k] as int, 8));
                        let q = choose|q: int| 0 <= q < mid.len() && #[trigger] in_reach_block(mid, cp, (level - 1) as nat, q, 8)
                            && mid[q].child_pointer == f1[k] as int;
                        assert(cp <= q < cp + 8);
                        assert(n0[cp + (q - cp)].child_pointer == 0);
                        assert(f1[k] % 8 == 1);
                        }
                    }
                    assert(f1 =~= f0.push(child_ptr));
                    assert forall|q: usize| freed_pages(f1, f0.len() as int).contains(q) == page_range(cp, 8).contains(q) by {
                        if freed_pages(f1, f0.len() as int).contains(q) {
                            let k = choose|k: int| f0.len() <= k < f1.len() && #[trigger] page_range(f1[k] as int, 8).contains(q);
                        }
                        if page_range(cp, 8).contains(q) {
                            assert(page_range(f1[f0.len() as int] as int, 8).contains(q));
                        }
                    }
                    assert(self.dirty_pages@ =~= old(self).dirty_pages@.union(page_range(cp, 8)).union(page_range(node_idx as int, 1)));
                }
                return true;
            }
        }
        let mut mask: u32 = 0;
        let mut i: u32 = 0;
        proof {
            assert forall|j: int| 0 <= j < 8 implies !#[trigger] mask_bit(0u32, j) by {
                lemma_full_empty_mask(j);
            }
        }
        while i < 8
            invariant
                i <= 8,
                self.nodes@ == n0,
                child_ptr + 8 <= n0.len(),
                n0.len() < MAX_NODES,
                mask < 256,
                forall|j: int| 0 <= j < 8 ==> #[trigger] mask_bit(mask, j) == (j < i && node_nonempty(n0[child_ptr + j])),
            decreases 8 - i,
        {
            let c = self.nodes[(child_ptr + i) as usize];
            if c.material_id != 0 || c.child_pointer != 0 {
                proof {
                    assert forall|j: int| 0 <= j < 8 implies #[trigger] mask_bit(mask | (1u32 << i), j) == (j == i || mask_bit(mask, j)) by {
                        lemma_or_bit(mask, i, j as u32);
                    }
                    lemma_or_bit(mask, i, 0);
                }
                mask = mask | (1u32 << i);
            }
            i = i + 1;
        }
        proof {
            let cp = child_ptr as int;
            assert(!uniform_leaves(n0, cp));
            assert(exists|j: int| 0 <= j < 8 && ((#[trigger] n0[cp + j]).child_pointer != 0
                || n0[cp + j].material_id != n0[cp].material_id));
            let j = choose|j: int| 0 <= j < 8 && ((#[trigger] n0[cp + j]).child_pointer != 0
                || n0[cp + j].material_id != n0[cp].material_id);
            lemma_full_empty_mask(j);
            lemma_full_empty_mask(0);
            if n0[cp + j].child_pointer == 0 && n0[cp + j].material_id == 0 {
                assert(n0[cp + 0] == n0[cp]);
                assert(mask_bit(mask, 0));
            } else {
                assert(mask_bit(mask, j));
            }
            assert(mask != 0);
        }
        self.nodes[node_idx].child_mask = mask;
        self.nodes[node_idx].material_id = 0;
        proof {
            assert(self.nodes@ =~= n0.update(node_idx as int, self.nodes@[node_idx as int]));
            lemma_recompute_mask(n0, self.nodes@, lv, self.free_list@, node_idx as int);
        }
        let ghost before_mark = *self;
        self.mark_dirty(node_idx, 1);
        proof {
            let cp = child_ptr as int;
            let h0 = store(*old(self));
            assert(!uniform_leaves(n0, cp));
            assert forall|o: int| 0 <= o < 8 implies #[trigger] mask_bit(mask, o) == node_nonempty(n0[cp + o]) by {}
            assert(flags_children(mask, n0, cp));
            let cm = collapse_mask(n0, cp);
            assert(flags_children(cm, n0, cp));
            assert forall|o: int| 0 <= o < 8 implies #[trigger] mask_bit(mask, o) == mask_bit(cm, o) by {}
            lemma_mask_eq(mask, cm);
            let want = collapsed_store(h0, node_idx as int, level).0;
            assert(self.nodes@ =~= want.nodes);
            assert(self.dirty_pages@ =~= want.dirty);
            assert(store(*self) =~= want);
        }
        false
    }

    /// Splits leaf `idx` into eight leaves of its material (the node keeps
    /// holding the same thing) and returns its new child block.
    fn subdivide(&mut self, idx: usize, Ghost(level): Ghost<nat>, octant: u32) -> (new_ptr: u32)
        requires
            octant < 8,
            old(self).wf(),
            idx < old(self).nodes@.len(),
            old(self).levels@[idx as int] == level,
            level >= 1,
            old(self).nodes@[idx as int].child_pointer == 0,
            !in_free(old(self).free_list@, idx as int),
            old(self).nodes@.len() + 8 < MAX_NODES,
            old(self).nodes@[idx as int].material_id == 0 ==> parent_bit_ok(old(self).nodes@, idx as int),
        ensures
            final(self).wf(),
            final(self).same_frame(*old(self)),
            subdivided(*old(self), *final(self), idx as int, level, new_ptr as int, octant as int),
            new_ptr == alloc_ptr(store(*old(self))),
            store(*final(self)) == subdivided_store(store(*old(self)), idx as int, octant as int),
    {
        let ghost n0 = self.nodes@;
        let ghost lv0 = self.levels@;
        let old_mat = self.nodes[idx].material_id;
        proof {
            assert(node_ok(n0, lv0, idx as int));
        }
        let new_ptr = self.allocate_block();
        let ghost na = self.nodes@;
        let ghost lva = self.levels@;
        let ghost ta = *self;
        assert(na[idx as int] == n0[idx as int]) by {
            if new_ptr <= idx < new_ptr + 8 {
                if self.free_list@.len() < old(self).free_list@.len() {
                    let k = old(self).free_list@.len() - 1;
                    assert(old(self).free_list@[k] <= idx < old(self).free_list@[k] + 8);
                }
            }
        }
        if old_mat != 0 {
            let mut c: u32 = 0;
            while c < 8
                invariant
                    c <= 8,
                    new_ptr % 8 == 1,
                    new_ptr + 8 <= na.len(),
                    na.len() < MAX_NODES,
                    self.nodes@.len() == na.len(),
                    forall|x: int| 0 <= x < na.len() && !(new_ptr <= x < new_ptr + c) ==> #[trigger] self.nodes@[x] == na[x],
                    forall|o: int| 0 <= o < c ==> #[trigger] self.nodes@[new_ptr + o]
                        == (OctreeNode { child_mask: 0, child_pointer: 0, material_id: old_mat, _pad: 0 }),
                    forall|o: int| 0 <= o < 8 ==> #[trigger] na[new_ptr + o] == empty_node(),
                    self.levels == ta.levels,
                    self.free_list == ta.free_list,
                    self.dirty_pages == ta.dirty_pages,
                    self.same_frame(ta),
                decreases 8 - c,
            {
                self.nodes[(new_ptr + c) as usize].material_id = old_mat;
                c = c + 1;
            }
            self.nodes[idx].child_mask = 0xFF;
        } else {
            self.nodes[idx].child_mask = 1u32 << octant;
        }
        self.nodes[idx].child_pointer = new_ptr;
        self.nodes[idx].material_id = 0;
        assert(self.levels@ == lva);
        assert(lva.len() == na.len());
        assert(self.nodes@.len() == na.len());
        let ghost lv_new = Seq::new(lva.len(), |x: int|
            if new_ptr <= x < new_ptr + 8 { (level - 1) as nat } else { lva[x] });
        self.levels = Ghost(lv_new);
        proof {
            let n1 = self.nodes@;
            let lv = self.levels@;
            let m = old_mat;
            assert(n1[idx as int] == OctreeNode {
                child_mask: if m != 0 { 0xFFu32 } else { 1u32 << ((octant as int) as u32) },
                child_pointer: new_ptr,
                material_id: 0,
                _pad: n0[idx as int]._pad,
            });
            lemma_single_bit(octant);
            lemma_full_empty_mask(0);
            assert forall|o: int| 0 <= o < 8 implies #[trigger] n1[new_ptr + o]
                == (OctreeNode { child_mask: 0, child_pointer: 0, material_id: m, _pad: 0 }) by {
                assert(new_ptr + o != idx);
                assert(na[new_ptr + o] == empty_node());
            }
            assert(!(new_ptr <= idx < new_ptr + 8));
            assert(lv[idx as int] == level);
            if old_mat == 0 {
                assert(parent_bit_ok(na, idx as int)) by {
                    assert forall|q: int, o: int| 0 <= q < na.len() && 0 <= o < 8 && na[q].child_pointer != 0
                        && na[q].child_pointer + o == idx implies #[trigger] mask_bit(na[q].child_mask, o) by {
                        if new_ptr <= q < new_ptr + 8 {
                            assert(na[new_ptr + (q - new_ptr)] == empty_node());
                        } else {
                            assert(na[q] == n0[q]);
                        }
                    }
                }
            }
            // The invariant.
            assert forall|o: int| 0 <= o < 8 implies mask_bit(n1[idx as int].child_mask, o) || !node_nonempty(#[trigger] n1[new_ptr + o]) by {
                lemma_full_empty_mask(o);
            }
            assert forall|q: int| 0 <= q < n1.len() implies #[trigger] node_ok(n1, lv, q) by {
                if q == idx {
                } else if new_ptr <= q < new_ptr + 8 {
                    assert(n1[q] == n1[new_ptr + (q - new_ptr)]);
                } else {
                    lemma_subdivide_other(na, n1, lv, lva, idx as int, new_ptr as int, q, level);
                }
            }
            assert forall|i1: int, j1: int|
                0 <= i1 < n1.len() && 0 <= j1 < n1.len() && i1 != j1 && (#[trigger] n1[i1]).child_pointer != 0
                    implies n1[i1].child_pointer != (#[trigger] n1[j1]).child_pointer by {
                lemma_subdivide_unique(na, n1, idx as int, new_ptr as int, i1, j1);
            }
            assert forall|k: int| 0 <= k < self.free_list@.len() implies unreferenced(n1, #[trigger] self.free_list@[k] as int) by {
                assert(unreferenced(na, self.free_list@[k] as int));
                assert(!in_free(self.free_list@, new_ptr as int));
                assert forall|q: int| 0 <= q < n1.len() implies (#[trigger] n1[q]).child_pointer != self.free_list@[k] by {
                    if q == idx {
                        if self.free_list@[k] == new_ptr {
                            assert(self.free_list@[k] <= new_ptr + 0 < self.free_list@[k] + 8);
                            assert(in_free(self.free_list@, new_ptr + 0));
                        }
                    } else if new_ptr <= q < new_ptr + 8 {
                        assert(n1[new_ptr + (q - new_ptr)].child_pointer == 0);
                    } else {
                        assert(n1[q] == na[q]);
                    }
                }
            }
            assert forall|min: Point, p: Point| #[trigger] sem(n1, idx as int, level, min, p) == sem(n0, idx as int, level, min, p) by {
                let o = octant_of(min, level, p);
                assert(0 <= o < 8);
                lemma_full_empty_mask(o);
                let cm = child_min(min, level, o);
                assert(sem(n1, new_ptr + o, (level - 1) as nat, cm, p) == m as int);
            }
            assert forall|x: int| #[trigger] in_reach(n1, idx as int, level, x) implies x == idx || new_ptr <= x < new_ptr + 8 by {
                lemma_reach_unfold(n1, idx as int, level, x);
                if x != idx {
                    let o = choose|o: int| 0 <= o < 8 && #[trigger] in_reach(n1, new_ptr + o, (level - 1) as nat, x);
                    assert(n1[new_ptr + o].child_pointer == 0);
                }
            }
            assert forall|x: int| new_ptr <= x < new_ptr + 8 implies (#[trigger] in_free(old(self).free_list@, x) || x >= n0.len()) by {
                if old(self).free_list@.len() > 0 {
                    let k = old(self).free_list@.len() - 1;
                    assert(old(self).free_list@[k] <= x < old(self).free_list@[k] + 8);
                }
            }
        }
        let ghost sd = *self;
        self.mark_dirty(idx, 1);
        proof {
            let h0 = store(*old(self));
            let b = new_ptr as int;
            assert(!(b <= idx < b + 8)) by {
                if b <= idx < b + 8 {
                    if old(self).free_list@.len() > 0 {
                        let k = old(self).free_list@.len() - 1;
                        assert(old(self).free_list@[k] <= idx < old(self).free_list@[k] + 8);
                    }
                }
            }
            let h1 = allocated(h0);
            let want = subdivided_store(h0, idx as int, octant as int);
            assert(store(ta) == h1);
            assert(self.free_list@ == want.free);
            assert(self.dirty_pages@ =~= want.dirty);
            assert(self.nodes@.len() == want.nodes.len());
            assert forall|x: int| 0 <= x < want.nodes.len() implies self.nodes@[x] == want.nodes[x] by {
                if b <= x < b + 8 {
                    assert(self.nodes@[b + (x - b)] == want.nodes[x]);
                } else if x != idx {
                    assert(x < n0.len());
                    assert(self.nodes@[x] == n0[x]);
                    assert(h1.nodes[x] == n0[x]);
                }
            }
            assert(self.nodes@ =~= want.nodes);
            assert(store(*self) =~= want);
        }
        new_ptr
    }

    /// Writes `material` over the target cell below node `idx`, which stands
    /// for the cube at `node_min` of the given level. Returns whether anything
    /// was written (nothing is when the leaf met on the way down already holds
    /// `material`) and whether the nodes on the way back up should still be
    /// offered for collapsing.
    fn insert_at(&mut self, idx: usize, Ghost(level): Ghost<nat>, node_min: [i64; 3], node_size: i64,
        pos: [i64; 3], size: i64, material: u16, auto_collapse: bool) -> (r: (bool, bool))
        requires
            old(self).wf(),
            idx < old(self).nodes@.len(),
            old(self).levels@[idx as int] == level,
            level <= MAX_LEVEL,
            node_size as int == edge(level),
            !in_free(old(self).free_list@, idx as int),
            in_cube(pt(node_min), level, pt(pos)),
            -0x4000_0000_0000_0000 <= node_min[0],
            -0x4000_0000_0000_0000 <= node_min[1],
            -0x4000_0000_0000_0000 <= node_min[2],
            node_min[0] + node_size <= 0x4000_0000_0000_0000,
            node_min[1] + node_size <= 0x4000_0000_0000_0000,
            node_min[2] + node_size <= 0x4000_0000_0000_0000,
            size >= 1,
            old(self).nodes@.len() + 8 * level < MAX_NODES,
            material != 0 ==> parent_bit_ok(old(self).nodes@, idx as int),
        ensures
            final(self).wf(),
            final(self).same_frame(*old(self)),
            inserted(*old(self), *final(self), idx as int, level, pt(node_min), pt(pos), size as int, material as int),
            !r.0 ==> same_state(*final(self), *old(self)) && (old(self).nodes@[idx as int].child_pointer != 0
                || old(self).nodes@[idx as int].material_id == material),
            (store(*final(self)), r.0, r.1) == inserted_store(store(*old(self)), idx as int, level, pt(node_min),
                pt(pos), size as int, material, auto_collapse),
        decreases level,
    {
        let ghost s0 = *self;
        let ghost n0 = self.nodes@;
        let ghost lv0 = self.levels@;
        proof {
            assert(node_ok(n0, lv0, idx as int));
            lemma_edge_bound(level);
            lemma2_to64();
        }
        if (node_size as i128) * 1000 > (size as i128) * 1001 {
            proof {
                if level == 0 {
                    assert(edge(0) == 1);
                }
                lemma_edge_halves(level);
            }
            let node = self.nodes[idx];
            let child_ptr = node.child_pointer;
            let c_ptr = if child_ptr == 0 {
                if node.material_id == material as u32 {
                    proof {
                        assert forall|p: Point| in_cube(pt(node_min), level, p) implies
                            #[trigger] sem(n0, idx as int, level, pt(node_min), p) == material as int by {}
                        assert(wider(edge(level), size as int) && level > 0);
                    }
                    return (false, false);
                }
                let (octant, _) = child_octant(node_min, node_size / 2, pos);
                self.subdivide(idx, Ghost(level), octant)
            } else {
                child_ptr
            };
            let ghost s1 = *self;
            let half = node_size / 2;
            let (octant, cmin) = child_octant(node_min, half, pos);
            proof {
                lemma_child_octant(pt(node_min), level, pt(pos));
                assert(octant as int == octant_of(pt(node_min), level, pt(pos)));
                assert(pt(cmin) == child_min(pt(node_min), level, octant as int));
                lemma_child_cube(pt(node_min), level, octant as int, pt(pos));
            }
            if material != 0 {
                proof {
                    lemma_or_bit(self.nodes@[idx as int].child_mask, octant, 0);
                }
                self.nodes[idx].child_mask = self.nodes[idx].child_mask | (1u32 << octant);
                proof {
                    assert(self.nodes@ =~= s1.nodes@.update(idx as int, OctreeNode {
                        child_mask: s1.nodes@[idx as int].child_mask | (1u32 << ((octant as int) as u32)),
                        ..s1.nodes@[idx as int]
                    }));
                }
            }
            let ghost s2 = *self;
            proof {
                lemma_descend_pre(s0, s1, s2, idx as int, level, c_ptr as int, octant as int, material as int);
                if material != 0 {
                    assert(store(s2) =~= Store {
                        nodes: store(s1).nodes.update(idx as int, OctreeNode {
                            child_mask: store(s1).nodes[idx as int].child_mask | (1u32 << ((octant as int) as u32)),
                            ..store(s1).nodes[idx as int]
                        }),
                        ..store(s1)
                    });
                } else {
                    assert(store(s2) == store(s1));
                }
                assert(wider(edge(level), size as int) && level > 0);
            }
            let (changed, cont) = self.insert_at(
                (c_ptr + octant) as usize,
                Ghost((level - 1) as nat),
                cmin,
                half,
                pos,
                size,
                material,
                auto_collapse,
            );
            let ghost s3 = *self;
            proof {
                lemma_descend_post(s0, s2, s3, idx as int, level, c_ptr as int, octant as int,
                    pt(node_min), pt(pos), size as int, material as int);
            }
            if !changed {
                proof {
                    lemma_descend_abort(s0, s2, s3, idx as int, level, c_ptr as int, octant as int, material as int);
                    lemma_insert_step(store(s0), store(s1), store(s2), store(s3), idx as int, level, pt(node_min),
                        pt(pos), size as int, material, auto_collapse, c_ptr as int, changed, cont);
                }
                return (false, false);
            }
            if auto_collapse && cont {
                let collapsed = self.try_collapse_node(idx);
                proof {
                    lemma_collapse_keeps_insert(s0, s3, *self, idx as int, level, pt(node_min), pt(pos), size as int,
                        material as int, collapsed);
                    lemma_insert_step(store(s0), store(s1), store(s2), store(s3), idx as int, level, pt(node_min),
                        pt(pos), size as int, material, auto_collapse, c_ptr as int, changed, cont);
                    assert(s3.levels@[idx as int] == level);
                }
                (true, collapsed)
            } else {
                proof {
                    lemma_insert_step(store(s0), store(s1), store(s2), store(s3), idx as int, level, pt(node_min),
                        pt(pos), size as int, material, auto_collapse, c_ptr as int, changed, cont);
                }
                (true, false)
            }
        } else {
            let old_ptr = self.nodes[idx].child_pointer;
            self.nodes[idx].material_id = material as u32;
            self.nodes[idx].child_pointer = 0;
            self.nodes[idx].child_mask = if material != 0 { 0xFF } else { 0 };
            let ghost s1 = *self;
            proof {
                assert(s1.nodes@ =~= n0.update(idx as int, s1.nodes@[idx as int]));
                lemma_make_leaf(n0, s1.nodes@, lv0, s0.free_list@, idx as int, s1.nodes@[idx as int]);
                if old_ptr != 0 {
                    lemma_child_block_frame(n0, s1.nodes@, lv0, idx as int);
                }
            }
            self.free_subtree(old_ptr);
            let ghost s2 = *self;
            self.mark_dirty(idx, 1);
            proof {
                lemma_leaf_set(s0, s1, s2, *self, idx as int, level, pt(node_min), pt(pos), size as int, material as int);
                assert(node_ok(n0, lv0, idx as int));
                if old_ptr != 0 {
                    assert(lv0[old_ptr + 0] == level - 1);
                }
                assert(store(s1) =~= Store { nodes: n0.update(idx as int, OctreeNode {
                    material_id: material as u32,
                    child_pointer: 0,
                    child_mask: if material != 0 { 0xFFu32 } else { 0u32 },
                    _pad: n0[idx as int]._pad,
                }), ..store(s0) });
                assert(store(*self) =~= inserted_store(store(s0), idx as int, level, pt(node_min), pt(pos),
                    size as int, material, auto_collapse).0);
            }
            (true, true)
        }
    }

    /// Doubles the world cube, growing it towards `pt` along every axis where
    /// `pt` lies below the world's minimum corner and upwards elsewhere. The
    /// old root becomes the child in the octant where the old cube now sits
    /// (when the world was empty the root just stands for the bigger cube).
    /// What the world holds does not change.
    pub fn expand_root(&mut self, pt: [i64; 3])
        requires
            old(self).wf(),
            old(self).world_size <= 0x2000_0000_0000_0000,
            old(self).free_list@.len() > 0 || old(self).nodes@.len() + 8 < MAX_NODES,
        ensures
            final(self).wf(),
            expanded(*old(self), *final(self), pt),
            store(*final(self)) == expanded_store(store(*old(self)), toward_octant(old(self).world_min_point(), self::pt(pt))),
    {
        let ghost s0 = *self;
        let ghost n0 = self.nodes@;
        let ghost lv0 = self.levels@;
        let ghost l0 = self.root_level();
        proof {
            assert(node_ok(n0, lv0, 0));
            lemma_edge_bound(l0);
            lemma2_to64_rest();
            if l0 >= 61 {
                lemma_pow2_strictly_increases(61, l0 + 1);
                if l0 > 61 {
                    lemma_pow2_strictly_increases(61, l0);
                }
            }
            lemma_pow2_unfold(l0 + 1);
        }
        let mut octant: u32 = 0;
        let mut new_min = self.world_min;
        let old_size = self.world_size;
        if pt[0] < self.world_min[0] {
            octant = octant + 1;
            new_min[0] = new_min[0] - old_size;
        }
        if pt[1] < self.world_min[1] {
            octant = octant + 2;
            new_min[1] = new_min[1] - old_size;
        }
        if pt[2] < self.world_min[2] {
            octant = octant + 4;
            new_min[2] = new_min[2] - old_size;
        }
        proof {
            lemma_edge_aligned(l0);
            lemma_sub_aligned(self.world_min[0] as int, old_size as int);
            lemma_sub_aligned(self.world_min[1] as int, old_size as int);
            lemma_sub_aligned(self.world_min[2] as int, old_size as int);
        }
        let old_root = self.nodes[self.root_index as usize];
        if old_root.child_mask == 0 && old_root.material_id == 0 {
            self.world_min = new_min;
            self.world_size = old_size * 2;
            let ghost lv = self.levels@.update(0, l0 + 1);
            self.levels = Ghost(lv);
            proof {
                lemma_expand_empty(s0, *self);
            }
            return;
        }
        let child_ptr = self.allocate_block();
        let ghost sa = *self;
        self.nodes[(child_ptr + octant) as usize] = old_root;
        let new_mask: u32 = if old_root.child_mask != 0 || old_root.material_id != 0 { 1u32 << octant } else { 0 };
        self.nodes[self.root_index as usize] = OctreeNode {
            child_mask: new_mask,
            child_pointer: child_ptr,
            material_id: 0,
            _pad: 0,
        };
        self.world_min = new_min;
        self.world_size = old_size * 2;
        let ghost lv = Seq::new(sa.levels@.len(), |x: int|
            if x == 0 { l0 + 1 } else if child_ptr <= x < child_ptr + 8 { l0 } else { sa.levels@[x] });
        self.levels = Ghost(lv);
        let ghost sb = *self;
        proof {
            lemma_single_bit(octant);
            lemma_expand_nonempty(s0, sa, sb, child_ptr as int, octant as int);
        }
        self.mark_dirty(self.root_index as usize, 1);
        proof {
            let b = child_ptr as int;
            assert(self.nodes@[0].child_pointer == child_ptr);
            assert(self.nodes@[b + octant] == n0[0]);
            assert(forall|p: Point| #[trigger] self.material_at(p) == sb.material_at(p));
            assert(self.root_level() == l0 + 1);
            assert(forall|x: int| 0 < x < n0.len() && !(b <= x < b + 8) ==> #[trigger] self.nodes@[x] == n0[x]);
        }
    }

    /// The world cube holds the cube of edge `size` at `pos`.
    pub open spec fn contains_cube(self, pos: [i64; 3], size: i64) -> bool {
        &&& self.world_min[0] <= pos[0] && pos[0] + size <= self.world_min[0] + self.world_size
        &&& self.world_min[1] <= pos[1] && pos[1] + size <= self.world_min[1] + self.world_size
        &&& self.world_min[2] <= pos[2] && pos[2] + size <= self.world_min[2] + self.world_size
    }

    /// Doubles the world (towards `pos`) until it holds the cube of edge
    /// `size` at `pos`. What the world holds does not change.
    pub fn ensure_bounds(&mut self, pos: [i64; 3], size: i64)
        requires
            old(self).wf(),
            0 <= size <= MAX_EDIT,
            -MAX_EDIT <= pos[0] <= MAX_EDIT,
            -MAX_EDIT <= pos[1] <= MAX_EDIT,
            -MAX_EDIT <= pos[2] <= MAX_EDIT,
            old(self).world_size <= MAX_WORLD_BEFORE_EDIT,
            old(self).nodes@.len() + 1024 < MAX_NODES,
        ensures
            final(self).wf(),
            final(self).contains_cube(pos, size),
            forall|p: Point| #[trigger] final(self).material_at(p) == old(self).material_at(p),
            final(self).root_index == old(self).root_index,
            final(self).total_voxels == old(self).total_voxels,
            old(self).world_size <= final(self).world_size <= 2 * MAX_WORLD_BEFORE_EDIT,
            old(self).root_level() <= final(self).root_level() <= 53,
            final(self).nodes@.len() <= old(self).nodes@.len() + 8 * (final(self).root_level() - old(self).root_level()),
            old(self).contains_cube(pos, size) ==> same_state(*final(self), *old(self)),
            (final(self).world_min_point(), final(self).root_level())
                == grown(old(self).world_min_point(), old(self).root_level(), pt(pos), size as int),
            world_bounded(*old(self)) ==> world_bounded(*final(self)),
            store(*final(self)) == grown_store(store(*old(self)), old(self).world_min_point(), old(self).root_level(),
                pt(pos), size as int),
    {
        let ghost s0 = *self;
        let ghost w0 = self.world_size;
        let ghost bound: int = if w0 >= 0x800_0000_0000 { 2 * w0 } else { 0x1000_0000_0000 };
        proof {
            lemma2_to64_rest();
            lemma_level_of_size(self.root_level(), 52);
        }
        while pos[0] < self.world_min[0] || pos[1] < self.world_min[1] || pos[2] < self.world_min[2]
            || pos[0] + size > self.world_min[0] + self.world_size
            || pos[1] + size > self.world_min[1] + self.world_size
            || pos[2] + size > self.world_min[2] + self.world_size
            invariant
                self.wf(),
                0 <= size <= MAX_EDIT,
                -MAX_EDIT <= pos[0] <= MAX_EDIT,
                -MAX_EDIT <= pos[1] <= MAX_EDIT,
                -MAX_EDIT <= pos[2] <= MAX_EDIT,
                forall|p: Point| #[trigger] self.material_at(p) == s0.material_at(p),
                self.root_index == s0.root_index,
                self.total_voxels == s0.total_voxels,
                s0.wf(),
                w0 == s0.world_size,
                w0 <= MAX_WORLD_BEFORE_EDIT,
                bound == if w0 >= 0x800_0000_0000 { 2 * w0 } else { 0x1000_0000_0000 },
                w0 <= self.world_size <= bound,
                self.world_size == w0 || self.world_size < 0x800_0000_0000 || self.contains_cube(pos, size),
                s0.root_level() <= self.root_level() <= 53,
                self.nodes@.len() <= s0.nodes@.len() + 8 * (self.root_level() - s0.root_level()),
                s0.nodes@.len() + 1024 < MAX_NODES,
                self.world_size == w0 ==> same_state(*self, s0),
                s0.contains_cube(pos, size) ==> self.world_size == w0,
                grown(self.world_min_point(), self.root_level(), pt(pos), size as int)
                    == grown(s0.world_min_point(), s0.root_level(), pt(pos), size as int),
                world_bounded(s0) ==> world_bounded(*self),
                grown_store(store(*self), self.world_min_point(), self.root_level(), pt(pos), size as int)
                    == grown_store(store(s0), s0.world_min_point(), s0.root_level(), pt(pos), size as int),
            decreases bound - self.world_size,
        {
            let ghost before = *self;
            proof {
                lemma2_to64_rest();
                lemma_level_of_size(self.root_level(), 52);
            }
            self.expand_root(pos);
            proof {
                assert(!fits(before.world_min_point(), before.root_level(), pt(pos), size as int));
                assert(self.world_min_point() == grow_once(before.world_min_point(), before.root_level(), pt(pos)));
                assert(toward_octant(before.world_min_point(), pt(pos)) == toward_octant(before.world_min_point(), pt(pos)));
                lemma_grow_step(before, *self, pos, size);
                if world_bounded(s0) {
                    lemma_expand_bounded(before, *self, pos, size);
                }
                lemma_expand_contains(before, *self, pos, size);
                lemma2_to64_rest();
                lemma_level_of_size(self.root_level(), 53);
            }
        }
        proof {
            assert(fits(self.world_min_point(), self.root_level(), pt(pos), size as int));
        }
    }

    /// Writes `material` over a cube of edge `size` at `pos`, first growing
    /// the world until it holds that cube. The cell written is the one the
    /// descent from the root stops at: the cube of the tree holding `pos`
    /// whose edge is the largest power of two at most 1.001 times `size` (the
    /// root when the world is no wider). With `auto_collapse`, the nodes on
    /// the way back up are collapsed while they can be.
    pub fn insert_cube_world(&mut self, pos: [i64; 3], size: i64, material: u16, auto_collapse: bool)
        requires
            old(self).wf(),
            1 <= size <= MAX_EDIT,
            -MAX_EDIT <= pos[0] <= MAX_EDIT,
            -MAX_EDIT <= pos[1] <= MAX_EDIT,
            -MAX_EDIT <= pos[2] <= MAX_EDIT,
            world_bounded(*old(self)),
            old(self).nodes@.len() + 1024 < MAX_NODES,
        ensures
            final(self).wf(),
            world_bounded(*final(self)),
            final(self).contains_cube(pos, size),
            (final(self).world_min_point(), final(self).root_level())
                == grown(old(self).world_min_point(), old(self).root_level(), pt(pos), size as int),
            forall|p: Point| #[trigger] final(self).material_at(p) == if in_target(
                final(self).world_min_point(),
                final(self).root_level(),
                pt(pos),
                size as int,
                p,
            ) {
                material as int
            } else {
                old(self).material_at(p)
            },
            final(self).root_index == old(self).root_index,
            final(self).total_voxels == old(self).total_voxels,
            old(self).world_size <= final(self).world_size <= 2 * MAX_WORLD_BEFORE_EDIT,
            final(self).nodes@.len() <= old(self).nodes@.len() + 848,
            store(*final(self)) == written_store(store(*old(self)), old(self).world_min_point(), old(self).root_level(),
                pt(pos), size as int, material, auto_collapse),
    {
        proof {
            lemma_pow2_pos(open_sides(*self));
            assert(self.world_size <= self.world_size * pow2(open_sides(*self))) by (nonlinear_arith)
                requires
                    self.world_size >= 1,
                    pow2(open_sides(*self)) >= 1,
            ;
        }
        self.ensure_bounds(pos, size);
        let ghost s1 = *self;
        let root = self.root_index as usize;
        let wmin = self.world_min;
        let wsize = self.world_size;
        let ghost level = self.root_level();
        proof {
            lemma2_to64_rest();
            assert(!in_free(self.free_list@, 0)) by {
                if in_free(self.free_list@, 0) {
                    let k = choose|k: int| 0 <= k < self.free_list@.len() && #[trigger] self.free_list@[k] <= 0 < self.free_list@[k] + 8;
                    assert(self.free_list@[k] % 8 == 1);
                }
            }
            assert(parent_bit_ok(self.nodes@, 0)) by {
                assert forall|q: int, o: int| 0 <= q < self.nodes@.len() && 0 <= o < 8 && self.nodes@[q].child_pointer != 0
                    && self.nodes@[q].child_pointer + o == 0 implies #[trigger] mask_bit(self.nodes@[q].child_mask, o) by {
                    assert(node_ok(self.nodes@, self.levels@, q));
                }
            }
            assert(in_cube(self.world_min_point(), level, pt(pos)));
        }
        let _ = self.insert_at(root, Ghost(level), wmin, wsize, pos, size, material, auto_collapse);
        proof {
            assert forall|p: Point| #[trigger] self.material_at(p) == if in_target(
                self.world_min_point(), self.root_level(), pt(pos), size as int, p) {
                material as int
            } else {
                old(self).material_at(p)
            } by {
                assert(s1.material_at(p) == old(self).material_at(p));
                lemma_target_inside(self.world_min_point(), level, pt(pos), size as int, p);
            }
        }
    }

    /// Collapses the subtree of `node_idx` bottom-up: every node whose eight
    /// children are (or have just become) leaves of one material becomes such
    /// a leaf. Returns whether `node_idx` is a leaf afterwards. What the
    /// subtree holds does not change, and no node is left in it that could
    /// still be collapsed.
    pub fn collapse(&mut self, node_idx: usize) -> (is_leaf: bool)
        requires
            old(self).wf(),
            node_idx < old(self).nodes@.len(),
        ensures
            final(self).wf(),
            collapsed_subtree(*old(self), *final(self), node_idx as int, old(self).levels@[node_idx as int]),
            is_leaf == (final(self).nodes@[node_idx as int].child_pointer == 0),
            canonical(old(self).nodes@, node_idx as int, old(self).levels@[node_idx as int])
                && tidy(old(self).nodes@, node_idx as int, old(self).levels@[node_idx as int])
                ==> final(self).nodes@ == old(self).nodes@ && final(self).free_list@ == old(self).free_list@,
            (store(*final(self)), is_leaf) == collapsed_tree(store(*old(self)), node_idx as int,
                old(self).levels@[node_idx as int]),
            forall|p: Point| #[trigger] final(self).material_at(p) == old(self).material_at(p),
    {
        let ghost level = self.levels@[node_idx as int];
        let ghost s0 = *self;
        let is_leaf = self.collapse_at(node_idx, Ghost(level));
        proof {
            lemma_collapse_keeps_world(s0, *self, node_idx as int);
        }
        is_leaf
    }

    fn collapse_at(&mut self, node_idx: usize, Ghost(level): Ghost<nat>) -> (is_leaf: bool)
        requires
            old(self).wf(),
            node_idx < old(self).nodes@.len(),
            old(self).levels@[node_idx as int] == level,
        ensures
            final(self).wf(),
            collapsed_subtree(*old(self), *final(self), node_idx as int, level),
            is_leaf == (final(self).nodes@[node_idx as int].child_pointer == 0),
            canonical(old(self).nodes@, node_idx as int, level) && tidy(old(self).nodes@, node_idx as int, level)
                ==> final(self).nodes@ == old(self).nodes@ && final(self).free_list@ == old(self).free_list@,
            (store(*final(self)), is_leaf) == collapsed_tree(store(*old(self)), node_idx as int, level),
        decreases level,
    {
        let ghost s0 = *self;
        let ghost n0 = self.nodes@;
        let ghost lv = self.levels@;
        proof {
            assert(node_ok(n0, lv, node_idx as int));
        }
        let child_ptr = self.nodes[node_idx].child_pointer;
        if child_ptr == 0 {
            proof {
                assert forall|x: int| #[trigger] in_reach(n0, node_idx as int, level, x) implies x == node_idx by {}
            }
            return true;
        }
        let ghost settled = canonical(n0, node_idx as int, level) && tidy(n0, node_idx as int, level);
        let mut i: u32 = 0;
        while i < 8
            invariant
                i <= 8,
                self.wf(),
                s0.wf(),
                n0 == s0.nodes@,
                lv == s0.levels@,
                self.levels == s0.levels,
                self.same_frame(s0),
                self.nodes@.len() == n0.len(),
                node_idx < n0.len(),
                lv[node_idx as int] == level,
                child_ptr == n0[node_idx as int].child_pointer,
                child_ptr != 0,
                collapse_children_done(s0, *self, node_idx as int, level, i as int),
                settled ==> self.nodes@ == s0.nodes@ && self.free_list@ == s0.free_list@,
                settled ==> canonical_block(n0, child_ptr as int, (level - 1) as nat, 8)
                    && tidy_block(n0, child_ptr as int, (level - 1) as nat, 8),
                store(*self) == collapsing_children(store(s0), child_ptr as int, (level - 1) as nat, i as nat),
            decreases 8 - i,
        {
            let ghost cur = *self;
            proof {
                lemma_collapse_child_ready(s0, cur, node_idx as int, level, i as int);
                if settled {
                    lemma_canonical_block(n0, child_ptr as int, (level - 1) as nat, 8);
                    lemma_tidy_block(n0, child_ptr as int, (level - 1) as nat, 8);
                    assert(canonical(n0, child_ptr + i, (level - 1) as nat));
                    assert(tidy(n0, child_ptr + i, (level - 1) as nat));
                }
            }
            let _ = self.collapse_at((child_ptr + i) as usize, Ghost((level - 1) as nat));
            proof {
                assert(store(*self) == collapsing_children(store(s0), child_ptr as int, (level - 1) as nat, (i + 1) as nat));
            }
            proof {
                lemma_collapse_child_done(s0, cur, *self, node_idx as int, level, i as int);
            }
            i = i + 1;
        }
        let ghost s1 = *self;
        let collapsed = self.try_collapse_node(node_idx);
        proof {
            lemma_collapse_finish(s0, s1, *self, node_idx as int, level, collapsed);
            if settled {
                lemma_collapse_settled(s1, *self, node_idx as int, level, collapsed);
            }
            assert(level > 0);
        }
        collapsed
    }

    /// Offers the nodes of `path` for collapsing, last first, and stops at the
    /// first that cannot be collapsed. What the world holds does not change.
    pub fn collapse_path(&mut self, path: &[(usize, usize)])
        requires
            old(self).wf(),
            forall|k: int| 0 <= k < path@.len() ==> (#[trigger] path@[k]).0 < old(self).nodes@.len(),
        ensures
            final(self).wf(),
            path_collapsed(*old(self), *final(self), path@),
            store(*final(self)) == path_store(store(*old(self)), old(self).levels@, path@),
            final(self).same_frame(*old(self)),
            final(self).levels == old(self).levels,
            final(self).nodes@.len() == old(self).nodes@.len(),
            forall|p: Point| #[trigger] final(self).material_at(p) == old(self).material_at(p),
    {
        let mut k: usize = path.len();
        assert(path@.take(k as int) =~= path@);
        while k > 0
            invariant_except_break
                forall|s: Octree| #[trigger] path_collapsed(*self, s, path@.take(k as int))
                    ==> path_collapsed(*old(self), s, path@),
                k == 0 ==> path_collapsed(*old(self), *self, path@),
                path_store(store(*self), old(self).levels@, path@.take(k as int))
                    == path_store(store(*old(self)), old(self).levels@, path@),
            invariant
                k <= path@.len(),
                self.wf(),
                self.same_frame(*old(self)),
                self.levels == old(self).levels,
                self.nodes@.len() == old(self).nodes@.len(),
                forall|j: int| 0 <= j < path@.len() ==> (#[trigger] path@[j]).0 < old(self).nodes@.len(),
                forall|p: Point| #[trigger] self.material_at(p) == old(self).material_at(p),
            ensures
                path_collapsed(*old(self), *self, path@),
                store(*self) == path_store(store(*old(self)), old(self).levels@, path@),
            decreases k,
        {
            let (node_idx, _) = path[k - 1];
            assert(path@[k - 1].0 == node_idx);
            let ghost before = *self;
            let collapsed = self.try_collapse_node(node_idx);
            proof {
                lemma_collapse_keeps_world(before, *self, node_idx as int);
                let t = path@.take(k as int);
                assert(t.last().0 == node_idx);
                assert(t.drop_last() =~= path@.take(k - 1));
                assert(path_store(store(before), old(self).levels@, t) == (if collapsed {
                    path_store(store(*self), old(self).levels@, path@.take(k - 1))
                } else {
                    store(*self)
                }));
                if !collapsed {
                    assert(collapse_step(before, *self, t.last().0 as int, collapsed));
                    assert(path_collapsed(before, *self, t));
                } else {
                    assert forall|s: Octree| #[trigger] path_collapsed(*self, s, path@.take(k - 1))
                        implies path_collapsed(before, s, t) by {
                        assert(collapse_step(before, *self, t.last().0 as int, collapsed));
                    }
                }
            }
            if !collapsed {
                break;
            }
            k = k - 1;
            proof {
                if k == 0 {
                    assert(path_collapsed(*self, *self, path@.take(0)));
                    assert(path_store(store(*self), old(self).levels@, path@.take(0)) == store(*self));
                }
            }
        }
    }

    /// The number of nonempty leaves in the subtree of `node_idx`, walking
    /// down through the children each mask flags.
    pub fn count_occupied_voxels(&self, node_idx: usize) -> (count: usize)
        requires
            self.wf(),
            node_idx < self.nodes@.len(),
        ensures
            count == voxel_count(self.nodes@, node_idx as int, self.levels@[node_idx as int]),
            count <= self.nodes@.len(),
        decreases self.levels@[node_idx as int],
    {
        let ghost n = self.nodes@;
        let ghost lv = self.levels@;
        let ghost level = lv[node_idx as int];
        proof {
            assert(node_ok(n, lv, node_idx as int));
            lemma_count_bound(n, lv, node_idx as int, level);
        }
        let node = self.nodes[node_idx];
        if node.child_pointer == 0 {
            return if node.material_id != 0 { 1 } else { 0 };
        }
        let mut total: usize = 0;
        let mut i: u32 = 0;
        while i < 8
            invariant
                i <= 8,
                self.wf(),
                n == self.nodes@,
                lv == self.levels@,
                node == n[node_idx as int],
                node_idx < n.len(),
                node.child_pointer != 0,
                level == lv[node_idx as int],
                level >= 1,
                node.child_pointer + 8 <= n.len(),
                forall|o: int| 0 <= o < 8 ==> #[trigger] lv[node.child_pointer + o] == level - 1,
                total == count_block(n, node_idx as int, (level - 1) as nat, i as nat),
                total <= n.len(),
            decreases 8 - i,
        {
            proof {
                lemma_mask_test(node.child_mask, i);
                lemma_count_block_bound(n, lv, node_idx as int, (level - 1) as nat, (i + 1) as nat);
                let b = block_reach(n, node.child_pointer as int, (level - 1) as nat, (i + 1) as nat);
                assert forall|x: int| b.contains(x) implies #[trigger] reach_set(n, node_idx as int, level).contains(x) by {
                    lemma_reach_unfold(n, node_idx as int, level, x);
                    lemma_block(n, node.child_pointer as int, (level - 1) as nat, x, (i + 1) as nat);
                }
                lemma_reach_finite(n, lv, node_idx as int, level);
                vstd::set_lib::lemma_len_subset(b, reach_set(n, node_idx as int, level));
            }
            if (node.child_mask & (1u32 << i)) != 0 {
                let c = self.count_occupied_voxels((node.child_pointer + i) as usize);
                total = total + c;
            }
            i = i + 1;
        }
        total
    }

    /// Sets `total_voxels` to the number of nonempty leaves in the world.
    pub fn recalculate_voxel_count(&mut self)
        requires
            old(self).wf(),
        ensures
            final(self).wf(),
            final(self).total_voxels == voxel_count(old(self).nodes@, 0, old(self).root_level()),
            final(self).nodes == old(self).nodes,
            final(self).root_index == old(self).root_index,
            final(self).free_list == old(self).free_list,
            final(self).dirty_pages == old(self).dirty_pages,
            final(self).world_min == old(self).world_min,
            final(self).world_size == old(self).world_size,
            final(self).levels == old(self).levels,
    {
        self.total_voxels = self.count_occupied_voxels(self.root_index as usize);
    }

    /// Grows the box `[out_min, out_max)` to hold every nonempty unit cell of
    /// the cube of `node_idx` (minimum corner `min_p`, edge `size`), and
    /// answers whether there is any.
    pub fn compute_voxel_bounds(&self, node_idx: usize, min_p: [i64; 3], size: i64, out_min: &mut [i64; 3],
        out_max: &mut [i64; 3]) -> (has_voxels: bool)
        requires
            self.wf(),
            node_idx < self.nodes@.len(),
            size as int == edge(self.levels@[node_idx as int]),
            -0x4000_0000_0000_0000 <= min_p[0],
            -0x4000_0000_0000_0000 <= min_p[1],
            -0x4000_0000_0000_0000 <= min_p[2],
            min_p[0] + size <= 0x4000_0000_0000_0000,
            min_p[1] + size <= 0x4000_0000_0000_0000,
            min_p[2] + size <= 0x4000_0000_0000_0000,
        ensures
            has_voxels == exists|p: Point| #[trigger] occupied(self.nodes@, node_idx as int,
                self.levels@[node_idx as int], pt(min_p), p),
            box_ok(|p: Point| occupied(self.nodes@, node_idx as int, self.levels@[node_idx as int], pt(min_p), p),
                *old(out_min), *old(out_max), *final(out_min), *final(out_max)),
        decreases self.levels@[node_idx as int],
    {
        let ghost n = self.nodes@;
        let ghost lv = self.levels@;
        let ghost level = lv[node_idx as int];
        let ghost occ = |p: Point| occupied(n, node_idx as int, level, pt(min_p), p);
        proof {
            assert(node_ok(n, lv, node_idx as int));
            lemma2_to64_rest();
            if level > 62 {
                if level > 63 {
                    lemma_pow2_strictly_increases(63, level);
                }
            }
            lemma_edge_bound(level);
        }
        let node = self.nodes[node_idx];
        if node.child_pointer == 0 {
            if node.material_id != 0 {
                let m0 = *out_min;
                let x0 = *out_max;
                *out_min = [
                    if min_p[0] < m0[0] { min_p[0] } else { m0[0] },
                    if min_p[1] < m0[1] { min_p[1] } else { m0[1] },
                    if min_p[2] < m0[2] { min_p[2] } else { m0[2] },
                ];
                *out_max = [
                    if min_p[0] + size > x0[0] { min_p[0] + size } else { x0[0] },
                    if min_p[1] + size > x0[1] { min_p[1] + size } else { x0[1] },
                    if min_p[2] + size > x0[2] { min_p[2] + size } else { x0[2] },
                ];
                proof {
                    let lo: Point = pt(min_p);
                    let hi: Point = (min_p[0] + size - 1, min_p[1] + size - 1, min_p[2] + size - 1);
                    assert(occ(lo));
                    assert(occ(hi));
                    assert forall|k: int| 0 <= k < 3 implies #[trigger] axis_ok(occ, k, m0[k], x0[k], out_min[k], out_max[k]) by {
                        if out_min[k] != m0[k] {
                            assert(coord(lo, k) == out_min[k]);
                        }
                        if out_max[k] != x0[k] {
                            assert(coord(hi, k) + 1 == out_max[k]);
                        }
                    }
                    assert(occ(lo));
                }
                return true;
            }
            proof {
                lemma_box_none(occ, *out_min, *out_max);
            }
            return false;
        }
        proof {
            lemma_edge_halves(level);
        }
        let half = size / 2;
        let mut has_voxels = false;
        let mut i: u32 = 0;
        let ghost m_start = *out_min;
        let ghost x_start = *out_max;
        proof {
            lemma_box_none(|p: Point| occ(p) && octant_of(pt(min_p), level, p) < 0, m_start, x_start);
        }
        while i < 8
            invariant
                i <= 8,
                self.wf(),
                n == self.nodes@,
                lv == self.levels@,
                node == n[node_idx as int],
                node_idx < n.len(),
                node.child_pointer != 0,
                level == lv[node_idx as int],
                1 <= level <= MAX_LEVEL,
                size as int == edge(level),
                half as int == edge((level - 1) as nat),
                half >= 1,
                size == 2 * half,
                node.child_pointer + 8 <= n.len(),
                forall|o: int| 0 <= o < 8 ==> #[trigger] lv[node.child_pointer + o] == level - 1,
                -0x4000_0000_0000_0000 <= min_p[0],
                -0x4000_0000_0000_0000 <= min_p[1],
                -0x4000_0000_0000_0000 <= min_p[2],
                min_p[0] + size <= 0x4000_0000_0000_0000,
                min_p[1] + size <= 0x4000_0000_0000_0000,
                min_p[2] + size <= 0x4000_0000_0000_0000,
                occ == (|p: Point| occupied(n, node_idx as int, level, pt(min_p), p)),
                m_start == *old(out_min),
                x_start == *old(out_max),
                box_ok(|p: Point| occ(p) && octant_of(pt(min_p), level, p) < i, m_start, x_start, *out_min, *out_max),
                has_voxels == exists|p: Point| #[trigger] occ(p) && octant_of(pt(min_p), level, p) < i,
            decreases 8 - i,
        {
            let ghost before = |p: Point| occ(p) && octant_of(pt(min_p), level, p) < i;
            let ghost after = |p: Point| occ(p) && octant_of(pt(min_p), level, p) < i + 1;
            let ghost m1 = *out_min;
            let ghost x1 = *out_max;
            proof {
                lemma_mask_test(node.child_mask, i);
            }
            let cmin: [i64; 3] = [
                min_p[0] + if i % 2 == 1 { half } else { 0 },
                min_p[1] + if (i / 2) % 2 == 1 { half } else { 0 },
                min_p[2] + if i >= 4 { half } else { 0 },
            ];
            let ghost c = node.child_pointer + i;
            let ghost child = |p: Point| occupied(n, c, (level - 1) as nat, pt(cmin), p);
            proof {
                assert(pt(cmin) == child_min(pt(min_p), level, i as int));
                assert forall|p: Point| #[trigger] after(p) == (before(p) || (mask_bit(node.child_mask, i as int) && child(p))) by {
                    lemma_child_cube(pt(min_p), level, i as int, p);
                    lemma_child_octant(pt(min_p), level, p);
                }
            }
            if (node.child_mask & (1u32 << i)) != 0 {
                let h = self.compute_voxel_bounds((node.child_pointer + i) as usize, cmin, half, out_min, out_max);
                proof {
                    lemma_box_union(before, child, after, m_start, x_start, m1, x1, *out_min, *out_max);
                    if h {
                        let p = choose|p: Point| #[trigger] occupied(n, c, (level - 1) as nat, pt(cmin), p);
                        assert(child(p));
                        assert(after(p));
                    }
                    if exists|p: Point| #[trigger] occ(p) && octant_of(pt(min_p), level, p) < i + 1 {
                        let p = choose|p: Point| #[trigger] occ(p) && octant_of(pt(min_p), level, p) < i + 1;
                        assert(after(p));
                        if !before(p) {
                            assert(child(p));
                        }
                    }
                }
                if h {
                    has_voxels = true;
                }
            } else {
                proof {
                    lemma_box_none(|p: Point| false, m1, x1);
                    lemma_box_union(before, |p: Point| false, after, m_start, x_start, m1, x1, m1, x1);
                    if exists|p: Point| #[trigger] occ(p) && octant_of(pt(min_p), level, p) < i + 1 {
                        let p = choose|p: Point| #[trigger] occ(p) && octant_of(pt(min_p), level, p) < i + 1;
                        assert(after(p));
                    }
                }
            }
            i = i + 1;
        }
        proof {
            assert forall|p: Point| #[trigger] occ(p) == (occ(p) && octant_of(pt(min_p), level, p) < 8) by {
                if in_cube(pt(min_p), level, p) {
                    lemma_child_octant(pt(min_p), level, p);
                }
            }
            lemma_box_none(|p: Point| false, *out_min, *out_max);
            lemma_box_union(|p: Point| occ(p) && octant_of(pt(min_p), level, p) < 8, |p: Point| false, occ,
                m_start, x_start, *out_min, *out_max, *out_min, *out_max);
            if has_voxels {
                let p = choose|p: Point| #[trigger] occ(p) && octant_of(pt(min_p), level, p) < 8;
                assert(occupied(n, node_idx as int, level, pt(min_p), p));
            }
            if exists|p: Point| #[trigger] occupied(n, node_idx as int, level, pt(min_p), p) {
                let p = choose|p: Point| #[trigger] occupied(n, node_idx as int, level, pt(min_p), p);
                assert(occ(p));
                lemma_child_octant(pt(min_p), level, p);
            }
        }
        has_voxels
    }

    /// The material at grid point `pos`: 0 outside the world cube, else the
    /// material of the leaf whose cube holds `pos`.
    pub fn query_point(&self, pos: [i64; 3]) -> (m: u16)
        requires
            self.wf(),
        ensures
            m as int == self.material_at((pos[0] as int, pos[1] as int, pos[2] as int)),
    {
        let ghost p: Point = (pos[0] as int, pos[1] as int, pos[2] as int);
        if pos[0] < self.world_min[0] || pos[1] < self.world_min[1] || pos[2] < self.world_min[2]
            || pos[0] >= self.world_min[0] + self.world_size
            || pos[1] >= self.world_min[1] + self.world_size
            || pos[2] >= self.world_min[2] + self.world_size
        {
            return 0;
        }
        let mut current_idx: usize = self.root_index as usize;
        let mut curr_min: [i64; 3] = self.world_min;
        let mut curr_size: i64 = self.world_size;
        let ghost mut level: nat = self.root_level();
        assert(node_ok(self.nodes@, self.levels@, 0));
        proof {
            lemma_edge_bound(level);
        }
        loop
            invariant
                self.wf(),
                p == (pos[0] as int, pos[1] as int, pos[2] as int),
                self.world_min[0] <= curr_min[0],
                self.world_min[1] <= curr_min[1],
                self.world_min[2] <= curr_min[2],
                -0x4000_0000_0000_0000 <= p.0 < 0x4000_0000_0000_0000,
                -0x4000_0000_0000_0000 <= p.1 < 0x4000_0000_0000_0000,
                -0x4000_0000_0000_0000 <= p.2 < 0x4000_0000_0000_0000,
                0 <= current_idx < self.nodes@.len(),
                self.levels@[current_idx as int] == level,
                level <= MAX_LEVEL,
                curr_size as int == edge(level),
                in_cube((curr_min[0] as int, curr_min[1] as int, curr_min[2] as int), level, p),
                self.material_at(p) == sem(self.nodes@, current_idx as int, level,
                    (curr_min[0] as int, curr_min[1] as int, curr_min[2] as int), p),
            decreases level,
        {
            let node = self.nodes[current_idx];
            assert(node_ok(self.nodes@, self.levels@, current_idx as int));
            if node.child_pointer == 0 {
                assert(node.material_id <= 0xffff);
                assert(sem(self.nodes@, current_idx as int, level,
                    (curr_min[0] as int, curr_min[1] as int, curr_min[2] as int), p) == node.material_id as int);
                assert((node.material_id as u16) as int == node.material_id as int);
                return node.material_id as u16;
            }
            proof {
                lemma_edge_halves(level);
            }
            let half = curr_size / 2;
            let ghost cmin: Point = (curr_min[0] as int, curr_min[1] as int, curr_min[2] as int);
            assert(half as int == edge((level - 1) as nat));
            assert(curr_min[0] <= pos[0] && curr_min[1] <= pos[1] && curr_min[2] <= pos[2]);
            let (octant, cm) = child_octant(curr_min, half, pos);
            proof {
                lemma_child_octant(cmin, level, p);
            }
            curr_min = cm;
            proof {
                lemma_mask_test(node.child_mask, octant);
            }
            if (node.child_mask & (1u32 << octant)) == 0 {
                return 0;
            }
            current_idx = (node.child_pointer + octant) as usize;
            curr_size = half;
            proof {
                level = (level - 1) as nat;
            }
        }
    }
}

/// The octant of `pos` in the cube at `min` whose children have edge `half`,
/// and the minimum corner of that child.
pub fn child_octant(min: [i64; 3], half: i64, pos: [i64; 3]) -> (r: (u32, [i64; 3]))
    requires
        half >= 1,
        -0x4000_0000_0000_0000 <= min[0] <= 0x4000_0000_0000_0000,
        -0x4000_0000_0000_0000 <= min[1] <= 0x4000_0000_0000_0000,
        -0x4000_0000_0000_0000 <= min[2] <= 0x4000_0000_0000_0000,
        half <= 0x2000_0000_0000_0000,
    ensures
        r.0 == (if pos[0] >= min[0] + half { 1int } else { 0int }) + (if pos[1] >= min[1] + half { 2int } else { 0int })
            + (if pos[2] >= min[2] + half { 4int } else { 0int }),
        r.0 < 8,
        r.1[0] == min[0] + (if pos[0] >= min[0] + half { half as int } else { 0 }),
        r.1[1] == min[1] + (if pos[1] >= min[1] + half { half as int } else { 0 }),
        r.1[2] == min[2] + (if pos[2] >= min[2] + half { half as int } else { 0 }),
{
    let mut octant: u32 = 0;
    let mut m = min;
    if pos[0] >= min[0] + half {
        octant = octant + 1;
        m[0] = min[0] + half;
    }
    if pos[1] >= min[1] + half {
        octant = octant + 2;
        m[1] = min[1] + half;
    }
    if pos[2] >= min[2] + half {
        octant = octant + 4;
        m[2] = min[2] + half;
    }
    (octant, m)
}

/// `child_min` of the octant of a point is the corner `child_octant` computes.
pub proof fn lemma_child_octant(min: Point, level: nat, p: Point)
    requires
        level >= 1,
    ensures
        ({
            let half = edge((level - 1) as nat);
            let o = octant_of(min, level, p);
            &&& 0 <= o < 8
            &&& o % 2 == 1 <==> p.0 >= min.0 + half
            &&& (o / 2) % 2 == 1 <==> p.1 >= min.1 + half
            &&& o >= 4 <==> p.2 >= min.2 + half
            &&& child_min(min, level, o) == (
                min.0 + (if p.0 >= min.0 + half { half } else { 0 }),
                min.1 + (if p.1 >= min.1 + half { half } else { 0 }),
                min.2 + (if p.2 >= min.2 + half { half } else { 0 }))
        }),
{
}

/// A block that may be freed: in range, pointed at by no node, not on the
/// free list, its eight nodes all at one level.
pub open spec fn detached_block(n: Seq<OctreeNode>, lv: Seq<nat>, free: Seq<u32>, b: int) -> bool {
    &&& b % 8 == 1
    &&& b + 8 <= n.len()
    &&& unreferenced(n, b)
    &&& forall|k: int| 0 <= k < free.len() ==> #[trigger] free[k] != b
    &&& forall|o: int| 0 <= o < 8 ==> #[trigger] lv[b + o] == lv[b]
}

/// Pages of the blocks on the free list from position `from` on.
pub open spec fn freed_pages(free: Seq<u32>, from: int) -> Set<usize> {
    Set::new(|q: usize| exists|k: int| from <= k < free.len() && #[trigger] page_range(free[k] as int, 8).contains(q))
}

/// Some node in the subtrees of the first `k` nodes of block `b` points at `f`.
pub open spec fn referenced_within(n: Seq<OctreeNode>, b: int, level: nat, f: int, k: nat) -> bool {
    exists|q: int| 0 <= q < n.len() && #[trigger] in_reach_block(n, b, level, q, k) && n[q].child_pointer == f
}

/// `after` is `before` with the block at `b` and every block below it freed.
pub open spec fn freed(before: Octree, after: Octree, b: int, level: nat) -> bool {
    let n0 = before.nodes@;
    let f0 = before.free_list@;
    let f1 = after.free_list@;
    &&& forall|o: int| 0 <= o < 8 ==> #[trigger] after.nodes@[b + o] == empty_node()
    &&& forall|x: int| 0 <= x < n0.len() && #[trigger] in_reach_block(n0, b, level, x, 8) ==> after.nodes@[x] == empty_node()
    &&& forall|x: int| 0 <= x < n0.len() && !in_reach_block(n0, b, level, x, 8) ==> #[trigger] after.nodes@[x] == n0[x]
    &&& f1.len() > f0.len()
    &&& f1.subrange(0, f0.len() as int) == f0
    &&& f1.last() == b
    &&& forall|k: int| f0.len() <= k < f1.len() - 1 ==> referenced_within(n0, b, level, #[trigger] f1[k] as int, 8)
    &&& after.dirty_pages@ == before.dirty_pages@.union(freed_pages(f1, f0.len() as int))
}

/// The nodes of a block whose first `k` nodes sit at `level` reach, through
/// their subtrees, only nodes at or below `level`; node `b + j` for `j >= k`
/// lies in none of the first `k` subtrees.
proof fn lemma_block_level(n: Seq<OctreeNode>, lv: Seq<nat>, b: int, level: nat, j: int, k: nat)
    requires
        tree_ok(n, lv),
        b >= 0,
        b + 8 <= n.len(),
        forall|o: int| 0 <= o < 8 ==> #[trigger] lv[b + o] == level,
        k <= j < 8,
    ensures
        !in_reach_block(n, b, level, b + j, k),
{
    lemma_block(n, b, level, b + j, k);
    assert forall|o: int| 0 <= o < k implies !#[trigger] in_reach(n, b + o, level, b + j) by {
        if in_reach(n, b + o, level, b + j) {
            lemma_reach_levels(n, lv, b + o, level, b + j);
        }
    }
}

/// Every node pointing at the block that holds `i` has the bit of `i` set.
pub open spec fn parent_bit_ok(n: Seq<OctreeNode>, i: int) -> bool {
    forall|q: int, o: int| 0 <= q < n.len() && 0 <= o < 8 && n[q].child_pointer != 0 && n[q].child_pointer + o == i
        ==> #[trigger] mask_bit(n[q].child_mask, o)
}

/// Turning a node into a leaf keeps the invariant as long as the leaf's
/// material fits and the node does not become nonempty; the block it pointed
/// at is left detached.
proof fn lemma_make_leaf(n0: Seq<OctreeNode>, n1: Seq<OctreeNode>, lv: Seq<nat>, free: Seq<u32>, i: int, v: OctreeNode)
    requires
        tree_ok(n0, lv),
        free_ok(n0, free),
        0 <= i < n0.len(),
        n1 == n0.update(i, v),
        v.child_pointer == 0,
        v.material_id <= 0xffff,
        node_nonempty(v) ==> node_nonempty(n0[i]) || parent_bit_ok(n0, i),
    ensures
        tree_ok(n1, lv),
        free_ok(n1, free),
        n0[i].child_pointer != 0 ==> detached_block(n1, lv, free, n0[i].child_pointer as int),
{
    assert forall|q: int| 0 <= q < n1.len() implies #[trigger] node_ok(n1, lv, q) by {
        assert(node_ok(n0, lv, q));
        let c = n0[q].child_pointer as int;
        if q != i && c != 0 {
            assert forall|o: int| 0 <= o < 8 && node_nonempty(#[trigger] n1[c + o]) implies mask_bit(n1[q].child_mask, o) by {
                if c + o == i {
                    if !node_nonempty(n0[c + o]) {
                        assert(n0[q].child_pointer + o == i);
                    }
                } else {
                    assert(n1[c + o] == n0[c + o]);
                }
            }
        }
    }
    assert forall|k: int| 0 <= k < free.len() implies unreferenced(n1, #[trigger] free[k] as int) by {
        assert(unreferenced(n0, free[k] as int));
    }
    let c = n0[i].child_pointer as int;
    if c != 0 {
        assert(node_ok(n0, lv, i));
        assert(unreferenced(n1, c)) by {
            assert forall|q: int| 0 <= q < n1.len() implies (#[trigger] n1[q]).child_pointer != c by {
                if q != i {
                    assert(n0[q].child_pointer != n0[i].child_pointer);
                }
            }
        }
        assert forall|k: int| 0 <= k < free.len() implies #[trigger] free[k] != c by {
            assert(unreferenced(n0, free[k] as int));
        }
        assert forall|o: int| 0 <= o < 8 implies #[trigger] lv[c + o] == lv[c] by {
            assert(lv[c + o] == lv[i] - 1);
            assert(lv[c + 0] == lv[i] - 1);
        }
    }
}

/// The subtree below node `o` of the block under child `i` of a detached
/// block is untouched while the earlier children are freed.
proof fn lemma_child_subtree_frame(n0: Seq<OctreeNode>, cur: Seq<OctreeNode>, lv: Seq<nat>, b: int, level: nat, i: int, o: int)
    requires
        tree_ok(n0, lv),
        b >= 1,
        b % 8 == 1,
        b + 8 <= n0.len(),
        forall|o: int| 0 <= o < 8 ==> #[trigger] lv[b + o] == level,
        0 <= i < 8,
        0 <= o < 8,
        cur.len() == n0.len(),
        forall|x: int| 0 <= x < n0.len() && !in_reach_block(n0, b, level, x, i as nat) && x != b + i
            ==> #[trigger] cur[x] == n0[x],
        n0[b + i].child_pointer != 0,
        level > 0,
    ensures
        forall|x: int| #[trigger] in_reach(cur, n0[b + i].child_pointer + o, (level - 1) as nat, x)
            == in_reach(n0, n0[b + i].child_pointer + o, (level - 1) as nat, x),
{
    let c = n0[b + i].child_pointer as int;
    assert(node_ok(n0, lv, b + i));
    assert forall|x: int| #[trigger] in_reach(n0, c + o, (level - 1) as nat, x) implies
        0 <= x < n0.len() && x < cur.len() && cur[x] == n0[x] by {
        lemma_reach_levels(n0, lv, c + o, (level - 1) as nat, x);
        lemma_block(n0, b, level, x, i as nat);
        assert forall|j: int| 0 <= j < i implies !#[trigger] in_reach(n0, b + j, level, x) by {
            lemma_reach_unfold(n0, b + i, level, x);
            assert(in_reach(n0, b + i, level, x));
            assert(lv[b + j] == level);
            lemma_disjoint(n0, lv, b + j, b + i, level, x);
        }
    }
    lemma_frame(n0, cur, c + o, (level - 1) as nat);
}

/// What offering the nodes of `path` for collapsing does, last first: each
/// offered node takes one `collapse_step`, and the walk stops after the first
/// node that cannot be collapsed.
pub open spec fn path_collapsed(before: Octree, after: Octree, path: Seq<(usize, usize)>) -> bool
    decreases path.len(),
{
    if path.len() == 0 {
        after == before
    } else {
        exists|mid: Octree, c: bool| #[trigger] collapse_step(before, mid, path.last().0 as int, c)
            && if c { path_collapsed(mid, after, path.drop_last()) } else { after == mid }
    }
}

/// The eight children of the block at `cp` are leaves of one material.
pub open spec fn uniform_leaves(n: Seq<OctreeNode>, cp: int) -> bool {
    &&& forall|o: int| 0 <= o < 8 ==> (#[trigger] n[cp + o]).child_pointer == 0
    &&& forall|o: int| 0 <= o < 8 ==> (#[trigger] n[cp + o]).material_id == n[cp].material_id
}

/// What `try_collapse_node` does to node `i`.
pub open spec fn collapse_step(before: Octree, after: Octree, i: int, collapsed: bool) -> bool {
    let n0 = before.nodes@;
    let n1 = after.nodes@;
    let cp = n0[i].child_pointer as int;
    let level = before.levels@[i];
    &&& after.same_frame(before)
    &&& after.levels == before.levels
    &&& n1.len() == n0.len()
    &&& forall|min: Point, p: Point| #[trigger] sem(n1, i, level, min, p) == sem(n0, i, level, min, p)
    &&& forall|x: int| 0 <= x < n0.len() && !in_reach(n0, i, level, x) ==> #[trigger] n1[x] == n0[x]
    &&& forall|x: int| #[trigger] in_reach(n1, i, level, x) ==> in_reach(n0, i, level, x)
    &&& node_nonempty(n1[i]) ==> node_nonempty(n0[i])
    &&& cp == 0 ==> collapsed && after.nodes == before.nodes && after.free_list == before.free_list
        && after.dirty_pages == before.dirty_pages
    &&& cp != 0 ==> {
        &&& collapsed == uniform_leaves(n0, cp)
        &&& collapsed ==> {
            let m = n0[cp].material_id;
            &&& n1[i] == OctreeNode {
                material_id: m,
                child_pointer: 0,
                child_mask: if m != 0 { 0xFFu32 } else { 0u32 },
                _pad: n0[i]._pad,
            }
            &&& after.free_list@ == before.free_list@.push(cp as u32)
            &&& after.dirty_pages@ == before.dirty_pages@.union(page_range(cp, 8)).union(page_range(i, 1))
        }
        &&& !collapsed ==> {
            &&& n1[i].child_pointer == n0[i].child_pointer
            &&& n1[i].material_id == 0
            &&& n1[i]._pad == n0[i]._pad
            &&& n1[i].child_mask < 256
            &&& forall|o: int| 0 <= o < 8 ==> #[trigger] mask_bit(n1[i].child_mask, o) == node_nonempty(n0[cp + o])
            &&& forall|x: int| 0 <= x < n0.len() && x != i ==> #[trigger] n1[x] == n0[x]
            &&& after.free_list == before.free_list
            &&& after.dirty_pages@ == before.dirty_pages@.union(page_range(i, 1))
        }
    }
}

/// Setting bit `i` of a mask.
pub proof fn lemma_or_bit(m: u32, i: u32, j: u32)
    requires
        i < 8,
        j < 8,
    ensures
        mask_bit(m | (1u32 << i), j as int) == (j == i || mask_bit(m, j as int)),
        m < 256 ==> (m | (1u32 << i)) < 256,
        mask_bit(m, i as int) ==> (m | (1u32 << i)) == m,
{
    assert((((m | (1u32 << i)) >> j) & 1u32 == 1u32) == (j == i || (m >> j) & 1u32 == 1u32)) by (bit_vector)
        requires
            i < 8,
            j < 8,
    ;
    assert(m < 256 ==> (m | (1u32 << i)) < 256) by (bit_vector)
        requires
            i < 8,
    ;
    assert(((m >> i) & 1u32 == 1u32) ==> (m | (1u32 << i)) == m) by (bit_vector)
        requires
            i < 8,
    ;
}

/// A single-bit mask is not empty.
pub proof fn lemma_single_bit(o: u32)
    requires
        o < 8,
    ensures
        (1u32 << o) != 0,
        mask_bit(1u32 << o, o as int),
        forall|j: int| 0 <= j < 8 && j != o ==> !#[trigger] mask_bit(1u32 << o, j),
{
    assert((1u32 << o) != 0 && ((1u32 << o) >> o) & 1u32 == 1u32) by (bit_vector)
        requires
            o < 8,
    ;
    assert forall|j: int| 0 <= j < 8 && j != o implies !#[trigger] mask_bit(1u32 << o, j) by {
        let jj = j as u32;
        assert(!(((1u32 << o) >> jj) & 1u32 == 1u32)) by (bit_vector)
            requires
                o < 8,
                jj < 8,
                jj != o,
        ;
    }
}

/// The full and the empty mask.
pub proof fn lemma_full_empty_mask(o: int)
    requires
        0 <= o < 8,
    ensures
        mask_bit(0xFFu32, o),
        !mask_bit(0u32, o),
{
    let j = o as u32;
    assert(((0xFFu32 >> j) & 1u32 == 1u32) && !((0u32 >> j) & 1u32 == 1u32)) by (bit_vector)
        requires
            j < 8,
    ;
}

/// Recomputing the mask of a node to flag exactly its nonempty children, and
/// clearing its material, keeps the invariant and what it holds.
proof fn lemma_recompute_mask(n0: Seq<OctreeNode>, n1: Seq<OctreeNode>, lv: Seq<nat>, free: Seq<u32>, i: int)
    requires
        tree_ok(n0, lv),
        free_ok(n0, free),
        0 <= i < n0.len(),
        n0[i].child_pointer != 0,
        n1 == n0.update(i, n1[i]),
        n1[i].child_pointer == n0[i].child_pointer,
        n1[i].material_id == 0,
        n1[i].child_mask != 0,
        forall|o: int| 0 <= o < 8 ==> #[trigger] mask_bit(n1[i].child_mask, o) == node_nonempty(n0[n0[i].child_pointer + o]),
    ensures
        tree_ok(n1, lv),
        free_ok(n1, free),
        forall|min: Point, p: Point| #[trigger] sem(n1, i, lv[i], min, p) == sem(n0, i, lv[i], min, p),
        forall|x: int| #[trigger] in_reach(n1, i, lv[i], x) == in_reach(n0, i, lv[i], x),
{
    assert(node_ok(n0, lv, i));
    let cp = n0[i].child_pointer as int;
    lemma_child_block_frame(n0, n1, lv, i);
    assert forall|q: int| 0 <= q < n1.len() implies #[trigger] node_ok(n1, lv, q) by {
        assert(node_ok(n0, lv, q));
        let c = n0[q].child_pointer as int;
        if q != i && c != 0 {
            assert forall|o: int| 0 <= o < 8 && node_nonempty(#[trigger] n1[c + o]) implies mask_bit(n1[q].child_mask, o) by {
                if c + o == i {
                    assert(node_nonempty(n0[c + o]));
                } else {
                    assert(n1[c + o] == n0[c + o]);
                }
            }
        }
        if q == i {
            assert forall|o: int| 0 <= o < 8 implies #[trigger] n1[cp + o] == n0[cp + o] by {
                assert(lv[cp + o] == lv[i] - 1);
            }
        }
    }
    assert forall|i1: int, j1: int|
        0 <= i1 < n1.len() && 0 <= j1 < n1.len() && i1 != j1 && (#[trigger] n1[i1]).child_pointer != 0
            implies n1[i1].child_pointer != (#[trigger] n1[j1]).child_pointer by {
        assert(n0[i1].child_pointer != n0[j1].child_pointer);
    }
    assert forall|k: int| 0 <= k < free.len() implies unreferenced(n1, #[trigger] free[k] as int) by {
        assert(unreferenced(n0, free[k] as int));
    }
    assert forall|min: Point, p: Point| #[trigger] sem(n1, i, lv[i], min, p) == sem(n0, i, lv[i], min, p) by {
        let o = octant_of(min, lv[i], p);
        assert(0 <= o < 8);
        let cm = child_min(min, lv[i], o);
        assert(sem(n1, cp + o, (lv[i] - 1) as nat, cm, p) == sem(n0, cp + o, (lv[i] - 1) as nat, cm, p));
        if !node_nonempty(n0[cp + o]) {
            assert(sem(n0, cp + o, (lv[i] - 1) as nat, cm, p) == 0);
        }
    }
    assert forall|x: int| #[trigger] in_reach(n1, i, lv[i], x) == in_reach(n0, i, lv[i], x) by {
        lemma_reach_unfold(n0, i, lv[i], x);
        lemma_reach_unfold(n1, i, lv[i], x);
        if in_reach(n0, i, lv[i], x) && x != i {
            let o = choose|o: int| 0 <= o < 8 && #[trigger] in_reach(n0, cp + o, (lv[i] - 1) as nat, x);
            assert(in_reach(n1, cp + o, (lv[i] - 1) as nat, x));
        }
        if in_reach(n1, i, lv[i], x) && x != i {
            let o = choose|o: int| 0 <= o < 8 && #[trigger] in_reach(n1, cp + o, (lv[i] - 1) as nat, x);
            assert(in_reach(n0, cp + o, (lv[i] - 1) as nat, x));
        }
    }
}

/// A node whose children are leaves of one material holds that material all
/// over its cube.
proof fn lemma_collapse_sem(n0: Seq<OctreeNode>, n1: Seq<OctreeNode>, lv: Seq<nat>, i: int)
    requires
        tree_ok(n0, lv),
        0 <= i < n0.len(),
        n0[i].child_pointer != 0,
        uniform_leaves(n0, n0[i].child_pointer as int),
        n1 == n0.update(i, n1[i]),
        n1[i].child_pointer == 0,
        n1[i].material_id == n0[n0[i].child_pointer as int].material_id,
    ensures
        forall|min: Point, p: Point| #[trigger] sem(n1, i, lv[i], min, p) == sem(n0, i, lv[i], min, p),
{
    assert(node_ok(n0, lv, i));
    let cp = n0[i].child_pointer as int;
    assert forall|min: Point, p: Point| #[trigger] sem(n1, i, lv[i], min, p) == sem(n0, i, lv[i], min, p) by {
        let o = octant_of(min, lv[i], p);
        assert(0 <= o < 8);
        assert(n0[cp + o].child_pointer == 0);
        assert(n0[cp + o].material_id == n0[cp].material_id);
        let cm = child_min(min, lv[i], o);
        assert(sem(n0, cp + o, (lv[i] - 1) as nat, cm, p) == n0[cp].material_id as int);
        if n0[cp].material_id != 0 {
            assert(node_nonempty(n0[cp + o]));
        }
    }
}

/// Changing only node `i` leaves the subtrees of its children alone.
proof fn lemma_child_block_frame(n0: Seq<OctreeNode>, n1: Seq<OctreeNode>, lv: Seq<nat>, i: int)
    requires
        tree_ok(n0, lv),
        0 <= i < n0.len(),
        n0[i].child_pointer != 0,
        n1 == n0.update(i, n1[i]),
    ensures
        forall|o: int, x: int| 0 <= o < 8 ==> (#[trigger] in_reach(n1, n0[i].child_pointer + o, (lv[i] - 1) as nat, x)
            == in_reach(n0, n0[i].child_pointer + o, (lv[i] - 1) as nat, x)),
        forall|o: int, min: Point, p: Point| 0 <= o < 8 ==> (#[trigger] sem(n1, n0[i].child_pointer + o, (lv[i] - 1) as nat, min, p)
            == sem(n0, n0[i].child_pointer + o, (lv[i] - 1) as nat, min, p)),
{
    lemma_child_frame_one(n0, n1, lv, i, 0);
    lemma_child_frame_one(n0, n1, lv, i, 1);
    lemma_child_frame_one(n0, n1, lv, i, 2);
    lemma_child_frame_one(n0, n1, lv, i, 3);
    lemma_child_frame_one(n0, n1, lv, i, 4);
    lemma_child_frame_one(n0, n1, lv, i, 5);
    lemma_child_frame_one(n0, n1, lv, i, 6);
    lemma_child_frame_one(n0, n1, lv, i, 7);
}

proof fn lemma_child_frame_one(n0: Seq<OctreeNode>, n1: Seq<OctreeNode>, lv: Seq<nat>, i: int, o: int)
    requires
        tree_ok(n0, lv),
        0 <= i < n0.len(),
        n0[i].child_pointer != 0,
        n1 == n0.update(i, n1[i]),
        0 <= o < 8,
    ensures
        forall|x: int| #[trigger] in_reach(n1, n0[i].child_pointer + o, (lv[i] - 1) as nat, x)
            == in_reach(n0, n0[i].child_pointer + o, (lv[i] - 1) as nat, x),
        forall|min: Point, p: Point| #[trigger] sem(n1, n0[i].child_pointer + o, (lv[i] - 1) as nat, min, p)
            == sem(n0, n0[i].child_pointer + o, (lv[i] - 1) as nat, min, p),
{
    assert(node_ok(n0, lv, i));
    let c = n0[i].child_pointer + o;
    assert forall|x: int| #[trigger] in_reach(n0, c, (lv[i] - 1) as nat, x) implies
        0 <= x < n0.len() && x < n1.len() && n1[x] == n0[x] by {
        lemma_reach_levels(n0, lv, c, (lv[i] - 1) as nat, x);
    }
    lemma_frame(n0, n1, c, (lv[i] - 1) as nat);
}

/// After a subdivision, a node other than the split one and its new children
/// is still sound.
proof fn lemma_subdivide_other(na: Seq<OctreeNode>, n1: Seq<OctreeNode>, lv: Seq<nat>, lva: Seq<nat>,
    idx: int, b: int, q: int, level: nat)
    requires
        tree_ok(na, lva),
        0 <= idx < na.len(),
        n1.len() == na.len(),
        lv.len() == na.len(),
        b % 8 == 1,
        b + 8 <= na.len(),
        unreferenced(na, b),
        !(b <= idx < b + 8),
        forall|x: int| 0 <= x < na.len() && x != idx && !(b <= x < b + 8) ==> #[trigger] n1[x] == na[x],
        forall|x: int| 0 <= x < na.len() && !(b <= x < b + 8) ==> #[trigger] lv[x] == lva[x],
        lva[idx] == level,
        na[idx].child_pointer == 0,
        node_nonempty(n1[idx]),
        node_nonempty(na[idx]) || parent_bit_ok(na, idx),
        0 <= q < n1.len(),
        q != idx,
        !(b <= q < b + 8),
    ensures
        node_ok(n1, lv, q),
{
    assert(node_ok(na, lva, q));
    let c = na[q].child_pointer as int;
    if c != 0 {
        assert(c != b);
        assert forall|o: int| 0 <= o < 8 implies !(b <= #[trigger] (c + o) < b + 8) by {}
        assert forall|o: int| 0 <= o < 8 implies #[trigger] lv[c + o] == lv[q] - 1 by {
            assert(lva[c + o] == lva[q] - 1);
        }
        assert forall|o: int| 0 <= o < 8 && node_nonempty(#[trigger] n1[c + o]) implies mask_bit(n1[q].child_mask, o) by {
            if c + o == idx {
                if !node_nonempty(na[c + o]) {
                    assert(na[q].child_pointer + o == idx);
                }
            } else {
                assert(n1[c + o] == na[c + o]);
            }
        }
    }
}

/// After a subdivision, child pointers are still unique.
proof fn lemma_subdivide_unique(na: Seq<OctreeNode>, n1: Seq<OctreeNode>, idx: int, b: int, i1: int, j1: int)
    requires
        pointers_unique(na),
        0 <= idx < na.len(),
        n1.len() == na.len(),
        b % 8 == 1,
        b + 8 <= na.len(),
        unreferenced(na, b),
        forall|x: int| 0 <= x < na.len() && x != idx && !(b <= x < b + 8) ==> #[trigger] n1[x] == na[x],
        forall|o: int| 0 <= o < 8 ==> (#[trigger] n1[b + o]).child_pointer == 0,
        n1[idx].child_pointer == b,
        na[idx].child_pointer == 0,
        0 <= i1 < n1.len(),
        0 <= j1 < n1.len(),
        i1 != j1,
        n1[i1].child_pointer != 0,
    ensures
        n1[i1].child_pointer != n1[j1].child_pointer,
{
    if b <= i1 < b + 8 {
        assert(n1[b + (i1 - b)].child_pointer == 0);
    } else if b <= j1 < b + 8 {
        assert(n1[b + (j1 - b)].child_pointer == 0);
    } else if i1 == idx {
        assert(n1[j1] == na[j1]);
    } else if j1 == idx {
        assert(n1[i1] == na[i1]);
    } else {
        assert(n1[i1] == na[i1]);
        assert(n1[j1] == na[j1]);
    }
}

/// A cube of edge `e` is still too wide for a write of edge `size`: wider
/// than `size` by more than a thousandth.
pub open spec fn wider(e: int, size: int) -> bool {
    1000 * e > 1001 * size
}

/// The cube at level `target_level` that the descent of an insertion of a
/// cube of edge `size` at `pos` stops at: it goes down while the current cube
/// is wider than `size` (by more than a thousandth).
pub open spec fn target_level(level: nat, size: int) -> nat
    decreases level,
{
    if level > 0 && wider(edge(level), size) {
        target_level((level - 1) as nat, size)
    } else {
        level
    }
}

pub open spec fn target_min(min: Point, level: nat, pos: Point, size: int) -> Point
    decreases level,
{
    if level > 0 && wider(edge(level), size) {
        target_min(child_min(min, level, octant_of(min, level, pos)), (level - 1) as nat, pos, size)
    } else {
        min
    }
}

/// `p` lies in the cell that inserting a cube of edge `size` at `pos` into the
/// cube `min` of the given level overwrites.
pub open spec fn in_target(min: Point, level: nat, pos: Point, size: int, p: Point) -> bool {
    in_cube(target_min(min, level, pos, size), target_level(level, size), p)
}

pub open spec fn pt(a: [i64; 3]) -> Point {
    (a[0] as int, a[1] as int, a[2] as int)
}

/// Two octrees agree on every field.
pub open spec fn same_state(a: Octree, b: Octree) -> bool {
    &&& a.nodes@ == b.nodes@
    &&& a.free_list@ == b.free_list@
    &&& a.dirty_pages@ == b.dirty_pages@
    &&& a.levels == b.levels
    &&& a.same_frame(b)
}

/// A child cube lies inside its parent, in the octant it is named for.
pub proof fn lemma_child_cube(min: Point, level: nat, o: int, p: Point)
    requires
        1 <= level,
        0 <= o < 8,
    ensures
        in_cube(child_min(min, level, o), (level - 1) as nat, p) ==> in_cube(min, level, p) && octant_of(min, level, p) == o,
        in_cube(min, level, p) && octant_of(min, level, p) == o ==> in_cube(child_min(min, level, o), (level - 1) as nat, p),
{
    lemma_pow2_unfold(level);
}

/// What `subdivide` does to leaf `idx`.
pub open spec fn subdivided(s0: Octree, s1: Octree, idx: int, level: nat, new_ptr: int, o: int) -> bool {
    let n0 = s0.nodes@;
    let n1 = s1.nodes@;
    let m = n0[idx].material_id;
    &&& s1.wf()
    &&& new_ptr % 8 == 1
    &&& new_ptr + 8 <= n1.len()
    &&& n1.len() >= n0.len()
    &&& n1.len() <= n0.len() + 8
    &&& n1[idx] == OctreeNode {
        child_mask: if m != 0 { 0xFFu32 } else { 1u32 << (o as u32) },
        child_pointer: new_ptr as u32,
        material_id: 0,
        _pad: n0[idx]._pad,
    }
    &&& forall|o: int| 0 <= o < 8 ==> #[trigger] n1[new_ptr + o]
        == (OctreeNode { child_mask: 0, child_pointer: 0, material_id: m, _pad: 0 })
    &&& forall|o: int| 0 <= o < 8 ==> #[trigger] s1.levels@[new_ptr + o] == level - 1
    &&& forall|x: int| new_ptr <= x < new_ptr + 8 ==> (#[trigger] in_free(s0.free_list@, x) || x >= n0.len())
    &&& forall|x: int| new_ptr <= x < new_ptr + 8 ==> !#[trigger] in_free(s1.free_list@, x)
    &&& forall|x: int| 0 <= x < n0.len() && x != idx && !(new_ptr <= x < new_ptr + 8)
        ==> #[trigger] n1[x] == n0[x] && s1.levels@[x] == s0.levels@[x]
    &&& s1.levels@[idx] == level
    &&& forall|x: int| #[trigger] in_free(s1.free_list@, x) ==> in_free(s0.free_list@, x)
    &&& forall|min: Point, p: Point| #[trigger] sem(n1, idx, level, min, p) == sem(n0, idx, level, min, p)
    &&& forall|x: int| #[trigger] in_reach(n1, idx, level, x) ==> x == idx || new_ptr <= x < new_ptr + 8
}

/// What inserting below node `idx` (standing for the cube `min` of the given
/// level) did: the target cell holds `m`, the rest of the cube is as before,
/// and only nodes of the subtree, of free blocks, or new ones changed.
pub open spec fn inserted(s0: Octree, s1: Octree, idx: int, level: nat, min: Point, pos: Point, size: int, m: int) -> bool {
    let n0 = s0.nodes@;
    let n1 = s1.nodes@;
    &&& n1.len() >= n0.len()
    &&& n1.len() <= n0.len() + 8 * level
    &&& s1.levels@[idx] == level
    &&& forall|x: int| 0 <= x < n0.len() && !in_reach(n0, idx, level, x) && !in_free(s0.free_list@, x)
        ==> #[trigger] n1[x] == n0[x] && s1.levels@[x] == s0.levels@[x]
    &&& forall|x: int| #[trigger] in_reach(n1, idx, level, x)
        ==> in_reach(n0, idx, level, x) || in_free(s0.free_list@, x) || x >= n0.len()
    &&& forall|p: Point| in_cube(min, level, p) ==> #[trigger] sem(n1, idx, level, min, p)
        == if in_target(min, level, pos, size, p) { m } else { sem(n0, idx, level, min, p) }
    &&& node_nonempty(n1[idx]) ==> m != 0 || node_nonempty(n0[idx])
}

/// `s2` is `s1` with bit `o` set in the mask of node `i`.
pub open spec fn bit_set_step(s1: Octree, s2: Octree, i: int, o: int) -> bool {
    &&& s2.nodes@ == s1.nodes@.update(i, OctreeNode {
        child_mask: s1.nodes@[i].child_mask | (1u32 << (o as u32)),
        ..s1.nodes@[i]
    })
    &&& s2.free_list@ == s1.free_list@
    &&& s2.dirty_pages@ == s1.dirty_pages@
    &&& s2.levels == s1.levels
    &&& s2.same_frame(s1)
}

/// The state of an insertion at node `idx` just before it goes down into
/// child `o` of the block at `cp`.
pub open spec fn descend_ready(s0: Octree, s2: Octree, idx: int, level: nat, cp: int, o: int, m: int) -> bool {
    let n0 = s0.nodes@;
    let n2 = s2.nodes@;
    let c = cp + o;
    &&& s2.wf()
    &&& s2.same_frame(s0)
    &&& 0 <= idx < n0.len()
    &&& level >= 1
    &&& 0 <= o < 8
    &&& cp % 8 == 1
    &&& cp + 8 <= n2.len()
    &&& n2[idx].child_pointer == cp
    &&& s2.levels@[idx] == level
    &&& s2.levels@[c] == level - 1
    &&& !in_free(s2.free_list@, c)
    &&& !in_free(s2.free_list@, idx)
    &&& n2.len() >= n0.len()
    &&& n2.len() <= n0.len() + 8
    &&& n2.len() + 8 * (level - 1) < MAX_NODES
    &&& m != 0 ==> parent_bit_ok(n2, c)
    &&& m != 0 ==> mask_bit(n2[idx].child_mask, o)
    &&& forall|min: Point, p: Point| #[trigger] sem(n2, idx, level, min, p) == sem(n0, idx, level, min, p)
    &&& forall|x: int| 0 <= x < n0.len() && !in_reach(n0, idx, level, x) && !in_free(s0.free_list@, x)
        ==> #[trigger] n2[x] == n0[x] && s2.levels@[x] == s0.levels@[x]
    &&& forall|x: int| #[trigger] in_reach(n2, idx, level, x)
        ==> in_reach(n0, idx, level, x) || in_free(s0.free_list@, x) || x >= n0.len()
    &&& forall|x: int| #[trigger] in_free(s2.free_list@, x) ==> in_free(s0.free_list@, x)
    &&& node_nonempty(n2[idx]) ==> m != 0 || node_nonempty(n0[idx])
    &&& n0[idx].child_pointer == 0 ==> n2[c].child_pointer == 0 && n2[c].material_id == n0[idx].material_id
        && n0[idx].material_id != m
    &&& n0[idx].child_pointer != 0 ==> {
        &&& cp == n0[idx].child_pointer
        &&& n2[c] == n0[c]
        &&& (m == 0 || mask_bit(n0[idx].child_mask, o)) ==> same_state(s2, s0)
    }
}

/// No node of a subtree rooted outside the free blocks lies in a free block.
pub proof fn lemma_reach_not_free(n: Seq<OctreeNode>, lv: Seq<nat>, free: Seq<u32>, a: int, level: nat, x: int)
    requires
        tree_ok(n, lv),
        free_ok(n, free),
        0 <= a < n.len(),
        !in_free(free, a),
        in_reach(n, a, level, x),
    ensures
        !in_free(free, x),
    decreases level,
{
    if x != a {
        lemma_reach_unfold(n, a, level, x);
        assert(node_ok(n, lv, a));
        let cp = n[a].child_pointer as int;
        let o = choose|o: int| 0 <= o < 8 && #[trigger] in_reach(n, cp + o, (level - 1) as nat, x);
        assert(!in_free(free, cp + o)) by {
            if in_free(free, cp + o) {
                let k = choose|k: int| 0 <= k < free.len() && #[trigger] free[k] <= cp + o < free[k] + 8;
                assert(free[k] % 8 == 1);
                assert(free[k] == cp);
                assert(unreferenced(n, free[k] as int));
            }
        }
        lemma_reach_not_free(n, lv, free, cp + o, (level - 1) as nat, x);
    }
}

/// Setting the bit of child `o` in the mask of node `i` keeps the invariant
/// and what `i` holds, and lets that child become nonempty.
proof fn lemma_set_bit(n1: Seq<OctreeNode>, n2: Seq<OctreeNode>, lv: Seq<nat>, free: Seq<u32>, i: int, o: int)
    requires
        tree_ok(n1, lv),
        free_ok(n1, free),
        0 <= i < n1.len(),
        n1[i].child_pointer != 0,
        0 <= o < 8,
        n2 == n1.update(i, OctreeNode { child_mask: n1[i].child_mask | (1u32 << (o as u32)), ..n1[i] }),
    ensures
        tree_ok(n2, lv),
        free_ok(n2, free),
        forall|min: Point, p: Point| #[trigger] sem(n2, i, lv[i], min, p) == sem(n1, i, lv[i], min, p),
        forall|x: int| #[trigger] in_reach(n2, i, lv[i], x) == in_reach(n1, i, lv[i], x),
        parent_bit_ok(n2, n1[i].child_pointer + o),
        mask_bit(n2[i].child_mask, o),
        mask_bit(n1[i].child_mask, o) ==> n2 == n1,
{
    assert(node_ok(n1, lv, i));
    let cp = n1[i].child_pointer as int;
    assert forall|j: int| 0 <= j < 8 implies #[trigger] mask_bit(n2[i].child_mask, j) == (j == o || mask_bit(n1[i].child_mask, j)) by {
        lemma_or_bit(n1[i].child_mask, o as u32, j as u32);
    }
    lemma_or_bit(n1[i].child_mask, o as u32, o as u32);
    lemma_full_empty_mask(o);
    if mask_bit(n1[i].child_mask, o) {
        assert(n2 =~= n1);
    }
    lemma_child_block_frame(n1, n2, lv, i);
    assert forall|q: int| 0 <= q < n2.len() implies #[trigger] node_ok(n2, lv, q) by {
        assert(node_ok(n1, lv, q));
        let c = n1[q].child_pointer as int;
        if q != i && c != 0 {
            assert forall|k: int| 0 <= k < 8 && node_nonempty(#[trigger] n2[c + k]) implies mask_bit(n2[q].child_mask, k) by {
                assert(node_nonempty(n1[c + k]));
            }
        }
        if q == i {
            assert forall|k: int| 0 <= k < 8 && node_nonempty(#[trigger] n2[cp + k]) implies mask_bit(n2[i].child_mask, k) by {
                assert(lv[cp + k] == lv[i] - 1);
                assert(n2[cp + k] == n1[cp + k]);
            }
        }
    }
    assert forall|i1: int, j1: int|
        0 <= i1 < n2.len() && 0 <= j1 < n2.len() && i1 != j1 && (#[trigger] n2[i1]).child_pointer != 0
            implies n2[i1].child_pointer != (#[trigger] n2[j1]).child_pointer by {
        assert(n1[i1].child_pointer != n1[j1].child_pointer);
    }
    assert forall|k: int| 0 <= k < free.len() implies unreferenced(n2, #[trigger] free[k] as int) by {
        assert(unreferenced(n1, free[k] as int));
    }
    assert forall|min: Point, p: Point| #[trigger] sem(n2, i, lv[i], min, p) == sem(n1, i, lv[i], min, p) by {
        let k = octant_of(min, lv[i], p);
        assert(0 <= k < 8);
        let cm = child_min(min, lv[i], k);
        assert(sem(n2, cp + k, (lv[i] - 1) as nat, cm, p) == sem(n1, cp + k, (lv[i] - 1) as nat, cm, p));
        if k == o && !mask_bit(n1[i].child_mask, o) {
            assert(!node_nonempty(n1[cp + k]));
            assert(sem(n1, cp + k, (lv[i] - 1) as nat, cm, p) == 0);
        }
    }
    assert forall|x: int| #[trigger] in_reach(n2, i, lv[i], x) == in_reach(n1, i, lv[i], x) by {
        lemma_reach_unfold(n1, i, lv[i], x);
        lemma_reach_unfold(n2, i, lv[i], x);
        if in_reach(n1, i, lv[i], x) && x != i {
            let k = choose|k: int| 0 <= k < 8 && #[trigger] in_reach(n1, cp + k, (lv[i] - 1) as nat, x);
            assert(in_reach(n2, cp + k, (lv[i] - 1) as nat, x));
        }
        if in_reach(n2, i, lv[i], x) && x != i {
            let k = choose|k: int| 0 <= k < 8 && #[trigger] in_reach(n2, cp + k, (lv[i] - 1) as nat, x);
            assert(in_reach(n1, cp + k, (lv[i] - 1) as nat, x));
        }
    }
    assert forall|q: int, k: int| 0 <= q < n2.len() && 0 <= k < 8 && n2[q].child_pointer != 0
        && n2[q].child_pointer + k == cp + o implies #[trigger] mask_bit(n2[q].child_mask, k) by {
        assert(node_ok(n1, lv, q));
        assert(n2[q].child_pointer == cp);
        if q != i {
            assert(n1[q].child_pointer != n1[i].child_pointer);
        }
    }
}

/// Preparing to go down into child `o`: subdividing a leaf, setting the
/// child's mask bit.
proof fn lemma_descend_pre(s0: Octree, s1: Octree, s2: Octree, idx: int, level: nat, cp: int, o: int, m: int)
    requires
        s0.wf(),
        0 <= idx < s0.nodes@.len(),
        s0.levels@[idx] == level,
        level >= 1,
        !in_free(s0.free_list@, idx),
        s0.nodes@.len() + 8 * level < MAX_NODES,
        m != 0 ==> parent_bit_ok(s0.nodes@, idx),
        0 <= o < 8,
        s1.wf(),
        s1.same_frame(s0),
        s0.nodes@[idx].child_pointer == 0 ==> subdivided(s0, s1, idx, level, cp, o) && cp == s1.nodes@[idx].child_pointer
            && s0.nodes@[idx].material_id != m,
        s0.nodes@[idx].child_pointer != 0 ==> same_state(s1, s0) && cp == s0.nodes@[idx].child_pointer,
        m == 0 ==> same_state(s2, s1),
        m != 0 ==> bit_set_step(s1, s2, idx, o),
    ensures
        descend_ready(s0, s2, idx, level, cp, o, m),
{
    let n0 = s0.nodes@;
    let n1 = s1.nodes@;
    let n2 = s2.nodes@;
    let lv = s1.levels@;
    assert(node_ok(n0, s0.levels@, idx));
    assert(node_ok(n1, lv, idx));
    if m != 0 {
        lemma_set_bit(n1, n2, lv, s1.free_list@, idx, o);
    }
    assert(s2.wf());
    assert(forall|min: Point, p: Point| #[trigger] sem(n2, idx, level, min, p) == sem(n1, idx, level, min, p));
    assert(forall|x: int| #[trigger] in_reach(n2, idx, level, x) == in_reach(n1, idx, level, x));
    lemma_reach_unfold(n1, idx, level, cp + o);
    assert(in_reach(n1, cp + o, (level - 1) as nat, cp + o));
    assert(in_reach(n1, idx, level, cp + o));
    if n0[idx].child_pointer != 0 {
        lemma_reach_not_free(n0, s0.levels@, s0.free_list@, idx, level, cp + o);
        assert forall|x: int| 0 <= x < n0.len() && !in_reach(n0, idx, level, x) && !in_free(s0.free_list@, x)
            implies #[trigger] n2[x] == n0[x] && s2.levels@[x] == s0.levels@[x] by {
            assert(x != idx);
        }
    } else {
        assert(!in_free(s1.free_list@, cp + o));
        assert forall|x: int| 0 <= x < n0.len() && !in_reach(n0, idx, level, x) && !in_free(s0.free_list@, x)
            implies #[trigger] n2[x] == n0[x] && s2.levels@[x] == s0.levels@[x] by {
            assert(x != idx);
            if cp <= x < cp + 8 {
                assert(in_free(s0.free_list@, x) || x >= n0.len());
            } else {
                assert(subdivided(s0, s1, idx, level, cp, o));
                assert(0 <= x < n0.len() && x != idx && !(cp <= x < cp + 8));
                assert(n1[x] == n0[x]);
                assert(n2[x] == n1[x]);
            }
        }
        assert forall|x: int| #[trigger] in_reach(n2, idx, level, x)
            implies in_reach(n0, idx, level, x) || in_free(s0.free_list@, x) || x >= n0.len() by {
            if x != idx {
                assert(cp <= x < cp + 8);
                assert(in_free(s0.free_list@, x) || x >= n0.len());
            }
        }
        assert(n2[cp + o] == n1[cp + o]);
    }
    assert(!in_free(s2.free_list@, idx)) by {
        if in_free(s2.free_list@, idx) {
            assert(in_free(s1.free_list@, idx));
        }
    }
    if m != 0 {
        assert(mask_bit(n2[idx].child_mask, o));
    }
}

/// Coming back up from child `o`: the cell was written below the child, so it
/// is written below `idx`, and the other children are untouched.
proof fn lemma_descend_post(s0: Octree, s2: Octree, s3: Octree, idx: int, level: nat, cp: int, o: int,
    min: Point, pos: Point, size: int, m: int)
    requires
        descend_ready(s0, s2, idx, level, cp, o, m),
        o == octant_of(min, level, pos),
        in_cube(min, level, pos),
        wider(edge(level), size),
        s3.wf(),
        inserted(s2, s3, cp + o, (level - 1) as nat, child_min(min, level, o), pos, size, m),
    ensures
        inserted(s0, s3, idx, level, min, pos, size, m),
        s3.nodes@[idx] == s2.nodes@[idx],
{
    let n0 = s0.nodes@;
    let n2 = s2.nodes@;
    let n3 = s3.nodes@;
    let lv2 = s2.levels@;
    let c = cp + o;
    let cm = child_min(min, level, o);
    assert(node_ok(n2, lv2, idx));
    // idx is outside the child's subtree and outside the free blocks.
    assert(!in_reach(n2, c, (level - 1) as nat, idx)) by {
        if in_reach(n2, c, (level - 1) as nat, idx) {
            lemma_reach_levels(n2, lv2, c, (level - 1) as nat, idx);
        }
    }
    assert(n3[idx] == n2[idx]);
    // The child's subtree sits inside the subtree of idx.
    assert forall|x: int| #[trigger] in_reach(n2, c, (level - 1) as nat, x) implies in_reach(n2, idx, level, x) by {
        lemma_reach_unfold(n2, idx, level, x);
    }
    assert forall|p: Point| in_cube(min, level, p) implies #[trigger] sem(n3, idx, level, min, p)
        == if in_target(min, level, pos, size, p) { m } else { sem(n0, idx, level, min, p) } by {
        let k = octant_of(min, level, p);
        lemma_child_octant(min, level, p);
        let ckm = child_min(min, level, k);
        assert(sem(n2, idx, level, min, p) == sem(n0, idx, level, min, p));
        if k == o {
            lemma_child_cube(min, level, o, p);
            assert(in_cube(cm, (level - 1) as nat, p));
            assert(in_target(min, level, pos, size, p) == in_target(cm, (level - 1) as nat, pos, size, p));
            assert(sem(n3, c, (level - 1) as nat, cm, p)
                == if in_target(cm, (level - 1) as nat, pos, size, p) { m } else { sem(n2, c, (level - 1) as nat, cm, p) });
            assert(sem(n3, idx, level, min, p) == if mask_bit(n2[idx].child_mask, o) { sem(n3, c, (level - 1) as nat, cm, p) } else { 0 });
            assert(sem(n2, idx, level, min, p) == if mask_bit(n2[idx].child_mask, o) { sem(n2, c, (level - 1) as nat, cm, p) } else { 0 });
        } else {
            lemma_child_cube(min, level, o, pos);
            lemma_target_inside(cm, (level - 1) as nat, pos, size, p);
            lemma_child_cube(min, level, o, p);
            assert(!in_target(min, level, pos, size, p));
            lemma_sibling_frame(s0, s2, s3, idx, level, cp, o, k, cm, pos, size, m);
            assert(sem(n3, cp + k, (level - 1) as nat, ckm, p) == sem(n2, cp + k, (level - 1) as nat, ckm, p));
        }
    }
    assert forall|x: int| 0 <= x < n0.len() && !in_reach(n0, idx, level, x) && !in_free(s0.free_list@, x)
        implies #[trigger] n3[x] == n0[x] && s3.levels@[x] == s0.levels@[x] by {
        assert(n2[x] == n0[x]);
        assert(s2.levels@[x] == s0.levels@[x]);
        if in_reach(n2, c, (level - 1) as nat, x) {
            assert(in_reach(n2, idx, level, x));
        }
        if in_free(s2.free_list@, x) {
            assert(in_free(s0.free_list@, x));
        }
        assert(n3[x] == n2[x] && s3.levels@[x] == s2.levels@[x]);
    }
    assert forall|x: int| #[trigger] in_reach(n3, idx, level, x)
        implies in_reach(n0, idx, level, x) || in_free(s0.free_list@, x) || x >= n0.len() by {
        if x != idx {
            lemma_reach_unfold(n3, idx, level, x);
            let k = choose|k: int| 0 <= k < 8 && #[trigger] in_reach(n3, cp + k, (level - 1) as nat, x);
            if k == o {
                if in_reach(n2, c, (level - 1) as nat, x) {
                    assert(in_reach(n2, idx, level, x));
                }
            } else {
                lemma_sibling_frame(s0, s2, s3, idx, level, cp, o, k, cm, pos, size, m);
                assert(in_reach(n2, cp + k, (level - 1) as nat, x));
                lemma_reach_unfold(n2, idx, level, x);
                assert(in_reach(n2, idx, level, x));
            }
        }
    }
}

/// A sibling of the child gone down into keeps what it holds and its extent.
proof fn lemma_sibling_frame(s0: Octree, s2: Octree, s3: Octree, idx: int, level: nat, cp: int, o: int, k: int,
    cm: Point, pos: Point, size: int, m: int)
    requires
        descend_ready(s0, s2, idx, level, cp, o, m),
        inserted(s2, s3, cp + o, (level - 1) as nat, cm, pos, size, m),
        0 <= k < 8,
        k != o,
    ensures
        forall|x: int| #[trigger] in_reach(s3.nodes@, cp + k, (level - 1) as nat, x)
            == in_reach(s2.nodes@, cp + k, (level - 1) as nat, x),
        forall|min: Point, p: Point| #[trigger] sem(s3.nodes@, cp + k, (level - 1) as nat, min, p)
            == sem(s2.nodes@, cp + k, (level - 1) as nat, min, p),
{
    let n2 = s2.nodes@;
    let n3 = s3.nodes@;
    let lv2 = s2.levels@;
    let c = cp + o;
    assert(node_ok(n2, lv2, idx));
    assert(lv2[cp + k] == level - 1);
    assert(in_reach(n2, idx, level, cp + k)) by {
        lemma_reach_unfold(n2, idx, level, cp + k);
        assert(in_reach(n2, cp + k, (level - 1) as nat, cp + k));
    }
    assert(!in_free(s2.free_list@, cp + k)) by {
        lemma_reach_not_free(n2, lv2, s2.free_list@, idx, level, cp + k);
    }
    assert forall|x: int| #[trigger] in_reach(n2, cp + k, (level - 1) as nat, x) implies
        0 <= x < n2.len() && x < n3.len() && n3[x] == n2[x] by {
        lemma_reach_levels(n2, lv2, cp + k, (level - 1) as nat, x);
        lemma_disjoint(n2, lv2, cp + k, c, (level - 1) as nat, x);
        lemma_reach_not_free(n2, lv2, s2.free_list@, cp + k, (level - 1) as nat, x);
    }
    lemma_frame(n2, n3, cp + k, (level - 1) as nat);
}

/// Going down changed nothing when the child reports nothing written.
proof fn lemma_descend_abort(s0: Octree, s2: Octree, s3: Octree, idx: int, level: nat, cp: int, o: int, m: int)
    requires
        s0.wf(),
        descend_ready(s0, s2, idx, level, cp, o, m),
        same_state(s3, s2),
        s2.nodes@[cp + o].child_pointer != 0 || s2.nodes@[cp + o].material_id == m,
    ensures
        same_state(s3, s0),
        s0.nodes@[idx].child_pointer != 0,
{
    let n0 = s0.nodes@;
    if n0[idx].child_pointer != 0 && m != 0 {
        assert(node_ok(n0, s0.levels@, idx));
        assert(node_nonempty(n0[cp + o]));
    }
}

/// Offering `idx` for collapsing keeps what the insertion did.
proof fn lemma_collapse_keeps_insert(s0: Octree, s3: Octree, s4: Octree, idx: int, level: nat,
    min: Point, pos: Point, size: int, m: int, collapsed: bool)
    requires
        inserted(s0, s3, idx, level, min, pos, size, m),
        s3.wf(),
        collapse_step(s3, s4, idx, collapsed),
    ensures
        inserted(s0, s4, idx, level, min, pos, size, m),
{
    let n0 = s0.nodes@;
    let n3 = s3.nodes@;
    let n4 = s4.nodes@;
    assert forall|p: Point| in_cube(min, level, p) implies #[trigger] sem(n4, idx, level, min, p)
        == if in_target(min, level, pos, size, p) { m } else { sem(n0, idx, level, min, p) } by {
        assert(sem(n4, idx, level, min, p) == sem(n3, idx, level, min, p));
    }
    assert forall|x: int| 0 <= x < n0.len() && !in_reach(n0, idx, level, x) && !in_free(s0.free_list@, x)
        implies #[trigger] n4[x] == n0[x] && s4.levels@[x] == s0.levels@[x] by {
        assert(n3[x] == n0[x]);
        if in_reach(n3, idx, level, x) {
        }
    }
    assert forall|x: int| #[trigger] in_reach(n4, idx, level, x)
        implies in_reach(n0, idx, level, x) || in_free(s0.free_list@, x) || x >= n0.len() by {
        assert(in_reach(n3, idx, level, x));
    }
}

/// What a subtree holds at a point is a `u16` material.
proof fn lemma_sem_range(n: Seq<OctreeNode>, lv: Seq<nat>, idx: int, level: nat, min: Point, p: Point)
    requires
        tree_ok(n, lv),
    ensures
        0 <= sem(n, idx, level, min, p) <= 0xffff,
    decreases level,
{
    if 0 <= idx < n.len() {
        assert(node_ok(n, lv, idx));
        if n[idx].child_pointer != 0 && level > 0 {
            let o = octant_of(min, level, p);
            lemma_sem_range(n, lv, n[idx].child_pointer + o, (level - 1) as nat, child_min(min, level, o), p);
        }
    }
}

/// What the world holds at a point is a `u16` material.
pub proof fn lemma_material_range(s: Octree, p: Point)
    requires
        s.wf(),
    ensures
        0 <= s.material_at(p) <= 0xffff,
{
    lemma_sem_range(s.nodes@, s.levels@, 0, s.root_level(), s.world_min_point(), p);
}

/// Writing a leaf over the whole cube of `idx`.
proof fn lemma_leaf_set(s0: Octree, s1: Octree, s2: Octree, s3: Octree, idx: int, level: nat,
    min: Point, pos: Point, size: int, m: int)
    requires
        s0.wf(),
        0 <= idx < s0.nodes@.len(),
        s0.levels@[idx] == level,
        !wider(edge(level), size),
        0 <= m <= 0xffff,
        s1.nodes@ == s0.nodes@.update(idx, OctreeNode {
            material_id: m as u32,
            child_pointer: 0,
            child_mask: if m != 0 { 0xFFu32 } else { 0u32 },
            _pad: s0.nodes@[idx]._pad,
        }),
        s1.levels == s0.levels,
        s1.free_list == s0.free_list,
        s2.levels == s1.levels,
        s2.nodes@.len() == s1.nodes@.len(),
        s0.nodes@[idx].child_pointer == 0 ==> s2.nodes == s1.nodes,
        s0.nodes@[idx].child_pointer != 0 ==> freed(s1, s2, s0.nodes@[idx].child_pointer as int,
            s1.levels@[s0.nodes@[idx].child_pointer as int]),
        s3.nodes == s2.nodes,
        s3.levels == s2.levels,
    ensures
        inserted(s0, s3, idx, level, min, pos, size, m),
{
    let n0 = s0.nodes@;
    let n1 = s1.nodes@;
    let n3 = s3.nodes@;
    let lv = s0.levels@;
    let cp = n0[idx].child_pointer as int;
    assert(node_ok(n0, lv, idx));
    if cp != 0 {
        assert(lv[cp + 0] == level - 1);
        lemma_child_block_frame(n0, n1, lv, idx);
        assert forall|x: int| #[trigger] in_reach_block(n1, cp, (level - 1) as nat, x, 8) implies
            in_reach(n0, idx, level, x) && x != idx by {
            lemma_block(n1, cp, (level - 1) as nat, x, 8);
            let k = choose|k: int| 0 <= k < 8 && #[trigger] in_reach(n1, cp + k, (level - 1) as nat, x);
            assert(in_reach(n0, cp + k, (level - 1) as nat, x));
            lemma_reach_unfold(n0, idx, level, x);
            lemma_reach_levels(n0, lv, cp + k, (level - 1) as nat, x);
        }
    }
    if cp != 0 {
        assert(s1.levels@[cp] == level - 1);
        assert(!in_reach_block(n1, cp, (level - 1) as nat, idx, 8));
    }
    assert(n3[idx] == n1[idx]);
    assert(target_level(level, size) == level);
    assert(target_min(min, level, pos, size) == min);
    assert forall|x: int| 0 <= x < n0.len() && !in_reach(n0, idx, level, x) && !in_free(s0.free_list@, x)
        implies #[trigger] n3[x] == n0[x] && s3.levels@[x] == s0.levels@[x] by {
        assert(x != idx);
        assert(n1[x] == n0[x]);
    }
    assert forall|x: int| #[trigger] in_reach(n3, idx, level, x)
        implies in_reach(n0, idx, level, x) || in_free(s0.free_list@, x) || x >= n0.len() by {
        assert(x == idx);
    }
}

/// What `expand_root` does.
pub open spec fn expanded(s0: Octree, s1: Octree, pt: [i64; 3]) -> bool {
    let size = s0.world_size;
    let octant = (if pt[0] < s0.world_min[0] { 1int } else { 0int }) + (if pt[1] < s0.world_min[1] { 2int } else { 0int })
        + (if pt[2] < s0.world_min[2] { 4int } else { 0int });
    &&& s1.world_size == 2 * size
    &&& s1.world_min[0] == s0.world_min[0] - (if pt[0] < s0.world_min[0] { size as int } else { 0 })
    &&& s1.world_min[1] == s0.world_min[1] - (if pt[1] < s0.world_min[1] { size as int } else { 0 })
    &&& s1.world_min[2] == s0.world_min[2] - (if pt[2] < s0.world_min[2] { size as int } else { 0 })
    &&& s1.root_level() == s0.root_level() + 1
    &&& s1.root_index == s0.root_index
    &&& s1.total_voxels == s0.total_voxels
    &&& forall|p: Point| #[trigger] s1.material_at(p) == s0.material_at(p)
    &&& (s0.nodes@[0].child_mask == 0 && s0.nodes@[0].material_id == 0) ==> {
        &&& s1.nodes@ == s0.nodes@
        &&& s1.free_list@ == s0.free_list@
        &&& s1.dirty_pages@ == s0.dirty_pages@
    }
    &&& !(s0.nodes@[0].child_mask == 0 && s0.nodes@[0].material_id == 0) ==> {
        let b = s1.nodes@[0].child_pointer as int;
        &&& s1.nodes@[0] == OctreeNode { child_mask: 1u32 << (octant as u32), child_pointer: b as u32, material_id: 0, _pad: 0 }
        &&& s1.nodes@[b + octant] == s0.nodes@[0]
        &&& forall|o: int| 0 <= o < 8 && o != octant ==> #[trigger] s1.nodes@[b + o] == empty_node()
        &&& s0.free_list@.len() > 0 ==> b == s0.free_list@.last() && s1.free_list@ == s0.free_list@.drop_last()
            && s1.nodes@.len() == s0.nodes@.len()
        &&& s0.free_list@.len() == 0 ==> b == s0.nodes@.len() && s1.free_list@ == s0.free_list@
            && s1.nodes@.len() == s0.nodes@.len() + 8
        &&& forall|x: int| 0 < x < s0.nodes@.len() && !(b <= x < b + 8) ==> #[trigger] s1.nodes@[x] == s0.nodes@[x]
        &&& s1.dirty_pages@ == s0.dirty_pages@.union(page_range(b, 8)).union(page_range(0, 1))
    }
}

/// The edge of a cube of level 14 or more is a multiple of `2^14`.
proof fn lemma_edge_aligned(l: nat)
    requires
        l >= 14,
    ensures
        edge(l) % 0x4000 == 0,
{
    vstd::arithmetic::power2::lemma_pow2_adds(14, (l - 14) as nat);
    vstd::arithmetic::power2::lemma2_to64();
    assert((14 + (l - 14) as nat) as nat == l);
    vstd::arithmetic::div_mod::lemma_mod_multiples_basic(pow2((l - 14) as nat) as int, 0x4000);
}

/// The difference of two multiples of `2^14` is one.
proof fn lemma_sub_aligned(a: int, b: int)
    requires
        a % 0x4000 == 0,
        b % 0x4000 == 0,
    ensures
        (a - b) % 0x4000 == 0,
{
    vstd::arithmetic::div_mod::lemma_fundamental_div_mod(a, 0x4000);
    vstd::arithmetic::div_mod::lemma_fundamental_div_mod(b, 0x4000);
    vstd::arithmetic::div_mod::lemma_mod_multiples_basic(a / 0x4000 - b / 0x4000, 0x4000);
    assert(a - b == (a / 0x4000 - b / 0x4000) * 0x4000);
}

/// Doubling an empty world.
proof fn lemma_expand_empty(s0: Octree, s1: Octree)
    requires
        s0.wf(),
        s0.nodes@[0].child_mask == 0,
        s0.nodes@[0].material_id == 0,
        s1.nodes == s0.nodes,
        s1.free_list == s0.free_list,
        s1.dirty_pages == s0.dirty_pages,
        s1.root_index == s0.root_index,
        s1.total_voxels == s0.total_voxels,
        s1.levels@ == s0.levels@.update(0, s0.root_level() + 1),
        s0.root_level() < MAX_LEVEL,
        s1.world_size == 2 * s0.world_size,
        s1.world_size as int == edge(s0.root_level() + 1),
        s1.world_size <= 0x4000_0000_0000_0000,
        -s1.world_size <= s1.world_min[0] <= 0,
        -s1.world_size <= s1.world_min[1] <= 0,
        -s1.world_size <= s1.world_min[2] <= 0,
        s1.world_min[0] % 0x4000 == 0 && s1.world_min[1] % 0x4000 == 0 && s1.world_min[2] % 0x4000 == 0,
    ensures
        s1.wf(),
        forall|p: Point| #[trigger] s1.material_at(p) == s0.material_at(p),
{
    let n = s0.nodes@;
    assert(node_ok(n, s0.levels@, 0));
    assert(n[0].child_pointer == 0);
    assert forall|i: int| 0 <= i < n.len() implies #[trigger] node_ok(n, s1.levels@, i) by {
        assert(node_ok(n, s0.levels@, i));
        let c = n[i].child_pointer as int;
        if c != 0 {
            assert(i != 0);
            assert forall|o: int| 0 <= o < 8 implies #[trigger] s1.levels@[c + o] == s0.levels@[c + o] by {}
        }
    }
}

/// Doubling a nonempty world: the old root moves into a new block and the
/// new root points at it.
proof fn lemma_expand_nonempty(s0: Octree, sa: Octree, sb: Octree, b: int, oct: int)
    requires
        s0.wf(),
        !(s0.nodes@[0].child_mask == 0 && s0.nodes@[0].material_id == 0),
        s0.root_level() < MAX_LEVEL,
        0 <= oct < 8,
        sa.wf(),
        sa.same_frame(s0),
        b % 8 == 1,
        b + 8 <= sa.nodes@.len(),
        forall|o: int| 0 <= o < 8 ==> #[trigger] sa.nodes@[b + o] == empty_node(),
        unreferenced(sa.nodes@, b),
        forall|x: int| b <= x < b + 8 ==> !in_free(sa.free_list@, x),
        s0.free_list@.len() > 0 ==> b == s0.free_list@.last() && sa.free_list@ == s0.free_list@.drop_last()
            && sa.nodes@.len() == s0.nodes@.len(),
        s0.free_list@.len() == 0 ==> b == s0.nodes@.len() && sa.free_list@ == s0.free_list@
            && sa.nodes@.len() == s0.nodes@.len() + 8,
        forall|x: int| 0 <= x < s0.nodes@.len() && !(b <= x < b + 8) ==> #[trigger] sa.nodes@[x] == s0.nodes@[x],
        forall|x: int| 0 <= x < s0.nodes@.len() ==> #[trigger] sa.levels@[x] == s0.levels@[x],
        sb.nodes@ == sa.nodes@.update(b + oct, s0.nodes@[0]).update(0, OctreeNode {
            child_mask: 1u32 << (oct as u32),
            child_pointer: b as u32,
            material_id: 0,
            _pad: 0,
        }),
        sb.free_list@ == sa.free_list@,
        sb.root_index == s0.root_index,
        sb.total_voxels == s0.total_voxels,
        sb.levels@ == Seq::new(sa.levels@.len(), |x: int|
            if x == 0 { s0.root_level() + 1 } else if b <= x < b + 8 { s0.root_level() } else { sa.levels@[x] }),
        sb.world_size == 2 * s0.world_size,
        sb.world_size as int == edge(s0.root_level() + 1),
        sb.world_size <= 0x4000_0000_0000_0000,
        sb.world_min[0] == s0.world_min[0] - (if oct % 2 == 1 { s0.world_size as int } else { 0 }),
        sb.world_min[1] == s0.world_min[1] - (if (oct / 2) % 2 == 1 { s0.world_size as int } else { 0 }),
        sb.world_min[2] == s0.world_min[2] - (if oct >= 4 { s0.world_size as int } else { 0 }),
        -sb.world_size <= sb.world_min[0] <= 0,
        -sb.world_size <= sb.world_min[1] <= 0,
        -sb.world_size <= sb.world_min[2] <= 0,
        (1u32 << (oct as u32)) != 0,
        mask_bit(1u32 << (oct as u32), oct),
        forall|j: int| 0 <= j < 8 && j != oct ==> !#[trigger] mask_bit(1u32 << (oct as u32), j),
        sb.world_min[0] % 0x4000 == 0 && sb.world_min[1] % 0x4000 == 0 && sb.world_min[2] % 0x4000 == 0,
    ensures
        sb.wf(),
        forall|p: Point| #[trigger] sb.material_at(p) == s0.material_at(p),
{
    let n0 = s0.nodes@;
    let na = sa.nodes@;
    let nb = sb.nodes@;
    let lv0 = s0.levels@;
    let lva = sa.levels@;
    let lvb = sb.levels@;
    let l = s0.root_level();
    assert(node_ok(n0, lv0, 0));
    assert(na[0] == n0[0]);
    let c = n0[0].child_pointer as int;
    assert(c != b) by {
        assert(na[0].child_pointer != b);
    }
    assert(nb[b + oct] == n0[0]);
    assert forall|o: int| 0 <= o < 8 && o != oct implies #[trigger] nb[b + o] == empty_node() by {}
    // Nodes below the old root are untouched.
    assert forall|o: int, x: int| 0 <= o < 8 && c != 0 && #[trigger] in_reach(n0, c + o, (l - 1) as nat, x) implies
        0 <= x < n0.len() && x != 0 && !(b <= x < b + 8) && x < nb.len() && nb[x] == n0[x] by {
        assert(lv0[c + o] == l - 1);
        lemma_reach_levels(n0, lv0, c + o, (l - 1) as nat, x);
        if b <= x < b + 8 {
            if s0.free_list@.len() > 0 {
                let k = s0.free_list@.len() - 1;
                assert(unreferenced(n0, s0.free_list@[k] as int));
                lemma_unreferenced_unreachable(n0, lv0, c + o, (l - 1) as nat, b, x);
            }
        }
    }
    assert forall|i: int| 0 <= i < nb.len() implies #[trigger] node_ok(nb, lvb, i) by {
        if i == 0 {
            lemma_full_empty_mask(oct);
            assert forall|o: int| 0 <= o < 8 && node_nonempty(#[trigger] nb[b + o]) implies mask_bit(nb[0].child_mask, o) by {
                if o != oct {
                    assert(nb[b + o] == empty_node());
                }
            }
        } else if i == b + oct {
            if c != 0 {
                assert forall|o: int| 0 <= o < 8 implies #[trigger] lvb[c + o] == lvb[i] - 1 && nb[c + o] == n0[c + o] by {
                    assert(lv0[c + o] == l - 1);
                    assert(in_reach(n0, c + o, (l - 1) as nat, c + o));
                }
            }
        } else if b <= i < b + 8 {
            assert(nb[i] == nb[b + (i - b)]);
        } else {
            assert(node_ok(na, lva, i));
            assert(nb[i] == na[i]);
            let ci = na[i].child_pointer as int;
            if ci != 0 {
                assert(ci != b);
                assert forall|o: int| 0 <= o < 8 implies #[trigger] lvb[ci + o] == lva[ci + o] && nb[ci + o] == na[ci + o] by {}
            }
        }
    }
    assert forall|i1: int, j1: int|
        0 <= i1 < nb.len() && 0 <= j1 < nb.len() && i1 != j1 && (#[trigger] nb[i1]).child_pointer != 0
            implies nb[i1].child_pointer != (#[trigger] nb[j1]).child_pointer by {
        lemma_expand_unique(na, nb, n0[0], b, oct, 1u32 << (oct as u32), i1, j1);
    }
    assert forall|k: int| 0 <= k < sa.free_list@.len() implies unreferenced(nb, #[trigger] sa.free_list@[k] as int) by {
        let f = sa.free_list@[k] as int;
        assert(unreferenced(na, f));
        assert forall|q: int| 0 <= q < nb.len() implies (#[trigger] nb[q]).child_pointer != f by {
            if q == 0 {
                if f == b {
                    assert(sa.free_list@[k] <= b + 0 < sa.free_list@[k] + 8);
                    assert(in_free(sa.free_list@, b + 0));
                }
            } else if q == b + oct {
                assert(na[0].child_pointer != f);
            } else if b <= q < b + 8 {
                assert(nb[q] == nb[b + (q - b)]);
            } else {
                assert(nb[q] == na[q]);
            }
        }
    }
    assert(sb.world_ok()) by {
        assert(lvb[0] == l + 1);
    }
    let wmin = s0.world_min_point();
    let nmin = sb.world_min_point();
    assert(child_min(nmin, l + 1, oct) == wmin) by {
        lemma_pow2_unfold(l + 1);
    }
    assert forall|p: Point| #[trigger] sb.material_at(p) == s0.material_at(p) by {
        lemma_child_cube(nmin, l + 1, oct, p);
        if in_cube(wmin, l, p) {
            assert(octant_of(nmin, l + 1, p) == oct);
            assert(sem(nb, 0, l + 1, nmin, p) == sem(nb, b + oct, l, wmin, p));
            if c != 0 && l > 0 {
                let k = octant_of(wmin, l, p);
                lemma_child_octant(wmin, l, p);
                lemma_frame(n0, nb, c + k, (l - 1) as nat);
                assert(sem(nb, c + k, (l - 1) as nat, child_min(wmin, l, k), p)
                    == sem(n0, c + k, (l - 1) as nat, child_min(wmin, l, k), p));
            }
        } else if in_cube(nmin, l + 1, p) {
            let k = octant_of(nmin, l + 1, p);
            lemma_child_octant(nmin, l + 1, p);
            assert(k != oct);
            assert(!mask_bit(nb[0].child_mask, k));
        }
    }
}

/// After moving the old root into the new block, child pointers are still unique.
proof fn lemma_expand_unique(na: Seq<OctreeNode>, nb: Seq<OctreeNode>, r: OctreeNode, b: int, oct: int, mask: u32, i1: int, j1: int)
    requires
        b >= 1,
        na.len() < MAX_NODES,
        pointers_unique(na),
        na.len() >= 1,
        na[0] == r,
        b % 8 == 1,
        b + 8 <= na.len(),
        0 <= oct < 8,
        unreferenced(na, b),
        forall|o: int| 0 <= o < 8 ==> #[trigger] na[b + o] == empty_node(),
        nb == na.update(b + oct, r).update(0, OctreeNode { child_mask: mask, child_pointer: b as u32, material_id: 0, _pad: 0 }),
        0 <= i1 < nb.len(),
        0 <= j1 < nb.len(),
        i1 != j1,
        nb[i1].child_pointer != 0,
    ensures
        nb[i1].child_pointer != nb[j1].child_pointer,
{
    let nu = na.update(b + oct, r);
    assert(nu.len() == na.len());
    assert(nb.len() == na.len());
    assert(nb[0].child_pointer == b);
    assert(nb[b + oct] == r);
    assert forall|x: int| 0 < x < na.len() && !(b <= x < b + 8) implies #[trigger] nb[x] == na[x] by {
        assert(nu[x] == na[x]);
    }
    assert forall|o: int| 0 <= o < 8 && o != oct implies (#[trigger] nb[b + o]).child_pointer == 0 by {
        assert(nu[b + o] == na[b + o]);
    }
    let p1 = nb[i1].child_pointer;
    let p2 = nb[j1].child_pointer;
    if i1 == 0 || j1 == 0 {
        let other = if i1 == 0 { j1 } else { i1 };
        if other == b + oct {
            assert(na[0].child_pointer != b);
        } else if b <= other < b + 8 {
            assert(nb[b + (other - b)].child_pointer == 0);
        } else {
            assert(na[other].child_pointer != b);
        }
    } else if i1 == b + oct || j1 == b + oct {
        let other = if i1 == b + oct { j1 } else { i1 };
        if b <= other < b + 8 {
            assert(nb[b + (other - b)].child_pointer == 0);
        } else {
            assert(nb[other] == na[other]);
            if na[other].child_pointer != 0 {
                assert(na[0].child_pointer != na[other].child_pointer);
            }
        }
    } else if b <= i1 < b + 8 {
        assert(nb[b + (i1 - b)].child_pointer == 0);
    } else if b <= j1 < b + 8 {
        assert(nb[b + (j1 - b)].child_pointer == 0);
    } else {
        assert(nb[i1] == na[i1]);
        assert(nb[j1] == na[j1]);
        assert(na[i1].child_pointer != na[j1].child_pointer);
    }
}

/// A cube whose edge is at most `2^k` has level at most `k`.
pub proof fn lemma_level_of_size(level: nat, k: nat)
    requires
        k <= 62,
        edge(level) <= edge(k),
    ensures
        level <= k,
{
    if level > k {
        lemma_pow2_strictly_increases(k, level);
    }
}

/// The cube of edge `size` at `pos` lies inside the world cube at `min` of
/// the given level.
pub open spec fn fits(min: Point, level: nat, pos: Point, size: int) -> bool {
    &&& min.0 <= pos.0 && pos.0 + size <= min.0 + edge(level)
    &&& min.1 <= pos.1 && pos.1 + size <= min.1 + edge(level)
    &&& min.2 <= pos.2 && pos.2 + size <= min.2 + edge(level)
}

/// The minimum corner of the world cube after one doubling towards `pos`.
pub open spec fn grow_once(min: Point, level: nat, pos: Point) -> Point {
    (
        if pos.0 < min.0 { min.0 - edge(level) } else { min.0 },
        if pos.1 < min.1 { min.1 - edge(level) } else { min.1 },
        if pos.2 < min.2 { min.2 - edge(level) } else { min.2 },
    )
}

/// The world cube (minimum corner and level) after doubling towards `pos`
/// until it holds the cube of edge `size` there.
pub open spec fn grown(min: Point, level: nat, pos: Point, size: int) -> (Point, nat)
    decreases 62 - level,
{
    if fits(min, level, pos, size) || level >= 62 {
        (min, level)
    } else {
        grown(grow_once(min, level, pos), level + 1, pos, size)
    }
}

/// The sides of the world cube that do not yet reach past every cube an edit
/// can write: each axis counts once for its low side and once for its high side.
pub open spec fn open_sides(s: Octree) -> nat {
    let lo = |k: int| if s.world_min[k] > -MAX_EDIT { 1nat } else { 0nat };
    let hi = |k: int| if s.world_min[k] + s.world_size < 2 * MAX_EDIT { 1nat } else { 0nat };
    lo(0) + lo(1) + lo(2) + hi(0) + hi(1) + hi(2)
}

/// The world has room to grow: its edge times two to the number of open
/// sides is at most `2^49`. Every doubling an edit causes either keeps the
/// edge small or closes a side, so edits never take the world past `2^49`.
pub open spec fn world_bounded(s: Octree) -> bool {
    s.world_size * pow2(open_sides(s)) <= 0x2_0000_0000_0000
}

/// A doubling caused by an edit that did not fit keeps the world bounded.
proof fn lemma_expand_bounded(s0: Octree, s1: Octree, pos: [i64; 3], size: i64)
    requires
        s0.wf(),
        world_bounded(s0),
        expanded(s0, s1, pos),
        !s0.contains_cube(pos, size),
        0 <= size <= MAX_EDIT,
        -MAX_EDIT <= pos[0] <= MAX_EDIT,
        -MAX_EDIT <= pos[1] <= MAX_EDIT,
        -MAX_EDIT <= pos[2] <= MAX_EDIT,
    ensures
        world_bounded(s1),
{
    let d0 = open_sides(s0);
    let d1 = open_sides(s1);
    let w0 = s0.world_size as int;
    let w1 = s1.world_size as int;
    lemma_pow2_pos(d0);
    lemma_pow2_pos(d1);
    lemma2_to64();
    assert(d1 <= 6);
    if d1 < 6 {
        lemma_pow2_strictly_increases(d1, 6);
    }
    if w0 < 0x400_0000_0000 {
        assert(w1 * pow2(d1) <= 0x2_0000_0000_0000) by (nonlinear_arith)
            requires
                w1 <= 0x800_0000_0000,
                0 < pow2(d1) <= 64,
        ;
    } else {
        assert(d1 + 1 <= d0);
        lemma_pow2_unfold(d1 + 1);
        if d1 + 1 < d0 {
            lemma_pow2_strictly_increases(d1 + 1, d0);
        }
        assert(w1 * pow2(d1) <= w0 * pow2(d0)) by (nonlinear_arith)
            requires
                w1 == 2 * w0,
                w0 >= 0,
                2 * pow2(d1) <= pow2(d0),
        ;
    }
}

/// A doubling caused by an edit that did not fit is the first step of the
/// growth towards it.
proof fn lemma_grow_step(s0: Octree, s1: Octree, pos: [i64; 3], size: i64)
    requires
        s0.wf(),
        expanded(s0, s1, pos),
        !s0.contains_cube(pos, size),
        s0.root_level() < 62,
    ensures
        grown(s1.world_min_point(), s1.root_level(), pt(pos), size as int)
            == grown(s0.world_min_point(), s0.root_level(), pt(pos), size as int),
{
    assert(!fits(s0.world_min_point(), s0.root_level(), pt(pos), size as int));
    assert(s1.world_min_point() == grow_once(s0.world_min_point(), s0.root_level(), pt(pos)));
}

/// One doubling of a world cube that holds the origin and has an edge of at
/// least `2^42` takes in every cube of edge at most `2^40` within `2^40` of
/// the origin.
proof fn lemma_expand_contains(s0: Octree, s1: Octree, pos: [i64; 3], size: i64)
    requires
        s0.wf(),
        expanded(s0, s1, pos),
        0 <= size <= MAX_EDIT,
        -MAX_EDIT <= pos[0] <= MAX_EDIT,
        -MAX_EDIT <= pos[1] <= MAX_EDIT,
        -MAX_EDIT <= pos[2] <= MAX_EDIT,
    ensures
        s0.world_size >= 0x400_0000_0000 ==> s1.contains_cube(pos, size),
{
    if s0.world_size >= 0x400_0000_0000 {
        assert(s1.world_size == 2 * s0.world_size);
        assert(-s0.world_size <= s0.world_min[0] <= 0);
        assert(-s0.world_size <= s0.world_min[1] <= 0);
        assert(-s0.world_size <= s0.world_min[2] <= 0);
        if pos[0] < s0.world_min[0] {
            assert(s1.world_min[0] == s0.world_min[0] - s0.world_size);
        } else {
            assert(s1.world_min[0] == s0.world_min[0]);
        }
        if pos[1] < s0.world_min[1] {
            assert(s1.world_min[1] == s0.world_min[1] - s0.world_size);
        } else {
            assert(s1.world_min[1] == s0.world_min[1]);
        }
        if pos[2] < s0.world_min[2] {
            assert(s1.world_min[2] == s0.world_min[2] - s0.world_size);
        } else {
            assert(s1.world_min[2] == s0.world_min[2]);
        }
    }
}

/// No node of the subtree has eight children that are leaves of one material.
pub open spec fn canonical(n: Seq<OctreeNode>, idx: int, level: nat) -> bool
    decreases level, 9nat,
{
    0 <= idx < n.len() && (level == 0 || n[idx].child_pointer == 0 || (
        !uniform_leaves(n, n[idx].child_pointer as int) && canonical_block(n, n[idx].child_pointer as int, (level - 1) as nat, 8)))
}

pub open spec fn canonical_block(n: Seq<OctreeNode>, b: int, level: nat, k: nat) -> bool
    decreases level + 1, k,
{
    k == 0 || (canonical_block(n, b, level, (k - 1) as nat) && canonical(n, b + k - 1, level))
}

/// An inner node is tidy when it holds no material of its own and its mask
/// flags exactly its nonempty children.
pub open spec fn tidy_node(n: Seq<OctreeNode>, idx: int) -> bool {
    let cp = n[idx].child_pointer as int;
    &&& n[idx].material_id == 0
    &&& n[idx].child_mask < 256
    &&& forall|o: int| 0 <= o < 8 ==> #[trigger] mask_bit(n[idx].child_mask, o) == node_nonempty(n[cp + o])
}

/// Every inner node of the subtree is tidy.
pub open spec fn tidy(n: Seq<OctreeNode>, idx: int, level: nat) -> bool
    decreases level, 9nat,
{
    0 <= idx < n.len() && (level == 0 || n[idx].child_pointer == 0 || (
        tidy_node(n, idx) && tidy_block(n, n[idx].child_pointer as int, (level - 1) as nat, 8)))
}

pub open spec fn tidy_block(n: Seq<OctreeNode>, b: int, level: nat, k: nat) -> bool
    decreases level + 1, k,
{
    k == 0 || (tidy_block(n, b, level, (k - 1) as nat) && tidy(n, b + k - 1, level))
}

/// `s1` is `s0` with the subtree of `idx` collapsed.
pub open spec fn collapsed_subtree(s0: Octree, s1: Octree, idx: int, level: nat) -> bool {
    let n0 = s0.nodes@;
    let n1 = s1.nodes@;
    &&& s1.same_frame(s0)
    &&& s1.levels == s0.levels
    &&& n1.len() == n0.len()
    &&& forall|min: Point, p: Point| #[trigger] sem(n1, idx, level, min, p) == sem(n0, idx, level, min, p)
    &&& forall|x: int| 0 <= x < n0.len() && !in_reach(n0, idx, level, x) ==> #[trigger] n1[x] == n0[x]
    &&& forall|x: int| #[trigger] in_reach(n1, idx, level, x) ==> in_reach(n0, idx, level, x)
    &&& node_nonempty(n1[idx]) ==> node_nonempty(n0[idx])
    &&& canonical(n1, idx, level)
    &&& tidy(n1, idx, level)
}

pub proof fn lemma_canonical_block(n: Seq<OctreeNode>, b: int, level: nat, k: nat)
    ensures
        canonical_block(n, b, level, k) <==> forall|o: int| 0 <= o < k ==> #[trigger] canonical(n, b + o, level),
    decreases k,
{
    if k > 0 {
        lemma_canonical_block(n, b, level, (k - 1) as nat);
        if canonical_block(n, b, level, k) {
            assert forall|o: int| 0 <= o < k implies #[trigger] canonical(n, b + o, level) by {
                if o == k - 1 {
                    assert(canonical(n, b + k - 1, level));
                }
            }
        }
        if forall|o: int| 0 <= o < k ==> #[trigger] canonical(n, b + o, level) {
            assert(canonical(n, b + (k - 1), level));
        }
    }
}

pub proof fn lemma_tidy_block(n: Seq<OctreeNode>, b: int, level: nat, k: nat)
    ensures
        tidy_block(n, b, level, k) <==> forall|o: int| 0 <= o < k ==> #[trigger] tidy(n, b + o, level),
    decreases k,
{
    if k > 0 {
        lemma_tidy_block(n, b, level, (k - 1) as nat);
        if tidy_block(n, b, level, k) {
            assert forall|o: int| 0 <= o < k implies #[trigger] tidy(n, b + o, level) by {
                if o == k - 1 {
                    assert(tidy(n, b + k - 1, level));
                }
            }
        }
        if forall|o: int| 0 <= o < k ==> #[trigger] tidy(n, b + o, level) {
            assert(tidy(n, b + (k - 1), level));
        }
    }
}

/// Tidiness depends only on the nodes of the subtree.
pub proof fn lemma_tidy_frame(n1: Seq<OctreeNode>, n2: Seq<OctreeNode>, idx: int, level: nat)
    requires
        forall|x: int| #[trigger] in_reach(n1, idx, level, x) ==> 0 <= x < n1.len() && x < n2.len() && n2[x] == n1[x],
    ensures
        tidy(n2, idx, level) == tidy(n1, idx, level),
    decreases level,
{
    assert(in_reach(n1, idx, level, idx));
    if level > 0 && n1[idx].child_pointer != 0 {
        let cp = n1[idx].child_pointer as int;
        let l1 = (level - 1) as nat;
        assert forall|o: int| 0 <= o < 8 implies #[trigger] tidy(n2, cp + o, l1)
            == tidy(n1, cp + o, l1) && n2[cp + o] == n1[cp + o] by {
            assert forall|x: int| #[trigger] in_reach(n1, cp + o, l1, x) implies
                0 <= x < n1.len() && x < n2.len() && n2[x] == n1[x] by {
                lemma_reach_unfold(n1, idx, level, x);
            }
            assert(in_reach(n1, cp + o, l1, cp + o));
            lemma_tidy_frame(n1, n2, cp + o, l1);
        }
        lemma_tidy_block(n1, cp, l1, 8);
        lemma_tidy_block(n2, cp, l1, 8);
        if tidy_block(n1, cp, l1, 8) {
            assert forall|o: int| 0 <= o < 8 implies #[trigger] tidy(n2, cp + o, l1) by {
                assert(tidy(n1, cp + o, l1));
            }
        }
        if tidy_block(n2, cp, l1, 8) {
            assert forall|o: int| 0 <= o < 8 implies #[trigger] tidy(n1, cp + o, l1) by {
                assert(tidy(n2, cp + o, l1));
            }
        }
        assert(tidy_block(n2, cp, l1, 8) == tidy_block(n1, cp, l1, 8));
        assert(tidy_node(n2, idx) == tidy_node(n1, idx)) by {
            if tidy_node(n1, idx) {
                assert forall|o: int| 0 <= o < 8 implies #[trigger] mask_bit(n2[idx].child_mask, o)
                    == node_nonempty(n2[cp + o]) by {
                    assert(tidy(n2, cp + o, l1) == tidy(n1, cp + o, l1));
                }
            }
            if tidy_node(n2, idx) {
                assert forall|o: int| 0 <= o < 8 implies #[trigger] mask_bit(n1[idx].child_mask, o)
                    == node_nonempty(n1[cp + o]) by {
                    assert(tidy(n2, cp + o, l1) == tidy(n1, cp + o, l1));
                }
            }
        }
    }
}

/// Canonical form depends only on the nodes of the subtree.
pub proof fn lemma_canonical_frame(n1: Seq<OctreeNode>, n2: Seq<OctreeNode>, idx: int, level: nat)
    requires
        forall|x: int| #[trigger] in_reach(n1, idx, level, x) ==> 0 <= x < n1.len() && x < n2.len() && n2[x] == n1[x],
    ensures
        canonical(n2, idx, level) == canonical(n1, idx, level),
    decreases level,
{
    assert(in_reach(n1, idx, level, idx));
    if level > 0 && n1[idx].child_pointer != 0 {
        let cp = n1[idx].child_pointer as int;
        assert forall|o: int| 0 <= o < 8 implies #[trigger] canonical(n2, cp + o, (level - 1) as nat)
            == canonical(n1, cp + o, (level - 1) as nat) && n2[cp + o] == n1[cp + o] by {
            assert forall|x: int| #[trigger] in_reach(n1, cp + o, (level - 1) as nat, x) implies
                0 <= x < n1.len() && x < n2.len() && n2[x] == n1[x] by {
                lemma_reach_unfold(n1, idx, level, x);
            }
            assert(in_reach(n1, cp + o, (level - 1) as nat, cp + o));
            lemma_canonical_frame(n1, n2, cp + o, (level - 1) as nat);
        }
        let l1 = (level - 1) as nat;
        lemma_canonical_block(n1, cp, l1, 8);
        lemma_canonical_block(n2, cp, l1, 8);
        if canonical_block(n1, cp, l1, 8) {
            assert forall|o: int| 0 <= o < 8 implies #[trigger] canonical(n2, cp + o, l1) by {
                assert(canonical(n1, cp + o, l1));
            }
        }
        if canonical_block(n2, cp, l1, 8) {
            assert forall|o: int| 0 <= o < 8 implies #[trigger] canonical(n1, cp + o, l1) by {
                assert(canonical(n2, cp + o, l1));
            }
        }
        assert(canonical_block(n2, cp, l1, 8) == canonical_block(n1, cp, l1, 8));
        assert forall|o: int| 0 <= o < 8 implies #[trigger] n2[cp + o] == n1[cp + o] by {
            lemma_reach_unfold(n1, idx, level, cp + o);
            assert(in_reach(n1, cp + o, (level - 1) as nat, cp + o));
        }
        assert(n2[cp] == n1[cp]) by {
            lemma_reach_unfold(n1, idx, level, cp);
            assert(in_reach(n1, cp + 0, (level - 1) as nat, cp));
        }
        lemma_uniform_frame(n1, n2, cp);
    }
}

/// Whether a block is eight leaves of one material depends on its nodes alone.
proof fn lemma_uniform_frame(n1: Seq<OctreeNode>, n2: Seq<OctreeNode>, cp: int)
    requires
        forall|o: int| 0 <= o < 8 ==> #[trigger] n2[cp + o] == n1[cp + o],
    ensures
        uniform_leaves(n2, cp) == uniform_leaves(n1, cp),
{
    assert(n2[cp + 0] == n1[cp + 0]);
    assert(cp + 0 == cp);
    if uniform_leaves(n1, cp) {
        assert forall|o: int| 0 <= o < 8 implies (#[trigger] n2[cp + o]).child_pointer == 0
            && n2[cp + o].material_id == n2[cp].material_id by {
            assert(n1[cp + o].child_pointer == 0);
            assert(n1[cp + o].material_id == n1[cp].material_id);
        }
    }
    if uniform_leaves(n2, cp) {
        assert forall|o: int| 0 <= o < 8 implies (#[trigger] n1[cp + o]).child_pointer == 0
            && n1[cp + o].material_id == n1[cp].material_id by {
            assert(n2[cp + o].child_pointer == 0);
            assert(n2[cp + o].material_id == n2[cp].material_id);
        }
    }
}

/// The first `i` children of `idx` are collapsed; the rest, and everything
/// outside their subtrees, untouched.
pub open spec fn collapse_children_done(s0: Octree, s1: Octree, idx: int, level: nat, i: int) -> bool {
    let n0 = s0.nodes@;
    let n1 = s1.nodes@;
    let cp = n0[idx].child_pointer as int;
    &&& forall|j: int, min: Point, p: Point| 0 <= j < i ==> #[trigger] sem(n1, cp + j, (level - 1) as nat, min, p)
        == sem(n0, cp + j, (level - 1) as nat, min, p)
    &&& forall|j: int, x: int| 0 <= j < i ==> (#[trigger] in_reach(n1, cp + j, (level - 1) as nat, x)
        ==> in_reach(n0, cp + j, (level - 1) as nat, x))
    &&& forall|j: int| 0 <= j < i ==> #[trigger] canonical(n1, cp + j, (level - 1) as nat)
    &&& forall|j: int| 0 <= j < i ==> #[trigger] tidy(n1, cp + j, (level - 1) as nat)
    &&& forall|j: int| 0 <= j < i ==> (node_nonempty(#[trigger] n1[cp + j]) ==> node_nonempty(n0[cp + j]))
    &&& forall|x: int| 0 <= x < n0.len() && !(exists|j: int| 0 <= j < i && #[trigger] in_reach(n0, cp + j, (level - 1) as nat, x))
        ==> #[trigger] n1[x] == n0[x]
}

proof fn lemma_collapse_child_ready(s0: Octree, cur: Octree, idx: int, level: nat, i: int)
    requires
        s0.wf(),
        cur.wf(),
        cur.levels == s0.levels,
        cur.nodes@.len() == s0.nodes@.len(),
        0 <= idx < s0.nodes@.len(),
        s0.levels@[idx] == level,
        s0.nodes@[idx].child_pointer != 0,
        0 <= i < 8,
        collapse_children_done(s0, cur, idx, level, i),
    ensures
        ({
            let cp = s0.nodes@[idx].child_pointer as int;
            &&& cp + i < cur.nodes@.len()
            &&& cp + i < 0x1_0000_0000
            &&& cur.levels@[cp + i] == level - 1
            &&& level >= 1
            &&& forall|x: int| #[trigger] in_reach(s0.nodes@, cp + i, (level - 1) as nat, x)
                ==> cur.nodes@[x] == s0.nodes@[x] && 0 <= x < s0.nodes@.len()
        }),
{
    let n0 = s0.nodes@;
    let lv = s0.levels@;
    assert(node_ok(n0, lv, idx));
    let cp = n0[idx].child_pointer as int;
    assert forall|x: int| #[trigger] in_reach(n0, cp + i, (level - 1) as nat, x)
        implies cur.nodes@[x] == n0[x] && 0 <= x < n0.len() by {
        lemma_reach_levels(n0, lv, cp + i, (level - 1) as nat, x);
        assert forall|j: int| 0 <= j < i implies !#[trigger] in_reach(n0, cp + j, (level - 1) as nat, x) by {
            lemma_disjoint(n0, lv, cp + j, cp + i, (level - 1) as nat, x);
        }
    }
}

proof fn lemma_collapse_child_done(s0: Octree, cur: Octree, s1: Octree, idx: int, level: nat, i: int)
    requires
        s0.wf(),
        cur.wf(),
        cur.levels == s0.levels,
        cur.same_frame(s0),
        cur.nodes@.len() == s0.nodes@.len(),
        0 <= idx < s0.nodes@.len(),
        s0.levels@[idx] == level,
        s0.nodes@[idx].child_pointer != 0,
        0 <= i < 8,
        collapse_children_done(s0, cur, idx, level, i),
        collapsed_subtree(cur, s1, s0.nodes@[idx].child_pointer + i, (level - 1) as nat),
    ensures
        collapse_children_done(s0, s1, idx, level, i + 1),
{
    let n0 = s0.nodes@;
    let nc = cur.nodes@;
    let n1 = s1.nodes@;
    let lv = s0.levels@;
    assert(node_ok(n0, lv, idx));
    let cp = n0[idx].child_pointer as int;
    let l1 = (level - 1) as nat;
    lemma_collapse_child_ready(s0, cur, idx, level, i);
    // The subtree of child i was untouched before this step.
    lemma_frame(n0, nc, cp + i, l1);
    // Earlier children's subtrees are untouched by this step.
    assert forall|j: int| 0 <= j < i implies #[trigger] frame_pair(nc, n1, cp + j, l1) by {
        lemma_collapse_sibling(s0, cur, s1, idx, level, i, j);
    }
    assert forall|j: int, min: Point, p: Point| 0 <= j < i + 1 implies #[trigger] sem(n1, cp + j, l1, min, p)
        == sem(n0, cp + j, l1, min, p) by {
        if j < i {
            assert(frame_pair(nc, n1, cp + j, l1));
        }
    }
    assert forall|j: int, x: int| 0 <= j < i + 1 && #[trigger] in_reach(n1, cp + j, l1, x)
        implies in_reach(n0, cp + j, l1, x) by {
        if j < i {
            assert(frame_pair(nc, n1, cp + j, l1));
        }
    }
    assert forall|j: int| 0 <= j < i + 1 implies #[trigger] canonical(n1, cp + j, l1) by {
        if j < i {
            assert(frame_pair(nc, n1, cp + j, l1));
        }
    }
    assert forall|j: int| 0 <= j < i + 1 implies #[trigger] tidy(n1, cp + j, l1) by {
        if j < i {
            assert(frame_pair(nc, n1, cp + j, l1));
        }
    }
    assert forall|j: int| 0 <= j < i + 1 && node_nonempty(#[trigger] n1[cp + j]) implies node_nonempty(n0[cp + j]) by {
        if j < i {
            assert(frame_pair(nc, n1, cp + j, l1));
            assert(n1[cp + j] == nc[cp + j]);
            assert(node_nonempty(nc[cp + j]) ==> node_nonempty(n0[cp + j]));
        } else {
            assert(in_reach(n0, cp + i, l1, cp + i));
            assert(nc[cp + i] == n0[cp + i]);
        }
    }
    assert forall|x: int| 0 <= x < n0.len() && !(exists|j: int| 0 <= j < i + 1 && #[trigger] in_reach(n0, cp + j, l1, x))
        implies #[trigger] n1[x] == n0[x] by {
        assert(!in_reach(n0, cp + i, l1, x));
        assert(nc[x] == n0[x]);
    }
}

/// Offering a node of a canonical, tidy subtree for collapsing changes
/// nothing but dirty pages: its children are not leaves of one material,
/// and its own material and mask are already what the step would set.
proof fn lemma_collapse_settled(s1: Octree, s2: Octree, idx: int, level: nat, collapsed: bool)
    requires
        s1.wf(),
        0 <= idx < s1.nodes@.len(),
        s1.levels@[idx] == level,
        s1.nodes@[idx].child_pointer != 0,
        canonical(s1.nodes@, idx, level),
        tidy(s1.nodes@, idx, level),
        collapse_step(s1, s2, idx, collapsed),
    ensures
        !collapsed,
        s2.nodes@ == s1.nodes@,
        s2.free_list@ == s1.free_list@,
{
    let n1 = s1.nodes@;
    let n2 = s2.nodes@;
    let cp = n1[idx].child_pointer as int;
    assert(node_ok(n1, s1.levels@, idx));
    assert(level >= 1);
    assert(!collapsed);
    let a = n1[idx].child_mask;
    let b = n2[idx].child_mask;
    assert forall|o: int| 0 <= o < 8 implies #[trigger] mask_bit(b, o) == mask_bit(a, o) by {
        assert(mask_bit(a, o) == node_nonempty(n1[cp + o]));
    }
    lemma_mask_eq(a, b);
    assert(n2[idx] == n1[idx]);
    assert(n2 =~= n1);
}

/// Two masks below 256 with the same eight bits are equal.
proof fn lemma_mask_eq(a: u32, b: u32)
    requires
        a < 256,
        b < 256,
        forall|o: int| 0 <= o < 8 ==> #[trigger] mask_bit(a, o) == mask_bit(b, o),
    ensures
        a == b,
{
    assert(mask_bit(a, 0) == mask_bit(b, 0));
    assert(mask_bit(a, 1) == mask_bit(b, 1));
    assert(mask_bit(a, 2) == mask_bit(b, 2));
    assert(mask_bit(a, 3) == mask_bit(b, 3));
    assert(mask_bit(a, 4) == mask_bit(b, 4));
    assert(mask_bit(a, 5) == mask_bit(b, 5));
    assert(mask_bit(a, 6) == mask_bit(b, 6));
    assert(mask_bit(a, 7) == mask_bit(b, 7));
    assert(a == b) by (bit_vector)
        requires
            a < 256,
            b < 256,
            ((a >> 0u32) & 1u32 == 1u32) == ((b >> 0u32) & 1u32 == 1u32),
            ((a >> 1u32) & 1u32 == 1u32) == ((b >> 1u32) & 1u32 == 1u32),
            ((a >> 2u32) & 1u32 == 1u32) == ((b >> 2u32) & 1u32 == 1u32),
            ((a >> 3u32) & 1u32 == 1u32) == ((b >> 3u32) & 1u32 == 1u32),
            ((a >> 4u32) & 1u32 == 1u32) == ((b >> 4u32) & 1u32 == 1u32),
            ((a >> 5u32) & 1u32 == 1u32) == ((b >> 5u32) & 1u32 == 1u32),
            ((a >> 6u32) & 1u32 == 1u32) == ((b >> 6u32) & 1u32 == 1u32),
            ((a >> 7u32) & 1u32 == 1u32) == ((b >> 7u32) & 1u32 == 1u32),
    ;
}

/// Two node arrays agree on what the subtree of `a` holds, on its extent and
/// on whether it is canonical.
pub open spec fn frame_pair(n1: Seq<OctreeNode>, n2: Seq<OctreeNode>, a: int, level: nat) -> bool {
    &&& forall|min: Point, p: Point| #[trigger] sem(n2, a, level, min, p) == sem(n1, a, level, min, p)
    &&& forall|x: int| #[trigger] in_reach(n2, a, level, x) == in_reach(n1, a, level, x)
    &&& canonical(n2, a, level) == canonical(n1, a, level)
    &&& tidy(n2, a, level) == tidy(n1, a, level)
    &&& (0 <= a < n1.len() ==> n2[a] == n1[a])
}

proof fn lemma_collapse_sibling(s0: Octree, cur: Octree, s1: Octree, idx: int, level: nat, i: int, j: int)
    requires
        s0.wf(),
        cur.nodes@.len() == s0.nodes@.len(),
        0 <= idx < s0.nodes@.len(),
        s0.levels@[idx] == level,
        s0.nodes@[idx].child_pointer != 0,
        0 <= j < i < 8,
        collapse_children_done(s0, cur, idx, level, i),
        collapsed_subtree(cur, s1, s0.nodes@[idx].child_pointer + i, (level - 1) as nat),
    ensures
        frame_pair(cur.nodes@, s1.nodes@, s0.nodes@[idx].child_pointer + j, (level - 1) as nat),
{
    let n0 = s0.nodes@;
    let nc = cur.nodes@;
    let n1 = s1.nodes@;
    let lv = s0.levels@;
    assert(node_ok(n0, lv, idx));
    let cp = n0[idx].child_pointer as int;
    let l1 = (level - 1) as nat;
    assert forall|x: int| #[trigger] in_reach(n0, cp + i, l1, x) implies nc[x] == n0[x] by {
        lemma_reach_levels(n0, lv, cp + i, l1, x);
        assert forall|jj: int| 0 <= jj < i implies !#[trigger] in_reach(n0, cp + jj, l1, x) by {
            lemma_disjoint(n0, lv, cp + jj, cp + i, l1, x);
        }
    }
    assert forall|x: int| #[trigger] in_reach(n0, cp + i, l1, x) implies 0 <= x < n0.len() && x < nc.len() && nc[x] == n0[x] by {
        lemma_reach_levels(n0, lv, cp + i, l1, x);
    }
    lemma_frame(n0, nc, cp + i, l1);
    assert forall|x: int| #[trigger] in_reach(nc, cp + j, l1, x) implies
        0 <= x < nc.len() && x < n1.len() && n1[x] == nc[x] by {
        assert(in_reach(n0, cp + j, l1, x));
        lemma_reach_levels(n0, lv, cp + j, l1, x);
        lemma_disjoint(n0, lv, cp + j, cp + i, l1, x);
    }
    lemma_frame(nc, n1, cp + j, l1);
    lemma_canonical_frame(nc, n1, cp + j, l1);
    lemma_tidy_frame(nc, n1, cp + j, l1);
    assert(in_reach(nc, cp + j, l1, cp + j));
}

proof fn lemma_collapse_finish(s0: Octree, s1: Octree, s2: Octree, idx: int, level: nat, collapsed: bool)
    requires
        s0.wf(),
        s1.wf(),
        s1.levels == s0.levels,
        s1.same_frame(s0),
        s1.nodes@.len() == s0.nodes@.len(),
        0 <= idx < s0.nodes@.len(),
        s0.levels@[idx] == level,
        s0.nodes@[idx].child_pointer != 0,
        collapse_children_done(s0, s1, idx, level, 8),
        s2.wf(),
        collapse_step(s1, s2, idx, collapsed),
    ensures
        collapsed_subtree(s0, s2, idx, level),
        collapsed == (s2.nodes@[idx].child_pointer == 0),
{
    let n0 = s0.nodes@;
    let n1 = s1.nodes@;
    let n2 = s2.nodes@;
    let lv = s0.levels@;
    assert(node_ok(n0, lv, idx));
    let cp = n0[idx].child_pointer as int;
    let l1 = (level - 1) as nat;
    // idx itself is untouched by the children's collapses.
    assert(n1[idx] == n0[idx]) by {
        assert forall|j: int| 0 <= j < 8 implies !#[trigger] in_reach(n0, cp + j, l1, idx) by {
            if in_reach(n0, cp + j, l1, idx) {
                lemma_reach_levels(n0, lv, cp + j, l1, idx);
            }
        }
    }
    assert forall|min: Point, p: Point| #[trigger] sem(n1, idx, level, min, p) == sem(n0, idx, level, min, p) by {
        let o = octant_of(min, level, p);
        assert(0 <= o < 8);
        assert(sem(n1, cp + o, l1, child_min(min, level, o), p) == sem(n0, cp + o, l1, child_min(min, level, o), p));
    }
    assert forall|x: int| #[trigger] in_reach(n1, idx, level, x) implies in_reach(n0, idx, level, x) by {
        lemma_reach_unfold(n1, idx, level, x);
        lemma_reach_unfold(n0, idx, level, x);
        if x != idx {
            let o = choose|o: int| 0 <= o < 8 && #[trigger] in_reach(n1, cp + o, l1, x);
            assert(in_reach(n0, cp + o, l1, x));
        }
    }
    assert forall|x: int| 0 <= x < n0.len() && !in_reach(n0, idx, level, x) implies #[trigger] n2[x] == n0[x] by {
        lemma_reach_unfold(n0, idx, level, x);
        if exists|j: int| 0 <= j < 8 && #[trigger] in_reach(n0, cp + j, l1, x) {
            let j = choose|j: int| 0 <= j < 8 && #[trigger] in_reach(n0, cp + j, l1, x);
            assert(in_reach(n0, idx, level, x));
        }
        assert(n1[x] == n0[x]);
        if in_reach(n1, idx, level, x) {
            assert(in_reach(n0, idx, level, x));
        }
    }
    assert forall|x: int| #[trigger] in_reach(n2, idx, level, x) implies in_reach(n0, idx, level, x) by {
        assert(in_reach(n1, idx, level, x));
    }
    // Canonical form.
    if collapsed {
        assert(n2[idx].child_pointer == 0);
    } else {
        assert(n2[idx].child_pointer == cp);
        assert(!uniform_leaves(n1, cp));
        assert forall|o: int| 0 <= o < 8 implies #[trigger] canonical(n2, cp + o, l1) by {
            assert(canonical(n1, cp + o, l1));
            assert forall|x: int| #[trigger] in_reach(n1, cp + o, l1, x) implies
                0 <= x < n1.len() && x < n2.len() && n2[x] == n1[x] by {
                assert(in_reach(n0, cp + o, l1, x));
                lemma_reach_levels(n0, lv, cp + o, l1, x);
            }
            lemma_canonical_frame(n1, n2, cp + o, l1);
        }
        lemma_canonical_block(n2, cp, l1, 8);
        assert forall|o: int| 0 <= o < 8 implies #[trigger] n2[cp + o] == n1[cp + o] by {
            assert(lv[cp + o] == level - 1);
        }
        lemma_uniform_frame(n1, n2, cp);
        // Tidy: the node's own material is cleared and its mask recomputed.
        assert forall|o: int| 0 <= o < 8 implies #[trigger] tidy(n2, cp + o, l1) by {
            assert(tidy(n1, cp + o, l1));
            assert forall|x: int| #[trigger] in_reach(n1, cp + o, l1, x) implies
                0 <= x < n1.len() && x < n2.len() && n2[x] == n1[x] by {
                assert(in_reach(n0, cp + o, l1, x));
                lemma_reach_levels(n0, lv, cp + o, l1, x);
            }
            lemma_tidy_frame(n1, n2, cp + o, l1);
        }
        lemma_tidy_block(n2, cp, l1, 8);
        assert forall|o: int| 0 <= o < 8 implies #[trigger] mask_bit(n2[idx].child_mask, o)
            == node_nonempty(n2[cp + o]) by {
            assert(n2[cp + o] == n1[cp + o]);
        }
        assert(tidy_node(n2, idx));
    }
}

/// A node that points at a block holding a node of the subtree of `i`
/// (other than `i` itself) lies in that subtree.
proof fn lemma_parent_in_reach(n: Seq<OctreeNode>, lv: Seq<nat>, i: int, level: nat, x: int, a: int)
    requires
        tree_ok(n, lv),
        0 <= i < n.len(),
        lv[i] == level,
        in_reach(n, i, level, x),
        x != i,
        0 <= a < n.len(),
        n[a].child_pointer != 0,
        n[a].child_pointer <= x < n[a].child_pointer + 8,
    ensures
        in_reach(n, i, level, a),
    decreases level,
{
    assert(node_ok(n, lv, i));
    assert(node_ok(n, lv, a));
    lemma_reach_unfold(n, i, level, x);
    let q = n[i].child_pointer as int;
    let o = choose|o: int| 0 <= o < 8 && #[trigger] in_reach(n, q + o, (level - 1) as nat, x);
    if x == q + o {
        let c = n[a].child_pointer as int;
        assert(c == q) by {
            assert(c % 8 == 1 && q % 8 == 1);
            assert(c <= x < c + 8 && q <= x < q + 8);
        }
        if a != i {
            assert(n[i].child_pointer != n[a].child_pointer);
        }
    } else {
        assert(lv[q + o] == level - 1);
        lemma_parent_in_reach(n, lv, q + o, (level - 1) as nat, x, a);
        lemma_reach_unfold(n, i, level, a);
    }
}

/// Node 0 heads no child block, so it lies in no other node's subtree.
proof fn lemma_root_not_child(n: Seq<OctreeNode>, lv: Seq<nat>, i: int, level: nat)
    requires
        tree_ok(n, lv),
        0 <= i < n.len(),
        i != 0,
    ensures
        !in_reach(n, i, level, 0),
    decreases level,
{
    if level > 0 && n[i].child_pointer != 0 {
        assert(node_ok(n, lv, i));
        lemma_reach_unfold(n, i, level, 0);
        let q = n[i].child_pointer as int;
        assert forall|o: int| 0 <= o < 8 implies !#[trigger] in_reach(n, q + o, (level - 1) as nat, 0) by {
            if 0 <= q + o < n.len() {
                lemma_root_not_child(n, lv, q + o, (level - 1) as nat);
            }
        }
    }
}

/// Replacing the subtree of node `i` by one that holds the same things and
/// lies within it keeps what the subtree of every node `a` outside it holds.
proof fn lemma_replace_subtree(n0: Seq<OctreeNode>, n1: Seq<OctreeNode>, lv: Seq<nat>, i: int, a: int, level: nat)
    requires
        tree_ok(n0, lv),
        0 <= i < n0.len(),
        n1.len() == n0.len(),
        forall|min: Point, p: Point| #[trigger] sem(n1, i, lv[i], min, p) == sem(n0, i, lv[i], min, p),
        forall|x: int| 0 <= x < n0.len() && !in_reach(n0, i, lv[i], x) ==> #[trigger] n1[x] == n0[x],
        0 <= a < n0.len(),
        lv[a] == level,
        a == i || !in_reach(n0, i, lv[i], a),
    ensures
        forall|min: Point, p: Point| #[trigger] sem(n1, a, level, min, p) == sem(n0, a, level, min, p),
    decreases level,
{
    if a != i {
        assert(n1[a] == n0[a]);
        assert(node_ok(n0, lv, a));
        assert forall|min: Point, p: Point| #[trigger] sem(n1, a, level, min, p) == sem(n0, a, level, min, p) by {
            if level > 0 && n0[a].child_pointer != 0 {
                let cp = n0[a].child_pointer as int;
                let o = octant_of(min, level, p);
                assert(0 <= o < 8);
                let c = cp + o;
                assert(lv[c] == level - 1);
                if c != i && in_reach(n0, i, lv[i], c) {
                    lemma_parent_in_reach(n0, lv, i, lv[i], c, a);
                }
                lemma_replace_subtree(n0, n1, lv, i, c, (level - 1) as nat);
                assert(sem(n1, c, (level - 1) as nat, child_min(min, level, o), p)
                    == sem(n0, c, (level - 1) as nat, child_min(min, level, o), p));
            }
        }
    }
}

/// Tidying a node, or collapsing its subtree, keeps what the world holds.
pub proof fn lemma_collapse_keeps_world(s0: Octree, s1: Octree, i: int)
    requires
        s0.wf(),
        0 <= i < s0.nodes@.len(),
        s1.world_min == s0.world_min,
        s1.levels == s0.levels,
        s1.nodes@.len() == s0.nodes@.len(),
        forall|min: Point, p: Point| #[trigger] sem(s1.nodes@, i, s0.levels@[i], min, p)
            == sem(s0.nodes@, i, s0.levels@[i], min, p),
        forall|x: int| 0 <= x < s0.nodes@.len() && !in_reach(s0.nodes@, i, s0.levels@[i], x)
            ==> #[trigger] s1.nodes@[x] == s0.nodes@[x],
    ensures
        forall|p: Point| #[trigger] s1.material_at(p) == s0.material_at(p),
{
    let n0 = s0.nodes@;
    let lv = s0.levels@;
    if i != 0 {
        lemma_root_not_child(n0, lv, i, lv[i]);
    }
    lemma_replace_subtree(n0, s1.nodes@, lv, i, 0, lv[0]);
    assert forall|p: Point| #[trigger] s1.material_at(p) == s0.material_at(p) by {
        assert(sem(s1.nodes@, 0, lv[0], s0.world_min_point(), p) == sem(n0, 0, lv[0], s0.world_min_point(), p));
    }
}

/// The number of nonempty leaves met by walking down the subtree of `idx`
/// through the children its mask flags.
pub open spec fn voxel_count(n: Seq<OctreeNode>, idx: int, level: nat) -> nat
    decreases level, 9nat,
{
    if !(0 <= idx < n.len()) {
        0
    } else if n[idx].child_pointer == 0 || level == 0 {
        if n[idx].material_id != 0 { 1 } else { 0 }
    } else {
        count_block(n, idx, (level - 1) as nat, 8)
    }
}

/// The voxels below the first `k` children of node `a` that its mask flags.
pub open spec fn count_block(n: Seq<OctreeNode>, a: int, level: nat, k: nat) -> nat
    decreases level + 1, k,
{
    if k == 0 {
        0
    } else {
        count_block(n, a, level, (k - 1) as nat) + if mask_bit(n[a].child_mask, k - 1) {
            voxel_count(n, n[a].child_pointer + k - 1, level)
        } else {
            0
        }
    }
}

/// The nodes of the subtree of `idx`.
pub open spec fn reach_set(n: Seq<OctreeNode>, idx: int, level: nat) -> Set<int> {
    Set::new(|x: int| in_reach(n, idx, level, x))
}

/// The nodes of the subtrees of the first `k` nodes of the block at `b`.
pub open spec fn block_reach(n: Seq<OctreeNode>, b: int, level: nat, k: nat) -> Set<int> {
    Set::new(|x: int| in_reach_block(n, b, level, x, k))
}

/// A subtree is a finite set of at most as many nodes as the array holds.
proof fn lemma_reach_finite(n: Seq<OctreeNode>, lv: Seq<nat>, idx: int, level: nat)
    requires
        tree_ok(n, lv),
        0 <= idx < n.len(),
        lv[idx] == level,
    ensures
        reach_set(n, idx, level).finite(),
        reach_set(n, idx, level).len() <= n.len(),
        reach_set(n, idx, level).contains(idx),
{
    let r = reach_set(n, idx, level);
    assert forall|x: int| r.contains(x) implies #[trigger] vstd::set_lib::set_int_range(0, n.len() as int).contains(x) by {
        lemma_reach_levels(n, lv, idx, level, x);
    }
    vstd::set_lib::lemma_int_range(0, n.len() as int);
    vstd::set_lib::lemma_len_subset(r, vstd::set_lib::set_int_range(0, n.len() as int));
    assert(in_reach(n, idx, level, idx));
}

/// The count of the first `k` children of `a` is at most the number of
/// nodes in their subtrees.
proof fn lemma_count_block_bound(n: Seq<OctreeNode>, lv: Seq<nat>, a: int, level: nat, k: nat)
    requires
        tree_ok(n, lv),
        0 <= a < n.len(),
        n[a].child_pointer != 0,
        lv[a] == level + 1,
        k <= 8,
    ensures
        block_reach(n, n[a].child_pointer as int, level, k).finite(),
        count_block(n, a, level, k) <= block_reach(n, n[a].child_pointer as int, level, k).len(),
    decreases level + 1, k,
{
    let cp = n[a].child_pointer as int;
    assert(node_ok(n, lv, a));
    if k == 0 {
        assert(block_reach(n, cp, level, 0) =~= Set::empty());
        broadcast use vstd::set::axiom_set_empty_finite;
    } else {
        lemma_count_block_bound(n, lv, a, level, (k - 1) as nat);
        let c = cp + k - 1;
        assert(lv[cp + (k - 1)] == level);
        lemma_count_bound(n, lv, c, level);
        let prev = block_reach(n, cp, level, (k - 1) as nat);
        let cur = reach_set(n, c, level);
        assert(block_reach(n, cp, level, k) =~= prev + cur);
        assert(prev.disjoint(cur)) by {
            assert forall|x: int| prev.contains(x) implies !cur.contains(x) by {
                lemma_block(n, cp, level, x, (k - 1) as nat);
                let o = choose|o: int| 0 <= o < k - 1 && #[trigger] in_reach(n, cp + o, level, x);
                assert(lv[cp + o] == level);
                lemma_disjoint(n, lv, cp + o, c, level, x);
            }
        }
        vstd::set_lib::lemma_set_disjoint_lens(prev, cur);
        vstd::set::axiom_set_union_finite(prev, cur);
    }
}

/// The count of a subtree is at most the number of its nodes.
proof fn lemma_count_bound(n: Seq<OctreeNode>, lv: Seq<nat>, idx: int, level: nat)
    requires
        tree_ok(n, lv),
        0 <= idx < n.len(),
        lv[idx] == level,
    ensures
        voxel_count(n, idx, level) <= reach_set(n, idx, level).len(),
        reach_set(n, idx, level).len() <= n.len(),
        reach_set(n, idx, level).finite(),
    decreases level, 9nat,
{
    lemma_reach_finite(n, lv, idx, level);
    let r = reach_set(n, idx, level);
    vstd::set::axiom_set_remove_len(r, idx);
    if n[idx].child_pointer != 0 && level > 0 {
        lemma_count_block_bound(n, lv, idx, (level - 1) as nat, 8);
        let cp = n[idx].child_pointer as int;
        assert forall|x: int| block_reach(n, cp, (level - 1) as nat, 8).contains(x) implies #[trigger] r.contains(x) by {
            lemma_reach_unfold(n, idx, level, x);
            lemma_block(n, cp, (level - 1) as nat, x, 8);
        }
        vstd::set_lib::lemma_len_subset(block_reach(n, cp, (level - 1) as nat, 8), r);
    }
}

/// Coordinate `k` (0 for x, 1 for y, 2 for z) of a point.
pub open spec fn coord(p: Point, k: int) -> int {
    if k == 0 {
        p.0
    } else if k == 1 {
        p.1
    } else {
        p.2
    }
}

/// Point `p` of the cube of node `idx` holds something.
pub open spec fn occupied(n: Seq<OctreeNode>, idx: int, level: nat, min: Point, p: Point) -> bool {
    in_cube(min, level, p) && sem(n, idx, level, min, p) != 0
}

/// Along axis `k`, `[lo1, hi1)` is `[lo0, hi0)` widened just enough to hold
/// every unit cell whose point satisfies `occ`.
pub open spec fn axis_ok(occ: spec_fn(Point) -> bool, k: int, lo0: i64, hi0: i64, lo1: i64, hi1: i64) -> bool {
    &&& lo1 <= lo0
    &&& hi0 <= hi1
    &&& forall|p: Point| #[trigger] occ(p) ==> lo1 <= coord(p, k) && coord(p, k) + 1 <= hi1
    &&& (lo1 == lo0 || exists|p: Point| #[trigger] occ(p) && coord(p, k) == lo1)
    &&& (hi1 == hi0 || exists|p: Point| #[trigger] occ(p) && coord(p, k) + 1 == hi1)
}

/// The box `[m1, x1)` is the box `[m0, x0)` grown to the bounding box of the
/// points that satisfy `occ`, along every axis.
pub open spec fn box_ok(occ: spec_fn(Point) -> bool, m0: [i64; 3], x0: [i64; 3], m1: [i64; 3], x1: [i64; 3]) -> bool {
    forall|k: int| 0 <= k < 3 ==> #[trigger] axis_ok(occ, k, m0[k], x0[k], m1[k], x1[k])
}

/// Growing a box by two sets of points in turn grows it by their union.
pub proof fn lemma_box_union(a: spec_fn(Point) -> bool, b: spec_fn(Point) -> bool, c: spec_fn(Point) -> bool,
    m0: [i64; 3], x0: [i64; 3], m1: [i64; 3], x1: [i64; 3], m2: [i64; 3], x2: [i64; 3])
    requires
        box_ok(a, m0, x0, m1, x1),
        box_ok(b, m1, x1, m2, x2),
        forall|p: Point| #[trigger] c(p) == (a(p) || b(p)),
    ensures
        box_ok(c, m0, x0, m2, x2),
{
    assert forall|k: int| 0 <= k < 3 implies #[trigger] axis_ok(c, k, m0[k], x0[k], m2[k], x2[k]) by {
        assert(axis_ok(a, k, m0[k], x0[k], m1[k], x1[k]));
        assert(axis_ok(b, k, m1[k], x1[k], m2[k], x2[k]));
        assert forall|p: Point| #[trigger] c(p) implies m2[k] <= coord(p, k) && coord(p, k) + 1 <= x2[k] by {
            if a(p) {
            } else {
                assert(b(p));
            }
        }
        if m2[k] != m0[k] {
            if m2[k] == m1[k] {
                let p = choose|p: Point| #[trigger] a(p) && coord(p, k) == m1[k];
                assert(c(p));
            } else {
                let p = choose|p: Point| #[trigger] b(p) && coord(p, k) == m2[k];
                assert(c(p));
            }
        }
        if x2[k] != x0[k] {
            if x2[k] == x1[k] {
                let p = choose|p: Point| #[trigger] a(p) && coord(p, k) + 1 == x1[k];
                assert(c(p));
            } else {
                let p = choose|p: Point| #[trigger] b(p) && coord(p, k) + 1 == x2[k];
                assert(c(p));
            }
        }
    }
}

/// A box grown by no point stays as it is.
pub proof fn lemma_box_none(a: spec_fn(Point) -> bool, m0: [i64; 3], x0: [i64; 3])
    requires
        forall|p: Point| !#[trigger] a(p),
    ensures
        box_ok(a, m0, x0, m0, x0),
{
    assert forall|k: int| 0 <= k < 3 implies #[trigger] axis_ok(a, k, m0[k], x0[k], m0[k], x0[k]) by {}
}

/// `x` and `y` differ by a multiple of `e`.
proof fn lemma_aligned_shift(x: int, y: int, e: int, h: int)
    requires
        e > 0,
        (x - y) % e == 0,
        h % e == 0,
    ensures
        (x - (y + h)) % e == 0,
{
    vstd::arithmetic::div_mod::lemma_fundamental_div_mod(x - y, e);
    vstd::arithmetic::div_mod::lemma_fundamental_div_mod(h, e);
    let q = (x - y) / e;
    let r = h / e;
    assert(x - (y + h) == (q - r) * e) by (nonlinear_arith)
        requires
            x - y == e * q,
            h == e * r,
    ;
    vstd::arithmetic::div_mod::lemma_mod_multiples_basic(q - r, e);
}

/// A multiple of `2^14` is a multiple of every smaller power of two.
proof fn lemma_aligned_below(a: int, t: nat)
    requires
        t <= 14,
        a % 0x4000 == 0,
    ensures
        a % edge(t) == 0,
{
    vstd::arithmetic::power2::lemma_pow2_adds(t, (14 - t) as nat);
    vstd::arithmetic::power2::lemma2_to64();
    assert((t + (14 - t) as nat) as nat == 14nat);
    lemma_pow2_pos(t);
    vstd::arithmetic::div_mod::lemma_fundamental_div_mod(a, 0x4000);
    let q = a / 0x4000;
    assert(a == (pow2((14 - t) as nat) * q) * edge(t)) by (nonlinear_arith)
        requires
            a == 0x4000 * q,
            0x4000 == edge(t) * pow2((14 - t) as nat),
    ;
    vstd::arithmetic::div_mod::lemma_mod_multiples_basic(pow2((14 - t) as nat) * q, edge(t));
}

/// In a world that holds it, a cube of edge `2^t` (`t <= 14`) whose corner
/// is a multiple of `2^t` is exactly the cell an insert of it writes: the
/// points `[pos, pos + 2^t)` take the new material and no others do.
pub proof fn lemma_aligned_write(s: Octree, pos: [i64; 3], t: nat, p: Point)
    requires
        s.wf(),
        t <= 14,
        s.contains_cube(pos, edge(t) as i64),
        (pos[0] as int) % edge(t) == 0,
        (pos[1] as int) % edge(t) == 0,
        (pos[2] as int) % edge(t) == 0,
    ensures
        in_target(s.world_min_point(), s.root_level(), pt(pos), edge(t), p) == in_cube(pt(pos), t, p),
{
    let min = s.world_min_point();
    lemma_pow2_pos(t);
    if t < 15 {
        lemma_pow2_strictly_increases(t, s.root_level());
    }
    lemma_aligned_below(min.0, t);
    lemma_aligned_below(min.1, t);
    lemma_aligned_below(min.2, t);
    assert((pos[0] as int - 0) % edge(t) == 0);
    assert((pos[1] as int - 0) % edge(t) == 0);
    assert((pos[2] as int - 0) % edge(t) == 0);
    lemma_aligned_shift(pos[0] as int, 0, edge(t), min.0);
    lemma_aligned_shift(pos[1] as int, 0, edge(t), min.1);
    lemma_aligned_shift(pos[2] as int, 0, edge(t), min.2);
    lemma_target_aligned(min, s.root_level(), pt(pos), t, p);
}

/// Writing a cube whose edge is `2^t` at a corner aligned to `2^t` (measured
/// from the world's corner) overwrites exactly that cube: the cell an insert
/// writes is then the cube `[pos, pos + 2^t)` itself.
pub proof fn lemma_target_aligned(min: Point, level: nat, pos: Point, t: nat, p: Point)
    requires
        t <= level,
        in_cube(min, level, pos),
        (pos.0 - min.0) % edge(t) == 0,
        (pos.1 - min.1) % edge(t) == 0,
        (pos.2 - min.2) % edge(t) == 0,
    ensures
        in_target(min, level, pos, edge(t), p) == in_cube(pos, t, p),
    decreases level,
{
    lemma_pow2_pos(t);
    let e = edge(t);
    if level == t {
        vstd::arithmetic::div_mod::lemma_small_mod((pos.0 - min.0) as nat, e as nat);
        vstd::arithmetic::div_mod::lemma_small_mod((pos.1 - min.1) as nat, e as nat);
        vstd::arithmetic::div_mod::lemma_small_mod((pos.2 - min.2) as nat, e as nat);
        assert(pos == min);
    } else {
        if t < level - 1 {
            lemma_pow2_strictly_increases(t, (level - 1) as nat);
        }
        lemma_pow2_unfold(level);
        assert(wider(edge(level), e));
        let o = octant_of(min, level, pos);
        lemma_child_octant(min, level, pos);
        lemma_child_cube(min, level, o, pos);
        let cm = child_min(min, level, o);
        let half = edge((level - 1) as nat);
        vstd::arithmetic::power2::lemma_pow2_adds(t, (level - 1 - t) as nat);
        assert((t + (level - 1 - t) as nat) as nat == (level - 1) as nat);
        vstd::arithmetic::div_mod::lemma_mod_multiples_basic(pow2((level - 1 - t) as nat) as int, e);
        assert(half % e == 0) by (nonlinear_arith)
            requires
                half == e * pow2((level - 1 - t) as nat),
                (pow2((level - 1 - t) as nat) * e) % e == 0,
        ;
        assert(0int % e == 0);
        if o % 2 == 1 {
            lemma_aligned_shift(pos.0, min.0, e, half);
        } else {
            lemma_aligned_shift(pos.0, min.0, e, 0);
        }
        if (o / 2) % 2 == 1 {
            lemma_aligned_shift(pos.1, min.1, e, half);
        } else {
            lemma_aligned_shift(pos.1, min.1, e, 0);
        }
        if o >= 4 {
            lemma_aligned_shift(pos.2, min.2, e, half);
        } else {
            lemma_aligned_shift(pos.2, min.2, e, 0);
        }
        lemma_target_aligned(cm, (level - 1) as nat, pos, t, p);
    }
}

/// The target cell lies inside the cube the descent starts from.
pub proof fn lemma_target_inside(min: Point, level: nat, pos: Point, size: int, p: Point)
    requires
        in_cube(min, level, pos),
    ensures
        in_target(min, level, pos, size, p) ==> in_cube(min, level, p),
    decreases level,
{
    if level > 0 && wider(edge(level), size) {
        let o = octant_of(min, level, pos);
        lemma_child_cube(min, level, o, pos);
        lemma_child_octant(min, level, pos);
        lemma_target_inside(child_min(min, level, o), (level - 1) as nat, pos, size, p);
        lemma_child_cube(min, level, o, p);
    }
}

/// The edge of a cube of level >= 1 is twice that of its children, and every
/// edge up to `MAX_LEVEL` fits an `i64` with room to double.
pub proof fn lemma_edge_halves(level: nat)
    requires
        1 <= level <= MAX_LEVEL,
    ensures
        edge(level) == 2 * edge((level - 1) as nat),
        edge((level - 1) as nat) >= 1,
        edge((level - 1) as nat) <= 0x2000_0000_0000_0000,
        edge(level) <= 0x4000_0000_0000_0000,
{
    lemma_pow2_unfold(level);
    lemma_pow2_pos((level - 1) as nat);
    lemma_edge_bound(level);
}

pub proof fn lemma_edge_bound(level: nat)
    requires
        level <= MAX_LEVEL,
    ensures
        1 <= edge(level) <= 0x4000_0000_0000_0000,
{
    lemma2_to64_rest();
    lemma_pow2_pos(level);
    if level < 62 {
        lemma_pow2_strictly_increases(level, 62);
    }
}

/// Testing a mask against `1 << o` reads bit `o`.
pub proof fn lemma_mask_test(mask: u32, o: u32)
    requires
        o < 8,
    ensures
        ((mask & (1u32 << o)) != 0) == mask_bit(mask, o as int),
{
    assert(((mask & (1u32 << o)) != 0) == ((mask >> o) & 1u32 == 1u32)) by (bit_vector)
        requires
            o < 8,
    ;
}


// ---------------------------------------------------------------------------
// The voxel count of a canonical tree depends on what it holds alone.
// ---------------------------------------------------------------------------

/// What the subtree of `idx`, standing for the cube at `min`, holds.
pub open spec fn sem_fn(n: Seq<OctreeNode>, idx: int, level: nat, min: Point) -> spec_fn(Point) -> int {
    |p: Point| sem(n, idx, level, min, p)
}

/// What the world holds.
pub open spec fn materials(s: Octree) -> spec_fn(Point) -> int {
    |p: Point| s.material_at(p)
}

/// `f` takes one value over the cube at `min`.
pub open spec fn uniform_on(f: spec_fn(Point) -> int, min: Point, level: nat) -> bool {
    forall|p: Point| #[trigger] in_cube(min, level, p) ==> f(p) == f(min)
}

/// The occupied leaves of the smallest octree that holds `f` on the cube at
/// `min`: one leaf where `f` is uniform (counted unless it is air), else the
/// leaves of the eight octants.
pub open spec fn leaf_count(f: spec_fn(Point) -> int, min: Point, level: nat) -> nat
    decreases level, 9nat,
{
    if uniform_on(f, min, level) || level == 0 {
        if f(min) != 0 { 1 } else { 0 }
    } else {
        leaf_count_block(f, min, level, 8)
    }
}

/// The occupied leaves of the first `k` octants of the cube at `min`.
pub open spec fn leaf_count_block(f: spec_fn(Point) -> int, min: Point, level: nat, k: nat) -> nat
    decreases level, k,
{
    if k == 0 || level == 0 {
        0
    } else {
        leaf_count_block(f, min, level, (k - 1) as nat) + leaf_count(f, child_min(min, level, k - 1), (level - 1) as nat)
    }
}

/// The leaf count of `f` depends on what `f` holds on the cube alone.
proof fn lemma_leaf_count_ext(f: spec_fn(Point) -> int, g: spec_fn(Point) -> int, min: Point, level: nat)
    requires
        forall|p: Point| #[trigger] in_cube(min, level, p) ==> f(p) == g(p),
    ensures
        leaf_count(f, min, level) == leaf_count(g, min, level),
    decreases level,
{
    lemma_pow2_pos(level);
    assert(in_cube(min, level, min));
    assert(uniform_on(f, min, level) == uniform_on(g, min, level)) by {
        if uniform_on(f, min, level) {
            assert forall|p: Point| #[trigger] in_cube(min, level, p) implies g(p) == g(min) by {}
        }
        if uniform_on(g, min, level) {
            assert forall|p: Point| #[trigger] in_cube(min, level, p) implies f(p) == f(min) by {}
        }
    }
    if !uniform_on(f, min, level) && level > 0 {
        assert forall|o: int| 0 <= o < 8 implies #[trigger] leaf_count(f, child_min(min, level, o), (level - 1) as nat)
            == leaf_count(g, child_min(min, level, o), (level - 1) as nat) by {
            assert forall|p: Point| #[trigger] in_cube(child_min(min, level, o), (level - 1) as nat, p)
                implies f(p) == g(p) by {
                lemma_child_cube(min, level, o, p);
            }
            lemma_leaf_count_ext(f, g, child_min(min, level, o), (level - 1) as nat);
        }
        lemma_leaf_block_eq(f, g, min, level, 8);
    }
}

/// Leaf counts that agree octant by octant agree on the first `k` octants.
proof fn lemma_leaf_block_eq(f: spec_fn(Point) -> int, g: spec_fn(Point) -> int, min: Point, level: nat, k: nat)
    requires
        k <= 8,
        level > 0,
        forall|o: int| 0 <= o < 8 ==> #[trigger] leaf_count(f, child_min(min, level, o), (level - 1) as nat)
            == leaf_count(g, child_min(min, level, o), (level - 1) as nat),
    ensures
        leaf_count_block(f, min, level, k) == leaf_count_block(g, min, level, k),
    decreases k,
{
    if k > 0 {
        lemma_leaf_block_eq(f, g, min, level, (k - 1) as nat);
        assert(leaf_count(f, child_min(min, level, k - 1), (level - 1) as nat)
            == leaf_count(g, child_min(min, level, k - 1), (level - 1) as nat));
    }
}

/// Below a tidy inner node, each octant holds what its child holds.
proof fn lemma_sem_child(n: Seq<OctreeNode>, lv: Seq<nat>, idx: int, level: nat, min: Point, o: int, p: Point)
    requires
        tree_ok(n, lv),
        0 <= idx < n.len(),
        lv[idx] == level,
        level >= 1,
        n[idx].child_pointer != 0,
        tidy_node(n, idx),
        0 <= o < 8,
        in_cube(child_min(min, level, o), (level - 1) as nat, p),
    ensures
        sem(n, idx, level, min, p) == sem(n, n[idx].child_pointer + o, (level - 1) as nat, child_min(min, level, o), p),
{
    lemma_child_cube(min, level, o, p);
    assert(node_ok(n, lv, idx));
    let c = n[idx].child_pointer + o;
    assert(mask_bit(n[idx].child_mask, o) == node_nonempty(n[c]));
}

/// A canonical, tidy subtree that holds one value everywhere is a leaf.
proof fn lemma_uniform_is_leaf(n: Seq<OctreeNode>, lv: Seq<nat>, idx: int, level: nat, min: Point)
    requires
        tree_ok(n, lv),
        0 <= idx < n.len(),
        lv[idx] == level,
        canonical(n, idx, level),
        tidy(n, idx, level),
        uniform_on(sem_fn(n, idx, level, min), min, level),
    ensures
        n[idx].child_pointer == 0,
    decreases level,
{
    assert(node_ok(n, lv, idx));
    let f = sem_fn(n, idx, level, min);
    if n[idx].child_pointer != 0 {
        let cp = n[idx].child_pointer as int;
        let l1 = (level - 1) as nat;
        lemma_pow2_pos(level);
        assert(in_cube(min, level, min));
        lemma_canonical_block(n, cp, l1, 8);
        lemma_tidy_block(n, cp, l1, 8);
        assert forall|o: int| 0 <= o < 8 implies (#[trigger] n[cp + o]).child_pointer == 0
            && n[cp + o].material_id == f(min) by {
            let cm = child_min(min, level, o);
            let g = sem_fn(n, cp + o, l1, cm);
            assert(canonical(n, cp + o, l1) && tidy(n, cp + o, l1));
            assert(lv[cp + o] == l1);
            lemma_pow2_pos(l1);
            assert(in_cube(cm, l1, cm));
            lemma_sem_child(n, lv, idx, level, min, o, cm);
            lemma_child_cube(min, level, o, cm);
            assert forall|p: Point| #[trigger] in_cube(cm, l1, p) implies g(p) == g(cm) by {
                lemma_sem_child(n, lv, idx, level, min, o, p);
                lemma_child_cube(min, level, o, p);
            }
            lemma_uniform_is_leaf(n, lv, cp + o, l1, cm);
        }
        assert(uniform_leaves(n, cp)) by {
            assert(n[cp + 0].material_id == f(min));
            assert(cp + 0 == cp);
        }
    }
}

/// The voxel count of a canonical, tidy subtree is the leaf count of what
/// it holds.
proof fn lemma_voxel_count_leaves(n: Seq<OctreeNode>, lv: Seq<nat>, idx: int, level: nat, min: Point)
    requires
        tree_ok(n, lv),
        0 <= idx < n.len(),
        lv[idx] == level,
        canonical(n, idx, level),
        tidy(n, idx, level),
    ensures
        voxel_count(n, idx, level) == leaf_count(sem_fn(n, idx, level, min), min, level),
    decreases level,
{
    assert(node_ok(n, lv, idx));
    let f = sem_fn(n, idx, level, min);
    lemma_pow2_pos(level);
    assert(in_cube(min, level, min));
    if n[idx].child_pointer == 0 || level == 0 {
        assert(uniform_on(f, min, level));
    } else {
        let cp = n[idx].child_pointer as int;
        let l1 = (level - 1) as nat;
        if uniform_on(f, min, level) {
            lemma_uniform_is_leaf(n, lv, idx, level, min);
        }
        lemma_canonical_block(n, cp, l1, 8);
        lemma_tidy_block(n, cp, l1, 8);
        assert forall|o: int| 0 <= o < 8 implies (if mask_bit(n[idx].child_mask, o) {
            voxel_count(n, n[idx].child_pointer + o, l1)
        } else {
            0
        }) == leaf_count(f, #[trigger] child_min(min, level, o), l1) by {
            let cm = child_min(min, level, o);
            assert(canonical(n, cp + o, l1) && tidy(n, cp + o, l1));
            assert(lv[cp + o] == l1);
            lemma_voxel_count_leaves(n, lv, cp + o, l1, cm);
            assert forall|p: Point| #[trigger] in_cube(cm, l1, p) implies sem_fn(n, cp + o, l1, cm)(p) == f(p) by {
                lemma_sem_child(n, lv, idx, level, min, o, p);
            }
            lemma_leaf_count_ext(sem_fn(n, cp + o, l1, cm), f, cm, l1);
            if !mask_bit(n[idx].child_mask, o) {
                assert(!node_nonempty(n[cp + o]));
            }
        }
        lemma_count_block_leaves(n, idx, level, min, 8);
    }
}

/// The voxel count of the first `k` children, octant by octant.
proof fn lemma_count_block_leaves(n: Seq<OctreeNode>, idx: int, level: nat, min: Point, k: nat)
    requires
        k <= 8,
        level > 0,
        forall|o: int| 0 <= o < 8 ==> (if mask_bit(n[idx].child_mask, o) {
            voxel_count(n, n[idx].child_pointer + o, (level - 1) as nat)
        } else {
            0
        }) == leaf_count(sem_fn(n, idx, level, min), #[trigger] child_min(min, level, o), (level - 1) as nat),
    ensures
        count_block(n, idx, (level - 1) as nat, k) == leaf_count_block(sem_fn(n, idx, level, min), min, level, k),
    decreases k,
{
    if k > 0 {
        lemma_count_block_leaves(n, idx, level, min, (k - 1) as nat);
        let o = k - 1;
        assert(n[idx].child_pointer + o == n[idx].child_pointer + k - 1);
        assert((if mask_bit(n[idx].child_mask, o) {
            voxel_count(n, n[idx].child_pointer + o, (level - 1) as nat)
        } else {
            0
        }) == leaf_count(sem_fn(n, idx, level, min), child_min(min, level, o), (level - 1) as nat));
    }
}

/// The voxel count of a canonical, tidy world is the leaf count of what it
/// holds: it does not depend on how the nodes lie in the array, only on
/// the world cube and the material at each point.
pub proof fn lemma_count_of_world(s: Octree)
    requires
        s.wf(),
        canonical(s.nodes@, 0, s.root_level()),
        tidy(s.nodes@, 0, s.root_level()),
    ensures
        voxel_count(s.nodes@, 0, s.root_level()) == leaf_count(materials(s), s.world_min_point(), s.root_level()),
{
    let min = s.world_min_point();
    let l = s.root_level();
    lemma_voxel_count_leaves(s.nodes@, s.levels@, 0, l, min);
    assert forall|p: Point| #[trigger] in_cube(min, l, p) implies sem_fn(s.nodes@, 0, l, min)(p) == materials(s)(p) by {}
    lemma_leaf_count_ext(sem_fn(s.nodes@, 0, l, min), materials(s), min, l);
}

} // verus!
