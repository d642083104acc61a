use voxel_svo::octree::{Octree, OctreeNode, INITIAL_WORLD_MIN, INITIAL_WORLD_SIZE, SVO_PAGE_SIZE};

fn world_with(cubes: &[([i64; 3], i64, u16)], auto_collapse: bool) -> Octree {
    let mut t = Octree::new();
    for &(pos, size, m) in cubes {
        t.insert_cube_world(pos, size, m, auto_collapse);
    }
    t
}

#[test]
fn new_world_is_empty() {
    let t = Octree::new();
    assert_eq!(t.nodes.len(), 1);
    assert_eq!(t.root_index, 0);
    assert_eq!(t.world_size, INITIAL_WORLD_SIZE);
    assert_eq!(t.world_min, [INITIAL_WORLD_MIN; 3]);
    assert_eq!(t.total_voxels, 0);
    assert!(t.dirty_pages.contains(&0));
    assert_eq!(t.dirty_pages.len(), 1);
    assert_eq!(t.query_point([0, 0, 0]), 0);
    assert_eq!(t.query_point([-16384, -16384, -16384]), 0);
}

#[test]
fn empty_node_is_all_zero() {
    let n = OctreeNode::empty();
    assert_eq!((n.child_mask, n.child_pointer, n.material_id, n._pad), (0, 0, 0, 0));
    let d = OctreeNode::default();
    assert_eq!((d.child_mask, d.child_pointer, d.material_id, d._pad), (0, 0, 0, 0));
}

#[test]
fn inserted_cube_reads_back() {
    let t = world_with(&[([0, 0, 0], 64, 5)], true);
    assert_eq!(t.query_point([0, 0, 0]), 5);
    assert_eq!(t.query_point([63, 63, 63]), 5);
    assert_eq!(t.query_point([64, 0, 0]), 0);
    assert_eq!(t.query_point([-1, 0, 0]), 0);
    assert_eq!(t.query_point([0, 64, 0]), 0);
}

#[test]
fn finest_voxel_reads_back() {
    let t = world_with(&[([10, 20, 30], 1, 7)], true);
    assert_eq!(t.query_point([10, 20, 30]), 7);
    assert_eq!(t.query_point([11, 20, 30]), 0);
    assert_eq!(t.query_point([10, 21, 30]), 0);
    assert_eq!(t.query_point([10, 20, 29]), 0);
}

#[test]
fn edge_rounds_down_to_a_power_of_two() {
    // An edge of 100 writes the aligned 64-cube holding the position.
    let t = world_with(&[([0, 0, 0], 100, 9)], true);
    assert_eq!(t.query_point([63, 63, 63]), 9);
    assert_eq!(t.query_point([64, 0, 0]), 0);
    // A position inside a cell writes the whole cell.
    let t = world_with(&[([70, 5, 5], 64, 4)], true);
    assert_eq!(t.query_point([64, 0, 0]), 4);
    assert_eq!(t.query_point([127, 63, 63]), 4);
    assert_eq!(t.query_point([128, 0, 0]), 0);
}

#[test]
fn erasing_clears_the_cell() {
    let mut t = world_with(&[([0, 0, 0], 64, 5), ([64, 0, 0], 64, 6)], true);
    t.insert_cube_world([0, 0, 0], 64, 0, true);
    assert_eq!(t.query_point([0, 0, 0]), 0);
    assert_eq!(t.query_point([64, 0, 0]), 6);
    t.recalculate_voxel_count();
    assert_eq!(t.total_voxels, 1);
}

#[test]
fn writing_the_same_material_twice_changes_nothing() {
    let mut t = world_with(&[([0, 0, 0], 64, 5)], false);
    let before = t.nodes.len();
    t.insert_cube_world([0, 0, 0], 64, 5, false);
    assert_eq!(t.nodes.len(), before);
    assert_eq!(t.query_point([32, 32, 32]), 5);
}

#[test]
fn world_grows_upwards_towards_an_edit() {
    let t = world_with(&[([20000, 0, 0], 64, 3)], true);
    assert_eq!(t.world_size, 65536);
    assert_eq!(t.world_min, [-16384, -16384, -16384]);
    // The cell written is the 64-cube of the world's grid holding the
    // position: [19968, 20032) along x.
    assert_eq!(t.query_point([20000, 0, 0]), 3);
    assert_eq!(t.query_point([19968, 63, 63]), 3);
    assert_eq!(t.query_point([20031, 0, 0]), 3);
    assert_eq!(t.query_point([20032, 0, 0]), 0);
    assert_eq!(t.query_point([19967, 0, 0]), 0);
}

#[test]
fn world_grows_downwards_towards_an_edit() {
    let t = world_with(&[([-20000, 0, 0], 64, 3)], true);
    assert_eq!(t.world_size, 65536);
    assert_eq!(t.world_min, [-49152, -16384, -16384]);
    assert_eq!(t.query_point([-20000, 0, 0]), 3);
}

#[test]
fn growing_keeps_what_the_world_holds() {
    let mut t = world_with(&[([0, 0, 0], 64, 5)], true);
    t.ensure_bounds([100000, -100000, 0], 64);
    assert_eq!(t.world_size, 131072);
    assert_eq!(t.world_min, [-16384, -114688, -16384]);
    assert_eq!(t.query_point([0, 0, 0]), 5);
    assert_eq!(t.query_point([64, 0, 0]), 0);
}

#[test]
fn expand_root_of_an_empty_world() {
    let mut t = Octree::new();
    t.expand_root([0, 0, 0]);
    assert_eq!(t.world_size, 65536);
    assert_eq!(t.world_min, [-16384, -16384, -16384]);
    assert_eq!(t.nodes.len(), 1);
}

#[test]
fn expand_root_moves_the_old_root_down() {
    let mut t = world_with(&[([0, 0, 0], 64, 5)], true);
    t.expand_root([-20000, 0, 0]);
    assert_eq!(t.world_min, [-49152, -16384, -16384]);
    assert_eq!(t.world_size, 65536);
    assert_eq!(t.nodes[0].child_mask, 1 << 1);
    assert_eq!(t.query_point([0, 0, 0]), 5);
}

#[test]
fn eight_equal_children_collapse_into_one_leaf() {
    let mut cubes = Vec::new();
    for o in 0..8i64 {
        cubes.push(([(o & 1) * 64, ((o >> 1) & 1) * 64, ((o >> 2) & 1) * 64], 64, 3u16));
    }
    let mut t = world_with(&cubes, false);
    t.recalculate_voxel_count();
    assert_eq!(t.total_voxels, 8);
    let leaf = t.collapse(0);
    assert!(!leaf);
    t.recalculate_voxel_count();
    assert_eq!(t.total_voxels, 1);
    assert_eq!(t.query_point([127, 127, 127]), 3);
    assert_eq!(t.query_point([128, 0, 0]), 0);
}

#[test]
fn auto_collapse_merges_on_the_way_up() {
    let mut cubes = Vec::new();
    for o in 0..8i64 {
        cubes.push(([(o & 1) * 64, ((o >> 1) & 1) * 64, ((o >> 2) & 1) * 64], 64, 3u16));
    }
    let mut t = world_with(&cubes, true);
    t.recalculate_voxel_count();
    assert_eq!(t.total_voxels, 1);
    assert_eq!(t.count_occupied_voxels(0), 1);
}

#[test]
fn try_collapse_of_a_leaf_is_true() {
    let mut t = Octree::new();
    assert!(t.try_collapse_node(0));
    assert_eq!(t.nodes.len(), 1);
}

#[test]
fn try_collapse_recomputes_the_mask() {
    let mut t = world_with(&[([0, 0, 0], 64, 5)], false);
    assert!(!t.try_collapse_node(0));
    assert_eq!(t.nodes[0].material_id, 0);
    assert_ne!(t.nodes[0].child_mask, 0);
}

#[test]
fn collapse_path_stops_at_the_first_refusal() {
    let mut t = world_with(&[([0, 0, 0], 64, 5)], false);
    let before = t.nodes.clone();
    t.collapse_path(&[]);
    assert_eq!(t.nodes.len(), before.len());
    t.collapse_path(&[(0, 0)]);
    assert_eq!(t.query_point([0, 0, 0]), 5);
}

#[test]
fn voxel_bounds_of_two_cubes() {
    let t = world_with(&[([0, 0, 0], 64, 5), ([128, 64, 0], 64, 2)], true);
    let mut lo = [i64::MAX; 3];
    let mut hi = [i64::MIN; 3];
    let has = t.compute_voxel_bounds(0, t.world_min, t.world_size, &mut lo, &mut hi);
    assert!(has);
    assert_eq!(lo, [0, 0, 0]);
    assert_eq!(hi, [192, 128, 64]);
}

#[test]
fn voxel_bounds_of_an_empty_world() {
    let t = Octree::new();
    let mut lo = [7, 8, 9];
    let mut hi = [10, 11, 12];
    let has = t.compute_voxel_bounds(0, t.world_min, t.world_size, &mut lo, &mut hi);
    assert!(!has);
    assert_eq!(lo, [7, 8, 9]);
    assert_eq!(hi, [10, 11, 12]);
}

#[test]
fn mark_dirty_covers_the_pages_of_the_range() {
    let mut t = Octree::new();
    t.dirty_pages.clear();
    t.mark_dirty(SVO_PAGE_SIZE, SVO_PAGE_SIZE + 1);
    let mut pages: Vec<usize> = t.dirty_pages.iter().copied().collect();
    pages.sort();
    assert_eq!(pages, vec![1, 2]);
    t.dirty_pages.clear();
    t.mark_dirty(0, 0);
    assert!(t.dirty_pages.contains(&0));
    t.dirty_pages.clear();
    t.mark_all_dirty();
    assert_eq!(t.dirty_pages.len(), 1);
}

#[test]
fn allocate_and_free_blocks() {
    let mut t = Octree::new();
    let a = t.allocate_block();
    assert_eq!(a, 1);
    assert_eq!(t.nodes.len(), 9);
    let b = t.allocate_block();
    assert_eq!(b, 9);
    t.free_subtree(b);
    assert_eq!(t.free_list, vec![9]);
    let c = t.allocate_block();
    assert_eq!(c, 9);
    assert!(t.free_list.is_empty());
    assert_eq!(t.nodes.len(), 17);
}

#[test]
fn free_subtree_of_zero_does_nothing() {
    let mut t = Octree::new();
    t.free_subtree(0);
    assert!(t.free_list.is_empty());
    assert_eq!(t.nodes.len(), 1);
}

#[test]
fn count_follows_the_masks() {
    let t = world_with(&[([0, 0, 0], 64, 5), ([64, 0, 0], 64, 6), ([-64, -64, -64], 1, 1)], true);
    assert_eq!(t.count_occupied_voxels(0), 3);
}

#[test]
fn query_outside_the_world_is_air() {
    let t = world_with(&[([0, 0, 0], 64, 5)], true);
    assert_eq!(t.query_point([16384, 0, 0]), 0);
    assert_eq!(t.query_point([-16385, 0, 0]), 0);
}

#[test]
fn edges_within_a_thousandth_of_a_cell_take_the_cell() {
    let t = world_with(&[([0, 0, 0], 1023, 6)], true);
    assert_eq!(t.query_point([1023, 1023, 1023]), 6);
    let t = world_with(&[([0, 0, 0], 1000, 6)], true);
    assert_eq!(t.query_point([511, 511, 511]), 6);
    assert_eq!(t.query_point([600, 0, 0]), 0);
}

#[test]
fn one_unit_cube_in_a_fresh_world() {
    let t = world_with(&[([0, 0, 0], 64, 5)], false);
    assert_eq!(t.query_point([32, 32, 32]), 5);
    assert_eq!(t.query_point([0, 0, 0]), 5);
    assert_eq!(t.query_point([64, 32, 32]), 0);
    assert_eq!(t.query_point([-32, 32, 32]), 0);
    assert_eq!(t.count_occupied_voxels(0), 1);
    assert_eq!(t.nodes.len(), 73);
    assert_eq!(t.world_size, 512 * 64);
}

#[test]
fn erasing_with_collapse_leaves_an_empty_root() {
    let mut t = world_with(&[([0, 0, 0], 64, 5)], true);
    t.insert_cube_world([0, 0, 0], 64, 0, true);
    let root = t.nodes[t.root_index as usize];
    assert_eq!((root.child_mask, root.child_pointer, root.material_id, root._pad), (0, 0, 0, 0));
    assert_eq!(t.count_occupied_voxels(0), 0);
    assert_eq!(t.free_list.len(), 9);
    assert_eq!(t.nodes.len(), 73);
    assert_eq!(t.query_point([0, 0, 0]), 0);
}

#[test]
fn leaves_are_counted_not_unit_voxels() {
    let mut t = world_with(&[([0, 0, 0], 128, 5)], false);
    assert_eq!(t.count_occupied_voxels(0), 1);
    t.insert_cube_world([0, 0, 0], 64, 7, false);
    assert_eq!(t.count_occupied_voxels(0), 8);
}

#[test]
fn collapsing_twice_changes_nothing_more() {
    let mut t = world_with(&[([0, 0, 0], 64, 5), ([64, 0, 0], 64, 5), ([0, 64, 0], 64, 3)], false);
    let first = t.collapse(0);
    let nodes: Vec<(u32, u32, u32)> = t.nodes.iter().map(|n| (n.child_mask, n.child_pointer, n.material_id)).collect();
    let free = t.free_list.clone();
    let second = t.collapse(0);
    assert_eq!(first, second);
    let again: Vec<(u32, u32, u32)> = t.nodes.iter().map(|n| (n.child_mask, n.child_pointer, n.material_id)).collect();
    assert_eq!(nodes, again);
    assert_eq!(free, t.free_list);
}

#[test]
fn aligned_cubes_cover_exactly_their_span() {
    let t = world_with(&[([-128, 256, 64], 64, 6)], false);
    assert_eq!(t.query_point([-128, 256, 64]), 6);
    assert_eq!(t.query_point([-65, 319, 127]), 6);
    assert_eq!(t.query_point([-64, 256, 64]), 0);
    assert_eq!(t.query_point([-129, 256, 64]), 0);
    assert_eq!(t.query_point([-128, 320, 64]), 0);
}
