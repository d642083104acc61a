use voxel_svo::engine::{apply_deltas, apply_history_action, bresenham_3d, generate_world_terrain, terrain_edits};
use voxel_svo::octree::Octree;
use voxel_svo::types::{CubeEdit, HistoryAction, VoxelDelta, WorldType};

#[test]
fn line_along_x() {
    assert_eq!(bresenham_3d([0, 0, 0], [3, 0, 0]), vec![[0, 0, 0], [1, 0, 0], [2, 0, 0], [3, 0, 0]]);
}

#[test]
fn line_along_the_diagonal() {
    assert_eq!(bresenham_3d([0, 0, 0], [2, 2, 2]), vec![[0, 0, 0], [1, 1, 1], [2, 2, 2]]);
}

#[test]
fn line_of_one_cell() {
    assert_eq!(bresenham_3d([5, 5, 5], [5, 5, 5]), vec![[5, 5, 5]]);
}

#[test]
fn line_towards_negative_x() {
    assert_eq!(bresenham_3d([0, 0, 0], [-2, 1, 0]), vec![[0, 0, 0], [-1, 1, 0], [-2, 1, 0]]);
}

#[test]
fn line_driven_by_z() {
    assert_eq!(
        bresenham_3d([0, 0, 0], [1, 2, 5]),
        vec![[0, 0, 0], [0, 0, 1], [0, 1, 2], [1, 1, 3], [1, 2, 4], [1, 2, 5]]
    );
}

#[test]
fn line_with_mixed_directions() {
    assert_eq!(bresenham_3d([1, 2, 3], [4, -1, 2]), vec![[1, 2, 3], [2, 1, 3], [3, 0, 2], [4, -1, 2]]);
}

#[test]
fn line_driven_by_y_lets_z_drift() {
    // When y drives the line, z keeps moving once its error term turns
    // nonnegative; the last cell is the end point all the same.
    assert_eq!(
        bresenham_3d([0, 0, 0], [0, 10, 1]),
        vec![
            [0, 0, 0], [0, 1, 0], [0, 2, 0], [0, 3, 0], [0, 4, 0], [0, 5, 1],
            [0, 6, 2], [0, 7, 3], [0, 8, 4], [0, 9, 5], [0, 10, 1]
        ]
    );
    assert_eq!(bresenham_3d([0, 0, 0], [1, 4, 1]), vec![[0, 0, 0], [0, 1, 0], [1, 2, 1], [1, 3, 2], [1, 4, 1]]);
}

fn delta(pos: [i64; 3], size: i64, old_material: u16, new_material: u16) -> VoxelDelta {
    VoxelDelta { pos, size, old_material, new_material }
}

#[test]
fn no_delta_changes_nothing() {
    let mut t = Octree::new();
    apply_deltas(&mut t, &[], true);
    assert_eq!(t.nodes.len(), 1);
    assert_eq!(t.total_voxels, 0);
}

#[test]
fn one_delta_each_way() {
    let mut t = Octree::new();
    let d = [delta([0, 0, 0], 64, 0, 4)];
    apply_deltas(&mut t, &d, true);
    assert_eq!(t.query_point([10, 10, 10]), 4);
    assert_eq!(t.total_voxels, 1);
    apply_deltas(&mut t, &d, false);
    assert_eq!(t.query_point([10, 10, 10]), 0);
    assert_eq!(t.total_voxels, 0);
}

#[test]
fn later_deltas_win_and_count_after_collapse() {
    let mut t = Octree::new();
    let mut ds = Vec::new();
    for o in 0..8i64 {
        ds.push(delta([(o & 1) * 64, ((o >> 1) & 1) * 64, ((o >> 2) & 1) * 64], 64, 0, 2));
    }
    ds.push(delta([0, 0, 0], 64, 2, 5));
    apply_deltas(&mut t, &ds, true);
    assert_eq!(t.query_point([0, 0, 0]), 5);
    assert_eq!(t.query_point([64, 64, 64]), 2);
    assert_eq!(t.total_voxels, 8);
    apply_deltas(&mut t, &ds[..8], true);
    assert_eq!(t.query_point([0, 0, 0]), 2);
    assert_eq!(t.total_voxels, 1);
}

#[test]
fn empty_world_has_no_terrain() {
    let t = generate_world_terrain(WorldType::Empty, &[], &[], &[]);
    assert_eq!(t.total_voxels, 0);
    assert_eq!(t.query_point([0, 0, 0]), 0);
    assert!(terrain_edits(WorldType::Empty, &[], &[]).is_empty());
}

#[test]
fn flat_world_is_grass_on_two_layers_of_stone() {
    let plan = terrain_edits(WorldType::Flat, &[], &[]);
    assert_eq!(plan.len(), 128 * 128 * 3);
    assert_eq!(plan[0], ([-64 * 64, -2 * 64, -64 * 64], 64, 1));
    assert_eq!(plan[2], ([-64 * 64, 0, -64 * 64], 64, 2));
    assert_eq!(plan[3], ([-64 * 64, -2 * 64, -63 * 64], 64, 1));
    let t = generate_world_terrain(WorldType::Flat, &[], &[], &[]);
    assert_eq!(t.query_point([0, 0, 0]), 2);
    assert_eq!(t.query_point([0, 63, 0]), 2);
    assert_eq!(t.query_point([0, -1, 0]), 1);
    assert_eq!(t.query_point([0, -128, 0]), 1);
    assert_eq!(t.query_point([0, -129, 0]), 0);
    assert_eq!(t.query_point([0, 64, 0]), 0);
    assert_eq!(t.query_point([4095, 0, -4096]), 2);
    assert_eq!(t.query_point([4096, 0, 0]), 0);
    assert!(t.total_voxels > 0);
}

#[test]
fn hills_follow_the_heights() {
    let mut heights = vec![0i32; 128 * 128];
    heights[(0 + 64) * 128 + (0 + 64)] = 3;
    let plan = terrain_edits(WorldType::Hills, &heights, &[]);
    assert_eq!(plan.len(), 128 * 128 * 5 + 3);
    let t = generate_world_terrain(WorldType::Hills, &heights, &[], &[]);
    assert_eq!(t.query_point([0, 3 * 64, 0]), 2);
    assert_eq!(t.query_point([0, 2 * 64, 0]), 1);
    assert_eq!(t.query_point([0, 4 * 64, 0]), 0);
    assert_eq!(t.query_point([64, 0, 0]), 2);
    assert_eq!(t.query_point([64, -4 * 64, 0]), 1);
    assert_eq!(t.query_point([64, -5 * 64, 0]), 0);
}

#[test]
fn mountains_have_snow_caps() {
    let mut heights = vec![0i32; 128 * 128];
    heights[(1 + 64) * 128 + (2 + 64)] = 20;
    let t = generate_world_terrain(WorldType::Mountains, &heights, &[], &[]);
    assert_eq!(t.query_point([64, 20 * 64, 128]), 3);
    assert_eq!(t.query_point([64, 18 * 64, 128]), 3);
    assert_eq!(t.query_point([64, 17 * 64, 128]), 1);
    assert_eq!(t.query_point([0, 0, 0]), 2);
    assert_eq!(t.query_point([0, -6 * 64, 0]), 1);
    assert_eq!(t.query_point([0, -7 * 64, 0]), 0);
}

#[test]
fn islands_fill_the_solid_cells() {
    let mut solid = vec![false; 96 * 96 * 32];
    solid[((0 + 48) * 96 + (0 + 48)) * 32 + 5] = true;
    let plan = terrain_edits(WorldType::FloatingIslands, &[], &solid);
    assert_eq!(plan, vec![([0, 5 * 64, 0], 64, 2)]);
    let t = generate_world_terrain(WorldType::FloatingIslands, &[], &solid, &[]);
    assert_eq!(t.query_point([0, 5 * 64, 0]), 2);
    assert_eq!(t.query_point([0, 4 * 64, 0]), 0);
    assert_eq!(t.total_voxels, 1);
}

#[test]
fn edits_go_on_top_of_the_terrain() {
    let edits = [CubeEdit { pos: [0, 0, 0], size: 64, material: 9 }, CubeEdit { pos: [0, 640, 0], size: 1, material: 4 }];
    let t = generate_world_terrain(WorldType::Flat, &[], &[], &edits);
    assert_eq!(t.query_point([0, 0, 0]), 9);
    assert_eq!(t.query_point([0, 640, 0]), 4);
    assert_eq!(t.query_point([1, 640, 0]), 0);
}

#[test]
fn history_actions_replay_and_revert() {
    let mut t = Octree::new();
    t.insert_cube_world([0, 0, 0], 64, 1, true);
    t.recalculate_voxel_count();
    let action = HistoryAction { removed: vec![([0, 0, 0], 64, 1)], added: vec![([0, 0, 0], 64, 7), ([64, 0, 0], 64, 7)] };
    apply_history_action(&mut t, &action, true);
    assert_eq!(t.query_point([0, 0, 0]), 7);
    assert_eq!(t.query_point([64, 0, 0]), 7);
    assert_eq!(t.total_voxels, 2);
    apply_history_action(&mut t, &action, false);
    assert_eq!(t.query_point([0, 0, 0]), 1);
    assert_eq!(t.query_point([64, 0, 0]), 0);
    assert_eq!(t.total_voxels, 1);
}

#[test]
fn strokes_record_only_the_cells_that_change() {
    let mut t = Octree::new();
    t.insert_cube_world([0, 0, 0], 64, 5, true);
    let cells = [[0, 0, 0], [64, 0, 0], [10, 10, 10]];
    let d = voxel_svo::engine::stroke_to_deltas(&t, &cells, 64, 5);
    assert_eq!(d.len(), 1);
    assert_eq!((d[0].pos, d[0].size, d[0].old_material, d[0].new_material), ([64, 0, 0], 64, 0, 5));
    let e = voxel_svo::engine::stroke_to_deltas(&t, &cells, 64, 0);
    assert_eq!(e.len(), 2);
    assert_eq!((e[0].pos, e[0].old_material, e[0].new_material), ([0, 0, 0], 5, 0));
    assert_eq!((e[1].pos, e[1].old_material), ([10, 10, 10], 5));
}

#[test]
fn stroke_cells_are_kept_once_in_order() {
    let cells = [[1, 2, 3], [0, 0, 0], [1, 2, 3], [-5, 0, 0], [0, 0, 0]];
    assert_eq!(voxel_svo::engine::dedup_cells(&cells), vec![[1, 2, 3], [0, 0, 0], [-5, 0, 0]]);
    assert!(voxel_svo::engine::dedup_cells(&[]).is_empty());
}

#[test]
fn lines_are_connected_paths_between_their_ends() {
    let ends = [([0, 0, 0], [7, 3, -2]), ([5, -4, 1], [-6, 2, 9]), ([2, 2, 2], [2, 2, -9]), ([0, 0, 0], [3, 8, 0])];
    for (a, b) in ends {
        let cells = bresenham_3d(a, b);
        let steps = (0..3).map(|k| (a[k] - b[k]).abs()).max().unwrap() as usize;
        assert_eq!(cells.len(), steps + 1);
        assert_eq!(cells[0], a);
        assert_eq!(cells[cells.len() - 1], b);
        for w in cells.windows(2) {
            assert!((0..3).all(|k| (w[0][k] - w[1][k]).abs() <= 1));
        }
    }
}

#[test]
fn far_cells_are_told_apart() {
    let far = 0x10_0000;
    let cells = [[far, 0, 0], [-far, 0, 0], [far, 0, 0], [i32::MAX, i32::MIN, -1], [i32::MAX, i32::MIN, -1]];
    assert_eq!(
        voxel_svo::engine::dedup_cells(&cells),
        vec![[far, 0, 0], [-far, 0, 0], [i32::MAX, i32::MIN, -1]]
    );
}

#[test]
fn lines_far_from_the_origin() {
    let a = [2_000_000_000, -2_000_000_000, 7];
    let b = [2_000_000_003, -2_000_000_001, 7];
    assert_eq!(
        bresenham_3d(a, b),
        vec![a, [2_000_000_001, -2_000_000_000, 7], [2_000_000_002, -2_000_000_001, 7], b]
    );
}

#[test]
fn lines_stay_in_the_box_of_their_ends_and_step_towards_the_far_end() {
    let ends = [([0, 0, 0], [7, 3, -2]), ([5, -4, 1], [-6, 2, 9]), ([2, 2, 2], [2, 2, -9]), ([0, 0, 0], [3, 8, 0])];
    for (a, b) in ends {
        let cells = bresenham_3d(a, b);
        for c in &cells {
            assert!((0..3).all(|k| a[k].min(b[k]) <= c[k] && c[k] <= a[k].max(b[k])));
        }
        for w in cells.windows(2) {
            assert!((0..3).all(|k| w[1][k] == w[0][k] || w[1][k] - w[0][k] == (b[k] - a[k]).signum()));
        }
    }
}

#[test]
fn flat_world_with_one_cell_dug_out() {
    let t = generate_world_terrain(WorldType::Flat, &[], &[], &[CubeEdit { pos: [0, 0, 0], size: 64, material: 0 }]);
    assert_eq!(t.query_point([32, 32, 32]), 0);
    assert_eq!(t.query_point([96, 32, 32]), 2);
    assert_eq!(t.query_point([32, -32, 32]), 1);
    assert_eq!(t.query_point([32, -160, 32]), 0);
    assert_eq!(t.query_point([64 * 64 + 32, 32, 32]), 0);
    assert_eq!(t.query_point([-63 * 64 - 32, 32, -63 * 64 - 32]), 2);
    assert_eq!(t.total_voxels, 20479);
}

#[test]
fn later_edits_win_in_a_generated_world() {
    let edits = [CubeEdit { pos: [0, 0, 0], size: 128, material: 3 }, CubeEdit { pos: [0, 0, 0], size: 64, material: 4 }];
    let t = generate_world_terrain(WorldType::Empty, &[], &[], &edits);
    assert_eq!(t.query_point([32, 32, 32]), 4);
    assert_eq!(t.query_point([96, 96, 96]), 3);
    assert_eq!(t.query_point([160, 32, 32]), 0);
    assert_eq!(t.total_voxels, 8);
}

#[test]
fn generating_twice_gives_the_same_tree() {
    let edits = [CubeEdit { pos: [64, 0, 0], size: 64, material: 9 }];
    let a = generate_world_terrain(WorldType::Flat, &[], &[], &edits);
    let b = generate_world_terrain(WorldType::Flat, &[], &[], &edits);
    let key = |t: &Octree| t.nodes.iter().map(|n| (n.child_mask, n.child_pointer, n.material_id)).collect::<Vec<_>>();
    assert_eq!(key(&a), key(&b));
    assert_eq!((a.world_min, a.world_size, a.total_voxels), (b.world_min, b.world_size, b.total_voxels));
    assert_eq!(a.total_voxels, a.count_occupied_voxels(0));
}

#[test]
fn deltas_forth_and_back_restore_the_world() {
    let mut t = generate_world_terrain(WorldType::Flat, &[], &[], &[]);
    let before: Vec<u16> = (-3..3).map(|i| t.query_point([i * 64, 0, 0])).collect();
    let ds = vec![delta([0, 0, 0], 64, 2, 7), delta([64, 0, 0], 64, 2, 0), delta([0, -64, 0], 64, 1, 5)];
    apply_deltas(&mut t, &ds, true);
    assert_eq!(t.query_point([0, 0, 0]), 7);
    assert_eq!(t.query_point([64, 0, 0]), 0);
    assert_eq!(t.query_point([0, -64, 0]), 5);
    apply_deltas(&mut t, &ds, false);
    let after: Vec<u16> = (-3..3).map(|i| t.query_point([i * 64, 0, 0])).collect();
    assert_eq!(before, after);
    assert_eq!(t.query_point([0, -64, 0]), 1);
    assert_eq!(t.total_voxels, t.count_occupied_voxels(0));
}

#[test]
fn undo_then_redo_restores_the_world() {
    let mut t = generate_world_terrain(WorldType::Empty, &[], &[], &[]);
    let action = HistoryAction { removed: vec![([0, 0, 0], 64, 0)], added: vec![([0, 0, 0], 64, 6), ([64, 0, 0], 64, 6)] };
    apply_history_action(&mut t, &action, true);
    let done: Vec<u16> = (0..3).map(|i| t.query_point([i * 64, 0, 0])).collect();
    apply_history_action(&mut t, &action, false);
    assert_eq!(t.query_point([0, 0, 0]), 0);
    assert_eq!(t.query_point([64, 0, 0]), 0);
    apply_history_action(&mut t, &action, true);
    let redone: Vec<u16> = (0..3).map(|i| t.query_point([i * 64, 0, 0])).collect();
    assert_eq!(done, redone);
    assert_eq!(done, vec![6, 6, 0]);
}

#[test]
fn deltas_of_mixed_sizes_forth_and_back_restore_the_world() {
    let mut t = generate_world_terrain(WorldType::Flat, &[], &[], &[]);
    let probe = |t: &Octree| -> Vec<u16> {
        let mut v = Vec::new();
        for x in (-256..256).step_by(32) {
            for y in [-96, -32, 32] {
                v.push(t.query_point([x, y, 0]));
            }
        }
        v
    };
    let before = probe(&t);
    let ds = vec![delta([0, 0, 0], 64, 2, 7), delta([128, -128, 0], 128, 1, 0), delta([-64, -64, 0], 32, 1, 3)];
    apply_deltas(&mut t, &ds, true);
    assert_eq!(t.query_point([0, 0, 0]), 7);
    assert_eq!(t.query_point([200, -100, 10]), 0);
    assert_eq!(t.query_point([-40, -40, 10]), 3);
    apply_deltas(&mut t, &ds, false);
    assert_eq!(before, probe(&t));
}
