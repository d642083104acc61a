use voxel_svo::types::{
    estimate_fits, estimate_voxels, morton_encode_coords, morton_part_1by2, ActiveMenu, GizmoTransformMode,
    HistoryAction, HistoryManager, PlayMode, ToolType, TransformAxis, WorldType,
};

#[test]
fn tool_labels() {
    assert_eq!(ToolType::Pencil.name(), "PENCIL [V]");
    assert_eq!(ToolType::Line.name(), "LINE/PIPE [L]");
    assert_eq!(ToolType::Select.name(), "SELECT [S]");
    assert_eq!(ToolType::Bucket.short_name(), "BCK");
    assert_eq!(ToolType::Disc.short_name(), "DSC");
}

#[test]
fn every_tool_tag_has_three_letters() {
    let tools = [
        ToolType::Pencil, ToolType::Sphere, ToolType::Cylinder, ToolType::Disc, ToolType::Box, ToolType::Line,
        ToolType::Paint, ToolType::Replace, ToolType::Cone, ToolType::Pyramid, ToolType::Torus, ToolType::Bucket,
        ToolType::Select,
    ];
    for t in tools {
        assert_eq!(t.short_name().len(), 3);
        assert!(t.name().len() > 3);
    }
}

#[test]
fn gizmo_modes_cycle_in_four_steps() {
    let m = GizmoTransformMode::All;
    assert_eq!(m.next(), GizmoTransformMode::Move);
    assert_eq!(m.next().next(), GizmoTransformMode::Rotate);
    assert_eq!(m.next().next().next(), GizmoTransformMode::Scale);
    assert_eq!(m.next().next().next().next(), GizmoTransformMode::All);
    assert_eq!(GizmoTransformMode::All.label(), "ALL (TRANSFORM)");
    assert_eq!(GizmoTransformMode::Scale.label(), "SCALE");
}

#[test]
fn world_types_cycle_in_five_steps() {
    let w = WorldType::Empty;
    assert_eq!(w.next(), WorldType::Flat);
    assert_eq!(w.next().next().next().next(), WorldType::FloatingIslands);
    assert_eq!(w.next().next().next().next().next(), WorldType::Empty);
    assert_eq!(WorldType::Empty.name(), "EMPTY CANVAS");
    assert_eq!(WorldType::FloatingIslands.name(), "ISLANDS");
    assert_eq!(WorldType::Mountains.name(), "MOUNTAINS");
}

#[test]
fn plain_enums_compare() {
    assert_eq!(ActiveMenu::NoMenu, ActiveMenu::NoMenu);
    assert_ne!(ActiveMenu::Edit, ActiveMenu::Pause);
    assert_ne!(PlayMode::Flying, PlayMode::Real);
    assert_ne!(TransformAxis::X, TransformAxis::Z);
}

#[test]
fn morton_axis_spreads_bits() {
    assert_eq!(morton_part_1by2(0), 0);
    assert_eq!(morton_part_1by2(1), 1);
    assert_eq!(morton_part_1by2(2), 8);
    assert_eq!(morton_part_1by2(3), 9);
    assert_eq!(morton_part_1by2(0x1f_ffff), 0x1249_2492_4924_9249);
    assert_eq!(morton_part_1by2(0x20_0000), 0);
    assert_eq!(morton_part_1by2(0xffff_ffff), 0x1249_2492_4924_9249);
}

#[test]
fn morton_codes_interleave_axes() {
    assert_eq!(morton_encode_coords(0, 0, 0), 0x7000_0000_0000_0000);
    assert_eq!(morton_encode_coords(-0x10_0000, -0x10_0000, -0x10_0000), 0);
    assert_eq!(morton_encode_coords(-0x10_0000, -0x10_0000, -0x0f_ffff), 1);
    assert_eq!(morton_encode_coords(-0x10_0000, -0x0f_ffff, -0x10_0000), 2);
    assert_eq!(morton_encode_coords(-0x0f_ffff, -0x10_0000, -0x10_0000), 4);
    assert_eq!(morton_encode_coords(-5_000_000, -0x10_0000, -0x10_0000), 0);
    assert_ne!(morton_encode_coords(1, 2, 3), morton_encode_coords(3, 2, 1));
}

#[test]
fn import_estimates() {
    assert_eq!(estimate_voxels(0), 0);
    assert_eq!(estimate_voxels(10), 1050);
    assert_eq!(estimate_voxels(1000), 60_000_000);
    assert_eq!(estimate_voxels(2000), 100_000_000);
    assert!(estimate_fits(96, 30_000_000));
    assert!(!estimate_fits(1000, 30_000_000));
    assert!(estimate_fits(1000, 60_000_000));
}

fn action(n: i64) -> HistoryAction {
    HistoryAction { removed: vec![], added: vec![([n, 0, 0], 64, 1)] }
}

#[test]
fn history_keeps_the_latest_actions() {
    let mut h = HistoryManager::new(2);
    assert!(h.undo_stack.is_empty() && h.redo_stack.is_empty());
    h.record(action(1));
    h.record(action(2));
    h.record(action(3));
    assert_eq!(h.undo_stack.len(), 2);
    assert_eq!(h.undo_stack[0].added[0].0[0], 2);
    assert_eq!(h.undo_stack[1].added[0].0[0], 3);
}

#[test]
fn history_ignores_empty_actions() {
    let mut h = HistoryManager::new(4);
    h.record(HistoryAction { removed: vec![], added: vec![] });
    assert!(h.undo_stack.is_empty());
}

#[test]
fn undo_and_redo_move_actions_between_stacks() {
    let mut h = HistoryManager::new(4);
    assert!(!h.undo());
    assert!(!h.redo());
    h.record(action(1));
    h.record(action(2));
    assert!(h.undo());
    assert_eq!(h.undo_stack.len(), 1);
    assert_eq!(h.redo_stack.len(), 1);
    assert_eq!(h.redo_stack[0].added[0].0[0], 2);
    assert!(h.redo());
    assert_eq!(h.undo_stack.len(), 2);
    assert!(h.redo_stack.is_empty());
    assert!(h.undo());
    h.record(action(5));
    assert!(h.redo_stack.is_empty());
    assert_eq!(h.undo_stack.len(), 2);
}

#[test]
fn history_of_zero_still_keeps_the_latest() {
    let mut h = HistoryManager::new(0);
    h.record(action(1));
    h.record(action(2));
    assert_eq!(h.undo_stack.len(), 1);
    assert_eq!(h.undo_stack[0].added[0].0[0], 2);
}

#[test]
fn redo_after_undo_restores_both_stacks() {
    let mut h = HistoryManager::new(8);
    h.record(action(1));
    h.record(action(2));
    assert!(h.undo());
    assert!(h.undo());
    assert!(h.redo());
    let (u, r) = (h.undo_stack.len(), h.redo_stack.len());
    assert!(h.undo());
    assert!(h.redo());
    assert_eq!((h.undo_stack.len(), h.redo_stack.len()), (u, r));
    assert_eq!(h.undo_stack[0].added[0].0[0], 1);
    assert_eq!(h.redo_stack[0].added[0].0[0], 2);
}

#[test]
fn morton_codes_grow_along_each_axis() {
    for a in -5..5 {
        for b in a..5 {
            assert!(morton_encode_coords(a, 3, -2) <= morton_encode_coords(b, 3, -2));
            assert!(morton_encode_coords(3, a, -2) <= morton_encode_coords(3, b, -2));
            assert!(morton_encode_coords(3, -2, a) <= morton_encode_coords(3, -2, b));
        }
    }
}
