use voxel_svo::types::morton_encode_coords;
use voxel_svo::ui::get_glyph_5x7;
use voxel_svo::voxelize::{assign_materials, finish_voxels, merge_samples, pack_coords, unpack_coords};

#[test]
fn packing_the_origin() {
    assert_eq!(pack_coords(0, 0, 0), (1u64 << 62) | (1u64 << 41) | (1u64 << 20));
    assert_eq!(unpack_coords(pack_coords(0, 0, 0)), (0, 0, 0));
}

#[test]
fn packing_round_trips() {
    for &(x, y, z) in &[(1, -2, 3), (-0x10_0000, 0x0f_ffff, 0), (123_456, -654_321, 7)] {
        assert_eq!(unpack_coords(pack_coords(x, y, z)), (x, y, z));
    }
    let k = 0x1234_5678_9abc_def0u64 & 0x7fff_ffff_ffff_ffff;
    let (x, y, z) = unpack_coords(k);
    assert_eq!(pack_coords(x, y, z), k);
}

#[test]
fn packing_wraps_far_coordinates() {
    assert_eq!(pack_coords(0x10_0000, 0, 0), pack_coords(-0x10_0000, 0, 0));
}

#[test]
fn merging_keeps_one_sample_per_cell() {
    let mut s = vec![(5u64, 1u32), (3, 2), (5, 7), (1, 0)];
    merge_samples(&mut s);
    assert_eq!(s.len(), 3);
    assert_eq!(s[0], (1, 0));
    assert_eq!(s[1], (3, 2));
    assert_eq!(s[2].0, 5);
    assert!(s[2].1 == 1 || s[2].1 == 7);
    let mut e: Vec<(u64, u32)> = vec![];
    merge_samples(&mut e);
    assert!(e.is_empty());
}

#[test]
fn materials_grow_the_palette_until_full() {
    let mut palette = vec![10u32, 20];
    let ids = assign_materials(&mut palette, 3, &vec![20, 30, 40, 10, 30]);
    assert_eq!(ids, vec![2, 3, 1, 1, 3]);
    assert_eq!(palette, vec![10, 20, 30]);
}

#[test]
fn repeated_palette_colours_take_the_last_slot() {
    let mut palette = vec![7u32, 7];
    let ids = assign_materials(&mut palette, 8, &vec![7]);
    assert_eq!(ids, vec![2]);
    assert_eq!(palette, vec![7, 7]);
}

#[test]
fn too_many_voxels_are_refused() {
    let v = vec![(0, 0, 0, 1u16), (1, 0, 0, 1)];
    assert_eq!(finish_voxels(v, 1), Err(2));
}

#[test]
fn voxels_come_out_in_morton_order() {
    let v = vec![(1, 1, 1, 3u16), (0, 0, 0, 1), (1, 0, 0, 2), (0, 1, 0, 4)];
    let sorted = finish_voxels(v, 10).unwrap();
    assert_eq!(sorted, vec![(0, 0, 0, 1), (0, 1, 0, 4), (1, 0, 0, 2), (1, 1, 1, 3)]);
    for w in sorted.windows(2) {
        assert!(morton_encode_coords(w[0].0, w[0].1, w[0].2) <= morton_encode_coords(w[1].0, w[1].1, w[1].2));
    }
}

#[test]
fn glyphs_of_the_hud_font() {
    assert_eq!(get_glyph_5x7('A'), [0b01110, 0b10001, 0b10001, 0b11111, 0b10001, 0b10001, 0b10001]);
    assert_eq!(get_glyph_5x7('7'), [0b11111, 0b00001, 0b00010, 0b00100, 0b01000, 0b01000, 0b01000]);
    assert_eq!(get_glyph_5x7('a'), [0; 7]);
    assert_eq!(get_glyph_5x7('#'), [0b01010, 0b01010, 0b11111, 0b01010, 0b11111, 0b01010, 0b01010]);
}

#[test]
fn glyph_rows_fit_five_pixels() {
    for c in (32u8..127).map(|b| b as char) {
        assert!(get_glyph_5x7(c).iter().all(|&row| row < 32));
    }
}
