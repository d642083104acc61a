use voxel_svo::fill::solid_fill;

fn shell(mat: u16, skip: Option<(i32, i32, i32)>) -> Vec<(i32, i32, i32, u16)> {
    let mut v = Vec::new();
    for z in 0..3 {
        for y in 0..3 {
            for x in 0..3 {
                if (x, y, z) == (1, 1, 1) || Some((x, y, z)) == skip {
                    continue;
                }
                v.push((x + 10, y - 4, z, mat));
            }
        }
    }
    v
}

#[test]
fn one_voxel_stays_one_voxel() {
    assert_eq!(solid_fill(&vec![(3, -2, 7, 9)]), vec![(3, -2, 7, 9)]);
}

#[test]
fn closed_shell_is_filled() {
    let out = solid_fill(&shell(5, None));
    assert_eq!(out.len(), 27);
    assert!(out.contains(&(11, -3, 1, 5)));
    assert_eq!(out[0], (10, -4, 0, 5));
    assert_eq!(out[1], (11, -4, 0, 5));
    assert_eq!(out[26], (12, -2, 2, 5));
}

#[test]
fn open_shell_stays_hollow() {
    let out = solid_fill(&shell(5, Some((1, 1, 0))));
    assert_eq!(out.len(), 25);
    assert!(!out.contains(&(11, -3, 1, 5)));
    assert!(!out.contains(&(11, -3, 0, 5)));
}

#[test]
fn voxels_apart_are_not_joined() {
    let out = solid_fill(&vec![(0, 0, 0, 1), (4, 0, 0, 2)]);
    assert_eq!(out, vec![(0, 0, 0, 1), (4, 0, 0, 2)]);
}

#[test]
fn the_last_voxel_of_a_cell_wins() {
    let out = solid_fill(&vec![(0, 0, 0, 1), (0, 0, 0, 2)]);
    assert_eq!(out, vec![(0, 0, 0, 2)]);
}

#[test]
fn output_follows_z_then_y_then_x() {
    let out = solid_fill(&vec![(1, 1, 1, 3), (0, 0, 1, 4), (1, 0, 0, 5)]);
    assert_eq!(out, vec![(1, 0, 0, 5), (0, 0, 1, 4), (1, 1, 1, 3)]);
}

#[test]
fn too_large_a_box_keeps_the_surface() {
    let v = vec![(0, 0, 0, 1), (500, 500, 500, 2), (3, 3, 3, 4)];
    assert_eq!(solid_fill(&v), v);
}
