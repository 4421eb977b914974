use simplan::mesh::{fan_triangle_indices, grid_triangle_indices, tile_quad_indices};

#[test]
fn single_quad_grid() {
    assert_eq!(grid_triangle_indices(1, 1), vec![0, 1, 2, 1, 3, 2]);
}

#[test]
fn two_by_two_grid() {
    let idx = grid_triangle_indices(2, 2);
    assert_eq!(idx.len(), 24);
    assert_eq!(&idx[0..6], &[0, 1, 3, 1, 4, 3]);
    assert_eq!(&idx[6..12], &[1, 2, 4, 2, 5, 4]);
    assert_eq!(&idx[18..24], &[4, 5, 7, 5, 8, 7]);
}

#[test]
fn sky_dome_grid_size() {
    let idx = grid_triangle_indices(48, 96);
    assert_eq!(idx.len(), 48 * 96 * 6);
    assert_eq!(*idx.iter().max().unwrap(), 49 * 97 - 1);
}

#[test]
fn empty_grid() {
    assert!(grid_triangle_indices(0, 5).is_empty());
    assert!(grid_triangle_indices(5, 0).is_empty());
}

#[test]
fn fan_closes_the_rim() {
    assert_eq!(fan_triangle_indices(3), vec![0, 1, 2, 0, 2, 3, 0, 3, 1]);
    let idx = fan_triangle_indices(64);
    assert_eq!(idx.len(), 192);
    assert_eq!(&idx[189..192], &[0, 64, 1]);
    assert!(fan_triangle_indices(0).is_empty());
}

#[test]
fn tile_quad() {
    assert_eq!(tile_quad_indices(), vec![0, 2, 1, 1, 2, 3]);
}
