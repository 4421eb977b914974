use simplan::noise::{corner_hashes, gradient, lattice_cell, lattice_hash, Axis, Gradient, PERM};

fn hash_by_table(x: usize, y: usize, z: usize) -> u8 {
    let p = |i: usize| PERM[i % 256] as usize;
    p(p(p(x) + y) + z) as u8
}

#[test]
fn permutation_table_is_a_permutation() {
    let mut seen = [false; 256];
    for v in PERM.iter() {
        assert!(!seen[*v as usize]);
        seen[*v as usize] = true;
    }
    assert_eq!(PERM[0], 151);
    assert_eq!(PERM[255], 180);
}

#[test]
fn lattice_hash_matches_table_lookups() {
    for &(x, y, z) in &[(0, 0, 0), (1, 2, 3), (255, 255, 255), (17, 200, 99), (128, 0, 255)] {
        assert_eq!(lattice_hash(x, y, z), hash_by_table(x, y, z));
    }
    assert_eq!(lattice_hash(0, 0, 0), PERM[(PERM[PERM[0] as usize] as usize) % 256]);
}

#[test]
fn corner_hashes_wrap_at_255() {
    let h = corner_hashes(255, 10, 255);
    assert_eq!(h[0], lattice_hash(255, 10, 255));
    assert_eq!(h[1], lattice_hash(255, 11, 255));
    assert_eq!(h[2], lattice_hash(255, 10, 0));
    assert_eq!(h[3], lattice_hash(255, 11, 0));
    assert_eq!(h[4], lattice_hash(0, 10, 255));
    assert_eq!(h[5], lattice_hash(0, 11, 255));
    assert_eq!(h[6], lattice_hash(0, 10, 0));
    assert_eq!(h[7], lattice_hash(0, 11, 0));
}

#[test]
fn gradient_table() {
    let g = |first, first_negated, second, second_negated| Gradient {
        first,
        first_negated,
        second,
        second_negated,
    };
    assert_eq!(gradient(0), g(Axis::X, false, Axis::Y, false));
    assert_eq!(gradient(3), g(Axis::X, true, Axis::Y, true));
    assert_eq!(gradient(6), g(Axis::X, false, Axis::Z, true));
    assert_eq!(gradient(9), g(Axis::Y, true, Axis::Z, false));
    assert_eq!(gradient(12), g(Axis::Y, false, Axis::X, false));
    assert_eq!(gradient(13), g(Axis::Y, true, Axis::Z, false));
    assert_eq!(gradient(14), g(Axis::Y, false, Axis::X, true));
    assert_eq!(gradient(15), g(Axis::Y, true, Axis::Z, true));
    // Only the low four bits count.
    assert_eq!(gradient(0x35), gradient(5));
    assert_eq!(gradient(0xFF), gradient(15));
}

#[test]
fn lattice_cell_wraps_negative_coordinates() {
    assert_eq!(lattice_cell(0), 0);
    assert_eq!(lattice_cell(255), 255);
    assert_eq!(lattice_cell(256), 0);
    assert_eq!(lattice_cell(-1), 255);
    assert_eq!(lattice_cell(-256), 0);
    assert_eq!(lattice_cell(-257), 255);
    assert_eq!(lattice_cell(i32::MIN), 0);
}
