use rs3cache_extractor::neighbor_policy::{MovementPolicy, Offset};

#[test]
fn neighbor_offsets_no_diagonals() {
    let p = MovementPolicy { allow_diagonals: false, allow_corner_cut: false, unit_radius_tiles: 1 };
    let offs = p.neighbor_offsets();
    assert_eq!(offs.len(), 4);
    assert!(offs.contains(&Offset(1, 0)));
    assert!(offs.contains(&Offset(-1, 0)));
    assert!(offs.contains(&Offset(0, 1)));
    assert!(offs.contains(&Offset(0, -1)));
}

#[test]
fn neighbor_offsets_with_diagonals() {
    let p = MovementPolicy { allow_diagonals: true, allow_corner_cut: false, unit_radius_tiles: 1 };
    let offs = p.neighbor_offsets();
    assert_eq!(offs.len(), 8);
    assert!(offs.contains(&Offset(1, 1)));
    assert!(offs.contains(&Offset(-1, -1)));
}

#[test]
fn default_policy_is_diagonal_without_corner_cut() {
    let p = MovementPolicy::default();
    assert!(p.allow_diagonals);
    assert!(!p.allow_corner_cut);
    assert_eq!(p.unit_radius_tiles, 1);
}
