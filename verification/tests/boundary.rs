use spatial::hashgrid::GridBoundary;

#[test]
fn point_boundary_validation() {
    let boundary = GridBoundary::new((0, 0, 0), (100, 100, 100));

    assert_eq!(boundary.boundary_max(), (50, 50, 50));
    assert_eq!(boundary.boundary_min(), (-50, -50, -50));

    assert!(!boundary.is_inside((55, 55, 55)));
    assert!(!boundary.is_inside((-55, -55, -55)));
    assert!(boundary.is_inside((50, 50, 50)));
    assert!(boundary.is_inside((-50, -50, -50)));
}
