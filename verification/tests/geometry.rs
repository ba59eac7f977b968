// These exercises live on a half-unit lattice: every coordinate is doubled
// onto the integer grid, which preserves all containment and intersection
// relations.
use spatial::Geometry;

#[test]
fn geometric_types_containment() {
    let point1 = Geometry::point(2, 4);
    let point2 = Geometry::point(-1, 1);

    let circle = Geometry::radius(4, (2, 0));

    assert!(circle.contains(point1));
    assert!(circle.contains(point2));

    let aabb = Geometry::rect((0, 0), (20, 20));

    assert!(aabb.contains(point1));
    assert!(aabb.contains(point2));
    assert!(aabb.contains(circle));

    let circle2 = Geometry::radius(20, (0, 0));

    assert!(circle2.contains(aabb));
    assert!(circle2.contains(point1));
    assert!(circle2.contains(point2));
    assert!(circle2.contains(circle));

    assert!(!circle.contains(aabb));
    assert!(!circle.contains(circle2));

    let aabb_2 = Geometry::rect((0, 0), (40, 40));

    assert!(!aabb.contains(aabb_2));
    assert!(aabb_2.contains(aabb));
}

#[test]
fn geometric_types_intersections() {
    let circle_1 = Geometry::radius(4, (0, 0));
    let circle_2 = Geometry::radius(4, (2, 0));

    assert!(circle_1.intersects(circle_2));
    assert!(circle_2.intersects(circle_1));

    let aabb_1 = Geometry::rect((0, 0), (8, 8));
    let aabb_2 = Geometry::rect((6, 6), (8, 8));

    assert!(aabb_1.intersects(aabb_2));
    assert!(aabb_2.intersects(aabb_1));

    let circle = Geometry::radius(2, (4, 0));
    let aabb = Geometry::rect((0, 0), (4, 4));

    assert!(aabb.intersects(circle));
    assert!(circle.intersects(aabb));
}

#[test]
fn containment_entails_intersection() {
    let outer = Geometry::rect((0, 0), (20, 20));
    let inner_rect = Geometry::rect((2, 2), (4, 4));
    let inner_circle = Geometry::radius(3, (1, 1));
    let big_circle = Geometry::radius(30, (0, 0));

    assert!(outer.contains(inner_rect) && outer.intersects(inner_rect));
    assert!(outer.contains(inner_circle) && outer.intersects(inner_circle));
    assert!(big_circle.contains(outer) && big_circle.intersects(outer));
    assert!(big_circle.contains(inner_circle) && big_circle.intersects(inner_circle));
}

#[test]
fn rect_containment_reflexive_transitive() {
    let a = Geometry::rect_from_min_max((-8, -8), (8, 8));
    let b = Geometry::rect_from_min_max((-4, -4), (6, 6));
    let c = Geometry::rect_from_min_max((0, 0), (5, 5));

    assert!(a.contains(a) && b.contains(b) && c.contains(c));
    assert!(a.contains(b) && b.contains(c) && a.contains(c));
}

#[test]
fn circle_point_squared_distance() {
    let circle = Geometry::radius(5, (0, 0));
    // 3*3 + 4*4 == 5*5: exactly on the rim counts as contained
    assert!(circle.contains(Geometry::point(3, 4)));
    // 3*3 + 5*5 > 5*5: just outside
    assert!(!circle.contains(Geometry::point(3, 5)));

    // two circles touch exactly when the distance equals the radius sum
    let a = Geometry::radius(3, (0, 0));
    let b = Geometry::radius(2, (5, 0));
    assert!(a.intersects(b));
    let c = Geometry::radius(2, (6, 0));
    assert!(!a.intersects(c));
}
