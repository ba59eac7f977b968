use spatial::quad::Entity;
use spatial::Geometry;

#[test]
fn object_validate() {
    let _ = Entity::new(1, (0, 0), Geometry::point(0, 0));
}

#[test]
fn types_validate() {
    let _ = Geometry::point(0, 0);
}
