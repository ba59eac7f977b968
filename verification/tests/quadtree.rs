// This scenario lives on a half-unit lattice: every coordinate is doubled
// onto the integer grid, which preserves the tree's behavior.
use spatial::quad::{Entity, QuadTree};
use spatial::{Geometry, SpatialError};

#[test]
fn quadtree_smoke() -> Result<(), SpatialError> {
    let mut quadtree = QuadTree::new((0, 0), (20, 20), 1)?;

    assert!(quadtree.levels() == 1);

    let player_1 = Entity::new(1, (15, 15), Geometry::rect((15, 15), (6, 6)));

    assert!(quadtree.insert(player_1)?);

    assert!(quadtree.levels() == 1);

    let player_2 = Entity::new(2, (3, 3), Geometry::rect((3, 3), (2, 2)));

    assert!(quadtree.insert(player_2)?);

    assert!(quadtree.levels() == 2);

    let query_result =
        quadtree.query_and_filter(Geometry::point(3, 3), |_, player: &Entity| player.id() == 1);

    assert!(query_result.is_empty());

    let mut query_result =
        quadtree.query_and_filter(Geometry::point(3, 3), |_, player: &Entity| player.id() == 2);

    assert!(!query_result.is_empty());

    let mut collected = vec![];
    while let Some(e) = query_result.next() {
        collected.push(e);
    }
    println!("{:?}", collected);

    println!("Player 1 path in tree {:?}", quadtree.entity_path_in_tree(1));
    println!("Player 2 path in tree {:?}", quadtree.entity_path_in_tree(2));

    Ok(())
}

#[test]
fn construction_errors() {
    assert!(matches!(
        QuadTree::new((0, 0), (10, 10), 0),
        Err(SpatialError::InvalidCapacity)
    ));
    assert!(matches!(
        QuadTree::new((10, 0), (10, 10), 1),
        Err(SpatialError::InvalidBounds)
    ));
    assert!(matches!(
        QuadTree::new((0, 10), (10, 10), 1),
        Err(SpatialError::InvalidBounds)
    ));

    let mut tree = QuadTree::new((0, 0), (10, 10), 1).unwrap();
    let outside = Entity::new(7, (50, 50), Geometry::rect((50, 50), (2, 2)));
    assert!(matches!(tree.insert(outside), Err(SpatialError::OutOfBounds)));
}

#[test]
fn insert_then_clear_returns_every_entity() {
    let mut quadtree = QuadTree::new((0, 0), (100, 100), 2).unwrap();
    let count: u64 = 24;
    for i in 0..count {
        let x = (2 + 4 * (i % 12)) as i32;
        let y = (2 + 8 * (i / 12)) as i32;
        let entity = Entity::new(100 + i, (x, y), Geometry::rect((x, y), (2, 2)));
        assert!(quadtree.insert(entity).unwrap());
    }
    assert!(quadtree.levels() >= 2);

    let drained = quadtree.clear();
    assert_eq!(drained.len(), count as usize);
    let mut ids: Vec<u64> = drained.iter().map(|e| e.id).collect();
    ids.sort();
    let expected: Vec<u64> = (100..100 + count).collect();
    assert_eq!(ids, expected);

    assert!(quadtree.levels() == 1);
    assert!(quadtree.clear().is_empty());
}

#[test]
fn straddling_entity_stays_retrievable() {
    let mut quadtree = QuadTree::new((0, 0), (16, 16), 1).unwrap();

    // an entity crossing the center straddles all four quadrants and must
    // be retained at the root however often the tree splits around it
    let straddler = Entity::new(1, (8, 8), Geometry::rect((8, 8), (4, 4)));
    assert!(quadtree.insert(straddler).unwrap());
    for i in 0..6u64 {
        let x = 1 + (i as i32);
        let corner = Entity::new(10 + i, (x, 1), Geometry::rect((x, 1), (0, 0)));
        assert!(quadtree.insert(corner).unwrap());
    }
    assert!(quadtree.levels() >= 2);

    let mut hits = quadtree.query(Geometry::rect((8, 8), (2, 2)));
    let mut found = false;
    while let Some(e) = hits.next() {
        if e.id == 1 {
            found = true;
        }
    }
    assert!(found);

    // a point query inside the straddler finds it too
    assert!(!quadtree
        .query_and_filter(Geometry::point(8, 8), |_, e: &Entity| e.id() == 1)
        .is_empty());
}

#[test]
fn node_walks_report_the_tree() {
    let mut quadtree = QuadTree::new((0, 0), (8, 8), 1).unwrap();
    assert!(quadtree
        .insert(Entity::new(1, (1, 1), Geometry::rect((1, 1), (1, 1))))
        .unwrap());
    assert!(quadtree
        .insert(Entity::new(2, (7, 7), Geometry::rect((7, 7), (1, 1))))
        .unwrap());

    let levels = quadtree.iterate_levels();
    assert_eq!(levels.len(), quadtree.levels());
    let total: usize = levels.iter().map(|l| l.len()).sum();
    assert_eq!(total, 2);

    let nodes = quadtree.iterate_nodes();
    assert!(nodes.len() >= 5);
    assert_eq!(nodes[0].node_level(), 0);
    let reported: usize = nodes.iter().map(|n| n.entities().len()).sum();
    assert_eq!(reported, 2);
}

#[test]
fn recorded_paths_descend_from_the_root() {
    let mut quadtree = QuadTree::new((0, 0), (16, 16), 1).unwrap();
    assert!(quadtree
        .insert(Entity::new(1, (13, 13), Geometry::rect((13, 13), (2, 2))))
        .unwrap());
    assert!(quadtree
        .insert(Entity::new(2, (3, 3), Geometry::rect((3, 3), (2, 2))))
        .unwrap());

    // both paths start with the implicit root index 0; the second symbol is
    // the quadrant each entity was pushed into when the root split
    let path_1 = quadtree.entity_path_in_tree(1).unwrap();
    let path_2 = quadtree.entity_path_in_tree(2).unwrap();
    assert_eq!(path_1, vec![0, 0]);
    assert_eq!(path_2, vec![0, 3]);
    assert!(quadtree.entity_path_in_tree(9).is_none());
}
