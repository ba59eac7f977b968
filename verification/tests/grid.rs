use std::collections::HashMap;

use spatial::hashgrid::{GridBoundary, GridEntity, HashGrid, Query, QueryType};

#[test]
fn grid_2d_3d_initialization() {
    let bounds_3d = GridBoundary::new((0, 0, 0), (1000, 1000, 1000));

    let hashgrid_3d = HashGrid::<u32>::new([100, 100], 2, &bounds_3d, true);

    // asserting the initialized grid parameters
    assert_eq!(hashgrid_3d.cell_size_x(), 10);
    assert_eq!(hashgrid_3d.cell_size_y(), 10);
    assert_eq!(hashgrid_3d.floor_size(), 500);

    // asserting the initialized grid boundary parameters
    assert_eq!(hashgrid_3d.bounds().boundary_max(), (500, 500, 500));
    assert_eq!(hashgrid_3d.bounds().boundary_min(), (-500, -500, -500));

    let bounds_2d = GridBoundary::new((0, 0, 0), (1000, 1000, 0));

    let hashgrid_2d = HashGrid::<u32>::new([100, 100], 0, &bounds_2d, true);

    // asserting the initialized grid parameters
    assert_eq!(hashgrid_2d.cell_size_x(), 10);
    assert_eq!(hashgrid_2d.cell_size_y(), 10);
    assert_eq!(hashgrid_2d.floor_size(), 1);
    assert_eq!(hashgrid_2d.floors(), 1);

    // asserting the initialized grid boundary parameters
    assert_eq!(hashgrid_2d.bounds().boundary_max(), (500, 500, 0));
    assert_eq!(hashgrid_2d.bounds().boundary_min(), (-500, -500, 0));
}

#[test]
fn data_insertion_2d() {
    let bounds_2d = GridBoundary::new((0, 0, 0), (1000, 1000, 0));

    let mut hashgrid_2d = HashGrid::<u32>::new([2, 2], 0, &bounds_2d, false);

    let player1 = GridEntity::new(0_u32, (400, 400, 0));
    let player2 = GridEntity::new(1_u32, (-400, 400, 0));
    let player3 = GridEntity::new(2_u32, (-400, -400, 0));
    let player4 = GridEntity::new(3_u32, (400, -400, 0));

    hashgrid_2d.insert(player1);
    hashgrid_2d.insert(player2);
    hashgrid_2d.insert(player3);
    hashgrid_2d.insert(player4);

    let query = Query::from((-490, 490, 0), QueryType::<u32>::Single, 0);

    let res = hashgrid_2d.query(query);
    let cell_cords = hashgrid_2d.get_cell_coordinates(-490, 490, 0);

    println!("cell cords: {} {}", cell_cords.0, cell_cords.1);
    assert_eq!(res.data().len(), 1);
    assert_eq!(res.data()[0], player2);

    let query = Query::from((490, -490, 0), QueryType::<u32>::Single, 0);

    let res = hashgrid_2d.query(query);
    assert_eq!(res.data().len(), 1);
    assert_eq!(res.data()[0], player4);

    // an entity outside a non-wrapping grid is dropped, not filed
    hashgrid_2d.insert(GridEntity::new(9_u32, (2000, 0, 0)));
    let res = hashgrid_2d.query(Query::from((490, 490, 0), QueryType::<u32>::Single, 0));
    assert_eq!(res.data().len(), 1);
    assert_eq!(res.data()[0].id, 0);
}

#[test]
fn pairing_function_is_injective() {
    let bounds = GridBoundary::new((0, 0, 0), (1000, 1000, 0));
    let grid = HashGrid::<u32>::new([100, 100], 0, &bounds, false);

    // exact pairing values: ((k1 + k2) * (k1 + k2 + 1)) / 2 + k2
    assert_eq!(grid.key(0, 0).key(), 0);
    assert_eq!(grid.key(1, 0).key(), 1);
    assert_eq!(grid.key(0, 1).key(), 2);
    assert_eq!(grid.key(2, 1).key(), 7);
    assert_eq!(grid.key(1, 2).key(), 8);

    let mut seen: HashMap<u64, (u32, u32)> = HashMap::new();
    for a in 0..=80_u32 {
        for b in 0..=80_u32 {
            let key = grid.key(a, b).key();
            if let Some(prev) = seen.insert(key, (a, b)) {
                panic!("cell hash collision: {:?} and {:?}", prev, (a, b));
            }
        }
    }
}

#[test]
fn boundary_positions_land_in_one_cell() {
    let bounds = GridBoundary::new((0, 0, 0), (1000, 1000, 0));
    let grid = HashGrid::<u32>::new([2, 2], 0, &bounds, false);

    // cells are lower-edge inclusive: the origin sits on the shared edge
    // and lands deterministically in the upper cell of each axis
    assert_eq!(grid.get_cell_coordinates(0, 0, 0), (1, 1, 0));
    assert_eq!(grid.get_cell_coordinates(-1, 0, 0), (0, 1, 0));
    assert_eq!(grid.get_cell_coordinates(0, -1, 0), (1, 0, 0));
    assert_eq!(grid.get_cell_coordinates(-500, -500, 0), (0, 0, 0));
}

#[test]
fn wrapping_clamps_to_the_nearest_cell() {
    let bounds = GridBoundary::new((0, 0, 0), (1000, 1000, 0));
    let mut grid = HashGrid::<u32>::new([2, 2], 0, &bounds, true);

    // far outside on both axes: clamped onto the corner of the boundary
    grid.insert(GridEntity::new(5_u32, (4000, -4000, 0)));
    let res = grid.query(Query::from((500, -500, 0), QueryType::<u32>::Single, 0));
    assert_eq!(res.data().len(), 1);
    assert_eq!(res.data()[0].id, 5);
}

#[test]
fn neighbourhood_queries_scan_around_the_cell() {
    let bounds = GridBoundary::new((0, 0, 0), (1000, 1000, 0));
    let mut grid = HashGrid::<u32>::new([10, 10], 0, &bounds, false);

    let near = GridEntity::new(1_u32, (-450, -450, 0));
    let far = GridEntity::new(2_u32, (450, 450, 0));
    grid.update(&[near, far]);

    // radius 0 still scans at least one cell in each direction
    let res = grid.query(Query::from((-400, -400, 0), QueryType::<u32>::Neighbour(0), 0));
    assert_eq!(res.data().len(), 1);
    assert_eq!(res.data()[0].id, 1);

    // a full-width radius reaches everything
    let res = grid.query(Query::from((0, 0, 0), QueryType::<u32>::Neighbour(1000), 0));
    assert_eq!(res.data().len(), 2);

    // searching scans the neighborhood for one identifier
    let res = grid.query(Query::from((400, 400, 0), QueryType::<u32>::Search(2), 0));
    assert_eq!(res.data().len(), 1);
    assert_eq!(res.data()[0], far);

    let res = grid.query(Query::from((400, 400, 0), QueryType::<u32>::Search(1), 0));
    assert_eq!(res.data().len(), 0);
}
