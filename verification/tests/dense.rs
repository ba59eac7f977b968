use spatial::grid::{Grid, IndexMajor};
use spatial::hashgrid::{GridBoundary, GridEntity, HashGrid, Query, QueryType};
use spatial::partition::SpatialInsertion;

#[test]
fn dense_grid_insert_and_contains() {
    let mut grid: Grid<u64> = Grid::new(4, 3);
    assert_eq!(grid.width(), 4);
    assert_eq!(grid.height(), 3);
    assert_eq!(grid.total_cells(), 12);

    assert!(grid.insert(2, 1, 77, IndexMajor::Row));
    assert!(grid.contains(2, 1, IndexMajor::Row));
    assert!(!grid.contains(1, 2, IndexMajor::Row));
    assert!(!grid.insert(4, 0, 5, IndexMajor::Row));
    assert!(!grid.insert(0, 3, 5, IndexMajor::Column));

    assert_eq!(grid.compute_index(2, 1, IndexMajor::Row), 6);
    assert_eq!(grid.compute_index(2, 1, IndexMajor::Column), 7);

    let cell = grid.get(2, 1, IndexMajor::Row).unwrap();
    assert_eq!(cell.as_slice(), &[77]);
    assert!(grid.get(9, 0, IndexMajor::Row).is_none());

    let cell = grid.get_mut(2, 1, IndexMajor::Row).unwrap();
    cell.push(88);
    assert_eq!(grid.get(2, 1, IndexMajor::Row).unwrap().as_slice(), &[77, 88]);
}

#[test]
fn range_walks_collect_the_rectangle() {
    let mut grid: Grid<u64> = Grid::new(3, 3);
    assert!(grid.insert(0, 0, 1, IndexMajor::Row));
    assert!(grid.insert(1, 0, 2, IndexMajor::Row));
    assert!(grid.insert(1, 1, 3, IndexMajor::Row));
    assert!(grid.insert(2, 2, 4, IndexMajor::Row));

    let mut cells = grid.get_by_range(0, 1, 0, 1, IndexMajor::Row);
    assert!(!cells.is_empty());
    let mut collected: Vec<u64> = vec![];
    while let Some(cell) = cells.next() {
        collected.extend_from_slice(cell.as_slice());
    }
    collected.sort();
    assert_eq!(collected, vec![1, 2, 3]);
}

#[test]
fn bulk_insertion_counts_stored_entities() {
    let bounds = GridBoundary::new((0, 0, 0), (100, 100, 0));
    let mut grid = HashGrid::<u32>::new([4, 4], 0, &bounds, false);

    let objects = vec![
        GridEntity::new(1_u32, (10, 10, 0)),
        GridEntity::new(2_u32, (999, 0, 0)),
        GridEntity::new(3_u32, (-10, -10, 0)),
    ];
    let stored = grid.insert_many(objects);
    assert_eq!(stored, 2);

    let res = grid.query(Query::from((10, 10, 0), QueryType::<u32>::Single, 0));
    assert_eq!(res.data().len(), 1);
}
