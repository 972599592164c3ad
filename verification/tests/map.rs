use std::fmt::Debug;
use std::marker::PhantomData;
use std::ops::Add;

use grid_forge::dimension::Dimensionality;
use grid_forge::map::{GridMap, GridMap2D, GridMap3D};
use grid_forge::position::GridPosition;
use grid_forge::size::GridSize;
use grid_forge::three_d::{Direction3D, GridPosition3D, GridSize3D, ThreeDim};
use grid_forge::tile::{Tile, TileContainer, TileData};
use grid_forge::two_d::{Direction2D, GridPosition2D, GridSize2D, TwoDim};

struct TestData<D: Dimensionality> {
    offset: usize,
    varia: usize,
    phantom: PhantomData<D>,
}

impl<D: Dimensionality> TestData<D> {
    fn new(offset: usize) -> Self {
        Self { offset, varia: 0, phantom: PhantomData }
    }
}

impl<D: Dimensionality> TileData for TestData<D> {}

fn set_up_grid<D: Dimensionality>(grid: &mut GridMap<D, TestData<D>>) {
    let size = *grid.size();
    for pos in size.get_all_possible_positions() {
        grid.insert_data(&pos, TestData::new(size.offset(&pos)));
    }
}

fn check_grid_read_access<const DIM: usize, D: Dimensionality>()
where
    D::Pos: Debug + PartialEq,
{
    let mut grid = GridMap::<D, TestData<D>>::new(D::Size::from_slice(&[10; DIM]));
    set_up_grid::<D>(&mut grid);

    let size = *grid.size();
    for pos in size.get_all_possible_positions() {
        let tile = grid.get_tile_at_position(&pos).unwrap();
        assert_eq!(tile.grid_position(), pos, "wrong position on position: {pos:?}; simple access");
        assert_eq!(
            tile.data().offset,
            size.offset(&pos),
            "wrong offset on position: {pos:?}; simple access"
        );
    }

    for pos in size.get_all_possible_positions() {
        let tile_data = grid.get_data_at_position(&pos).unwrap();
        assert_eq!(
            tile_data.offset,
            size.offset(&pos),
            "wrong offset on position: {pos:?}; get_tile_at_position access"
        );
    }

    for tile in grid.iter_tiles() {
        assert_eq!(
            tile.data().offset,
            size.offset(&tile.grid_position()),
            "wrong varia on position: {:?}; iter access",
            tile.grid_position()
        );
    }

    for tile in grid.drain() {
        assert_eq!(
            tile.data().offset,
            size.offset(&tile.grid_position()),
            "wrong offset on position: {:?}; drain access",
            tile.grid_position()
        );
    }
}

fn check_grid_write_access<const DIM: usize, D: Dimensionality>()
where
    D::Pos: Debug,
{
    let mut grid = GridMap::<D, TestData<D>>::new(D::Size::from_slice(&[10; DIM]));
    set_up_grid::<D>(&mut grid);

    let size = *grid.size();
    for pos in size.get_all_possible_positions() {
        let mut tile = grid.get_mut_tile_at_position(&pos).unwrap();
        tile.data().varia = size.offset(&pos);
    }

    for pos in size.get_all_possible_positions() {
        let tile = grid.get_data_at_position(&pos).unwrap();
        assert_eq!(tile.offset, size.offset(&pos), "wrong offset on position: {pos:?}");
        assert_eq!(tile.varia, tile.offset, "wrong varia on position: {pos:?}");
    }

    for pos in size.get_all_possible_positions() {
        let data = grid.get_mut_data_at_position(&pos).unwrap();
        data.varia *= 2;
    }

    for tile in grid.drain() {
        assert_eq!(
            tile.data().varia,
            size.offset(&tile.grid_position()) * 2,
            "wrong offset on position: {:?}",
            tile.grid_position()
        );
    }
}

fn check_remapped<const DIM: usize, D: Dimensionality>(remap_pos: D::Pos)
where
    D::Pos: Debug + PartialEq + Add<Output = D::Pos>,
{
    let mut grid = GridMap::<D, TestData<D>>::new(D::Size::from_slice(&[10; DIM]));
    set_up_grid::<D>(&mut grid);

    let size = *grid.size();
    for tile in grid.drain_remapped(remap_pos) {
        let original_pos = size.pos_from_offset(tile.data().offset);
        assert_eq!(
            tile.grid_position(),
            original_pos + remap_pos,
            "wrong position on remapped position: {:?};",
            tile.grid_position()
        );
    }
}

struct NeighbourTestCase<D: Dimensionality> {
    pos: D::Pos,
    direction: D::Dir,
    expected: Option<D::Pos>,
}

fn check_neighbours<D: Dimensionality>(size: D::Size, cases: &[NeighbourTestCase<D>])
where
    D::Pos: Debug + PartialEq,
    D::Dir: Debug,
    D::Size: Debug,
{
    let mut grid = GridMap::<D, TestData<D>>::new(size);
    set_up_grid::<D>(&mut grid);

    for (i, NeighbourTestCase { pos, direction, expected }) in cases.iter().enumerate() {
        let actual = grid.get_neighbour_at(pos, direction);
        match (actual, expected) {
            (Some(neighbour), Some(expected_pos)) => {
                assert_eq!(neighbour.grid_position(), *expected_pos, "wrong neighbour at position: {pos:?}; direction: {direction:?}. Case: {i}, Size: {size:?}");
                assert_eq!(neighbour.data().offset, size.offset(&neighbour.grid_position()), "wrong offset on position: {pos:?}; direction: {direction:?}. Case: {i}, Size: {size:?}");
            }
            (Some(neighbour), None) => panic!(
                "neigbour at position: {pos:?}; direction: {direction:?} should be None, but is: {neighbour_pos:?}. Case: {i}, Size: {size:?}",
                neighbour_pos = neighbour.grid_position()
            ),
            (None, Some(expected_pos)) => panic!(
                "neigbour at position: {pos:?}; direction: {direction:?} should be {expected_pos:?}, but is None. Case: {i}, Size: {size:?}"
            ),
            (None, None) => {}
        }
    }
}

struct AllNeighboursTestCase<D: Dimensionality> {
    pos: D::Pos,
    expected: Vec<D::Pos>,
}

fn check_all_neighbours<D: Dimensionality>(size: D::Size, cases: &[AllNeighboursTestCase<D>])
where
    D::Pos: Debug + PartialEq,
    D::Size: Debug,
{
    let mut grid = GridMap::<D, TestData<D>>::new(size);
    set_up_grid::<D>(&mut grid);

    for (i, AllNeighboursTestCase { pos, expected }) in cases.iter().enumerate() {
        let actual = grid.get_neighbours(pos);

        let unmatched = actual
            .iter()
            .map(|tile| tile.grid_position())
            .filter(|p| !expected.contains(p))
            .collect::<Vec<_>>();

        let missing = expected
            .iter()
            .filter(|p| !actual.iter().any(|tile| tile.grid_position() == **p))
            .collect::<Vec<_>>();

        if !unmatched.is_empty() {
            panic!("unmatched: {unmatched:?}. Case: {i}, Size: {size:?}");
        }
        if !missing.is_empty() {
            panic!("missing: {missing:?}. Case: {i}, Size: {size:?}");
        }
    }
}

#[test]
fn test_2d_grid_read_access() {
    check_grid_read_access::<2, TwoDim>();
}

#[test]
fn test_2d_grid_write_access() {
    check_grid_write_access::<2, TwoDim>();
}

#[test]
fn test_2d_remapped() {
    check_remapped::<2, TwoDim>(GridPosition2D::new(5, 5));
}

#[test]
fn test_2_neighbours() {
    check_neighbours::<TwoDim>(
        GridSize2D::new(10, 10),
        &[
            NeighbourTestCase {
                pos: GridPosition2D::new(0, 0),
                direction: Direction2D::Down,
                expected: Some(GridPosition2D::new(0, 1)),
            },
            NeighbourTestCase {
                pos: GridPosition2D::new(0, 0),
                direction: Direction2D::Left,
                expected: None,
            },
            NeighbourTestCase {
                pos: GridPosition2D::new(9, 9),
                direction: Direction2D::Up,
                expected: Some(GridPosition2D::new(9, 8)),
            },
            NeighbourTestCase {
                pos: GridPosition2D::new(9, 9),
                direction: Direction2D::Right,
                expected: None,
            },
        ],
    );
}

#[test]
fn test_2_all_neighbours() {
    check_all_neighbours::<TwoDim>(
        GridSize2D::new(10, 10),
        &[
            AllNeighboursTestCase {
                pos: GridPosition2D::new(0, 0),
                expected: vec![GridPosition2D::new(0, 1), GridPosition2D::new(1, 0)],
            },
            AllNeighboursTestCase {
                pos: GridPosition2D::new(5, 5),
                expected: vec![
                    GridPosition2D::new(4, 5),
                    GridPosition2D::new(5, 4),
                    GridPosition2D::new(6, 5),
                    GridPosition2D::new(5, 6),
                ],
            },
            AllNeighboursTestCase {
                pos: GridPosition2D::new(9, 9),
                expected: vec![GridPosition2D::new(8, 9), GridPosition2D::new(9, 8)],
            },
        ],
    );
}

#[test]
fn test_3d_grid_read_access() {
    check_grid_read_access::<3, ThreeDim>();
}

#[test]
fn test_3d_grid_write_access() {
    check_grid_write_access::<3, ThreeDim>();
}

#[test]
fn test_3d_remapped() {
    check_remapped::<3, ThreeDim>(GridPosition3D::new(5, 5, 5));
}

#[test]
fn test_3d_neighbours() {
    check_neighbours::<ThreeDim>(
        GridSize3D::new(10, 10, 10),
        &[
            NeighbourTestCase {
                pos: GridPosition3D::new(0, 0, 0),
                direction: Direction3D::Down,
                expected: Some(GridPosition3D::new(0, 1, 0)),
            },
            NeighbourTestCase {
                pos: GridPosition3D::new(0, 0, 0),
                direction: Direction3D::Left,
                expected: None,
            },
            NeighbourTestCase {
                pos: GridPosition3D::new(9, 9, 9),
                direction: Direction3D::Up,
                expected: Some(GridPosition3D::new(9, 8, 9)),
            },
            NeighbourTestCase {
                pos: GridPosition3D::new(9, 9, 9),
                direction: Direction3D::Right,
                expected: None,
            },
        ],
    );
}

#[derive(Clone, Debug, Default, PartialEq)]
struct Label(u32);

impl TileData for Label {}

#[test]
fn neighbours_come_in_the_order_of_the_directions() {
    let mut grid = GridMap2D::<Label>::new(GridSize2D::new(3, 3));
    for (i, pos) in grid.size().get_all_possible_positions().into_iter().enumerate() {
        assert!(grid.insert_data(&pos, Label(i as u32)));
    }
    let around = grid.get_neighbours(&GridPosition2D::new(1, 1));
    let positions: Vec<GridPosition2D> = around.iter().map(|t| t.grid_position()).collect();
    // up, down, left, right
    assert_eq!(
        positions,
        vec![
            GridPosition2D::new(1, 0),
            GridPosition2D::new(1, 2),
            GridPosition2D::new(0, 1),
            GridPosition2D::new(2, 1),
        ]
    );
    assert!(grid.remove_tile_at_position(&GridPosition2D::new(1, 0)).is_some());
    assert!(grid.remove_tile_at_position(&GridPosition2D::new(1, 0)).is_none());
    let around = grid.get_neighbours(&GridPosition2D::new(1, 1));
    assert_eq!(around.len(), 3);
    assert_eq!(around[0].grid_position(), GridPosition2D::new(1, 2));
}

#[test]
fn empty_and_filled_positions_come_in_storage_order() {
    let mut grid = GridMap2D::<Label>::new(GridSize2D::new(2, 2));
    assert!(grid.get_all_positions().is_empty());
    assert_eq!(grid.get_all_empty_positions().len(), 4);
    assert!(grid.insert_tile(Tile::new(GridPosition2D::new(1, 1), Label(7))));
    assert!(grid.insert_data(&GridPosition2D::new(1, 0), Label(3)));
    assert!(!grid.insert_data(&GridPosition2D::new(2, 0), Label(9)));
    assert_eq!(
        grid.get_all_positions(),
        vec![GridPosition2D::new(1, 0), GridPosition2D::new(1, 1)]
    );
    assert_eq!(
        grid.get_all_empty_positions(),
        vec![GridPosition2D::new(0, 0), GridPosition2D::new(0, 1)]
    );
    assert_eq!(grid.get_data_at_position(&GridPosition2D::new(1, 1)), Some(&Label(7)));
    assert_eq!(grid.get_data_at_position(&GridPosition2D::new(0, 0)), None);
    assert_eq!(grid.get_data_at_position(&GridPosition2D::new(5, 5)), None);
    let found = grid.get_tiles_at_positions(&[
        GridPosition2D::new(1, 1),
        GridPosition2D::new(0, 0),
        GridPosition2D::new(9, 9),
        GridPosition2D::new(1, 0),
    ]);
    let labels: Vec<u32> = found.iter().map(|t| t.data().0).collect();
    assert_eq!(labels, vec![7, 3]);
}

#[test]
fn filling_leaves_filled_cells_alone() {
    let mut grid = GridMap2D::<Label>::new(GridSize2D::new(2, 2));
    grid.insert_data(&GridPosition2D::new(0, 0), Label(5));
    grid.fill_empty_using(|p: GridPosition2D| Label(10 * p.x() + p.y()));
    assert_eq!(grid.get_data_at_position(&GridPosition2D::new(0, 0)), Some(&Label(5)));
    assert_eq!(grid.get_data_at_position(&GridPosition2D::new(1, 0)), Some(&Label(10)));
    assert_eq!(grid.get_data_at_position(&GridPosition2D::new(1, 1)), Some(&Label(11)));

    let mut grid = GridMap2D::<Label>::new(GridSize2D::new(2, 1));
    grid.insert_data(&GridPosition2D::new(1, 0), Label(5));
    grid.fill_empty_with(Label(8));
    assert_eq!(grid.get_data_at_position(&GridPosition2D::new(0, 0)), Some(&Label(8)));
    assert_eq!(grid.get_data_at_position(&GridPosition2D::new(1, 0)), Some(&Label(5)));

    let mut grid = GridMap2D::<Label>::new(GridSize2D::new(2, 1));
    grid.insert_data(&GridPosition2D::new(1, 0), Label(5));
    grid.fill_empty_with_default();
    assert_eq!(grid.get_data_at_position(&GridPosition2D::new(0, 0)), Some(&Label(0)));
    assert_eq!(grid.get_data_at_position(&GridPosition2D::new(1, 0)), Some(&Label(5)));
}

#[test]
fn layers_go_in_and_out_of_a_grid_of_three_dimensions() {
    let mut grid = GridMap3D::<Label>::new(GridSize3D::new(2, 2, 3));
    grid.insert_data(&GridPosition3D::new(0, 0, 1), Label(1));
    grid.insert_data(&GridPosition3D::new(1, 1, 2), Label(2));
    let mut layer = GridMap2D::<Label>::new(GridSize2D::new(2, 2));
    layer.insert_data(&GridPosition2D::new(1, 0), Label(40));
    layer.insert_data(&GridPosition2D::new(0, 1), Label(41));
    grid.insert_layer(1, layer);
    assert_eq!(grid.get_data_at_position(&GridPosition3D::new(1, 0, 1)), Some(&Label(40)));
    assert_eq!(grid.get_data_at_position(&GridPosition3D::new(0, 1, 1)), Some(&Label(41)));
    assert_eq!(grid.get_data_at_position(&GridPosition3D::new(0, 0, 1)), Some(&Label(1)));
    assert_eq!(grid.get_data_at_position(&GridPosition3D::new(1, 1, 2)), Some(&Label(2)));
    assert_eq!(grid.get_data_at_position(&GridPosition3D::new(1, 0, 0)), None);

    let out = grid.remove_layer(1);
    assert_eq!(*out.size(), GridSize2D::new(2, 2));
    assert_eq!(out.get_data_at_position(&GridPosition2D::new(1, 0)), Some(&Label(40)));
    assert_eq!(out.get_data_at_position(&GridPosition2D::new(0, 1)), Some(&Label(41)));
    assert_eq!(out.get_data_at_position(&GridPosition2D::new(0, 0)), Some(&Label(1)));
    assert_eq!(out.get_data_at_position(&GridPosition2D::new(1, 1)), None);
    assert_eq!(grid.get_all_positions(), vec![GridPosition3D::new(1, 1, 2)]);
}
