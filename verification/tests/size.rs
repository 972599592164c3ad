use std::fmt::Debug;

use grid_forge::dimension::Dimensionality;
use grid_forge::position::GridPosition;
use grid_forge::size::GridSize;
use grid_forge::three_d::{GridPosition3D, GridSize3D, ThreeDim};
use grid_forge::two_d::{GridPosition2D, GridSize2D, TwoDim};

type Dims1Dims2BoolTestCase<const DIM: usize> = ([u32; DIM], [u32; DIM], bool);

type DimsCountTestCase<const DIM: usize> = ([u32; DIM], usize);

type Dims1Dims2CountTestCase<const DIM: usize> = ([u32; DIM], [u32; DIM], u32);

type Dims1Dims2TestCase<const DIM: usize> = ([u32; DIM], [u32; DIM]);

fn check_is_position_valid<const DIM: usize, D: Dimensionality>(
    test_cases: &[Dims1Dims2BoolTestCase<DIM>],
) {
    for (i, (size, pos, expected)) in test_cases.iter().enumerate() {
        let size = D::Size::from_slice(size);
        let pos = D::Pos::from_slice(pos);
        assert_eq!(size.is_position_valid(&pos), *expected, "test case {}", i);
    }
}

fn check_is_contained_within<const DIM: usize, D: Dimensionality>(
    test_cases: &[Dims1Dims2BoolTestCase<DIM>],
) {
    for (i, (size_1, size_2, expected)) in test_cases.iter().enumerate() {
        let size_1 = D::Size::from_slice(size_1);
        let size_2 = D::Size::from_slice(size_2);
        assert_eq!(size_1.is_contained_within(&size_2), *expected, "test case {}", i);
    }
}

fn check_get_all_possible_positions<const DIM: usize, D: Dimensionality>(
    test_cases: &[DimsCountTestCase<DIM>],
) where
    D::Pos: Debug,
{
    for (i, (size, expected)) in test_cases.iter().enumerate() {
        let size = D::Size::from_slice(size);
        let positions = size.get_all_possible_positions();
        assert_eq!(positions.len(), *expected, "test case {}: wrong number of positions", i);
        for pos in positions {
            assert!(
                size.is_position_valid(&pos),
                "test case {}: position {:?} is not valid",
                i,
                pos
            );
        }
    }
}

fn check_distance_from_border<const DIM: usize, D: Dimensionality>(
    test_cases: &[Dims1Dims2CountTestCase<DIM>],
) {
    for (i, (size, position, expected)) in test_cases.iter().enumerate() {
        let size = D::Size::from_slice(size);
        let pos = D::Pos::from_slice(position);
        assert_eq!(size.distance_from_border(&pos).unwrap(), *expected, "test case {}", i);
    }
}

fn check_distance_from_center<const DIM: usize, D: Dimensionality>(
    test_cases: &[Dims1Dims2CountTestCase<DIM>],
) {
    for (i, (size, pos, expected)) in test_cases.iter().enumerate() {
        let size = D::Size::from_slice(size);
        let pos = D::Pos::from_slice(pos);
        assert_eq!(size.distance_from_center(&pos).unwrap(), *expected, "test case {}", i);
    }
}

fn check_center<const DIM: usize, D: Dimensionality>(test_cases: &[Dims1Dims2TestCase<DIM>])
where
    D::Pos: Debug + PartialEq,
{
    for (i, (size, pos)) in test_cases.iter().enumerate() {
        let size = D::Size::from_slice(size);
        let pos = D::Pos::from_slice(pos);
        assert_eq!(size.center(), pos, "test case {}", i);
    }
}

fn check_max_tile_count<const DIM: usize, D: Dimensionality>(test_cases: &[DimsCountTestCase<DIM>]) {
    for (i, (size, n_pos)) in test_cases.iter().enumerate() {
        let size = D::Size::from_slice(size);
        assert_eq!(size.max_tile_count(), *n_pos, "test case {}", i);
    }
}

fn check_offset<const DIM: usize, D: Dimensionality>(test_cases: &[Dims1Dims2CountTestCase<DIM>]) {
    for (i, (size, pos, expected)) in test_cases.iter().enumerate() {
        let size = D::Size::from_slice(size);
        let pos = D::Pos::from_slice(pos);
        assert_eq!(size.offset(&pos), *expected as usize, "test case {}", i);
    }
}

fn check_pos_from_offset<const DIM: usize, D: Dimensionality>(
    test_cases: &[Dims1Dims2CountTestCase<DIM>],
) where
    D::Pos: Debug + PartialEq,
{
    for (i, (size, expected, offset)) in test_cases.iter().enumerate() {
        let size = D::Size::from_slice(size);
        let pos = D::Pos::from_slice(expected);
        assert_eq!(size.pos_from_offset(*offset as usize), pos, "test case {}", i);
    }
}

#[test]
fn test_2d_offset() {
    let cases: Vec<Dims1Dims2CountTestCase<2>> = vec![
        ([10, 10], [0, 0], 0),
        ([10, 10], [1, 0], 1),
        ([10, 10], [0, 1], 10),
        ([10, 10], [1, 1], 11),
        ([33, 33], [0, 0], 0),
        ([33, 33], [1, 0], 1),
        ([33, 33], [0, 1], 33),
        ([33, 33], [1, 1], 34),
    ];
    check_offset::<2, TwoDim>(&cases);
}

#[test]
fn test_2d_pos_from_offset() {
    let cases: Vec<Dims1Dims2CountTestCase<2>> = vec![
        ([10, 10], [0, 0], 0),
        ([10, 10], [1, 0], 1),
        ([10, 10], [0, 1], 10),
        ([10, 10], [1, 1], 11),
        ([33, 33], [0, 0], 0),
        ([33, 33], [1, 0], 1),
        ([33, 33], [0, 1], 33),
        ([33, 33], [1, 1], 34),
    ];
    check_pos_from_offset::<2, TwoDim>(&cases);
}

#[test]
fn test_2d_is_position_valid() {
    let cases: Vec<Dims1Dims2BoolTestCase<2>> = vec![
        ([10, 10], [0, 0], true),
        ([10, 10], [1, 0], true),
        ([10, 10], [0, 1], true),
        ([10, 10], [1, 1], true),
        ([10, 10], [12, 0], false),
        ([10, 10], [0, 12], false),
        ([10, 10], [12, 12], false),
    ];
    check_is_position_valid::<2, TwoDim>(&cases);
}

#[test]
fn test_2d_is_contained_within() {
    let cases: Vec<Dims1Dims2BoolTestCase<2>> = vec![
        ([10, 10], [5, 5], false),
        ([10, 10], [10, 10], true),
        ([10, 10], [11, 11], true),
    ];
    check_is_contained_within::<2, TwoDim>(&cases);
}

#[test]
fn test_2d_get_all_possible_positions() {
    let cases: Vec<DimsCountTestCase<2>> =
        vec![([10, 10], 100), ([100, 100], 10000), ([33, 33], 1089)];
    check_get_all_possible_positions::<2, TwoDim>(&cases);
}

#[test]
fn test_2d_max_tile_count() {
    let cases: Vec<DimsCountTestCase<2>> =
        vec![([10, 10], 100), ([100, 100], 10000), ([33, 33], 1089)];
    check_max_tile_count::<2, TwoDim>(&cases);
}

#[test]
fn test_2d_center() {
    let cases: Vec<Dims1Dims2TestCase<2>> = vec![
        ([10, 10], [5, 5]),
        ([100, 100], [50, 50]),
        ([33, 33], [16, 16]),
        ([32, 32], [16, 16]),
    ];
    check_center::<2, TwoDim>(&cases);
}

#[test]
fn test_2d_distance_from_center() {
    let cases: Vec<Dims1Dims2CountTestCase<2>> = vec![
        ([10, 10], [0, 0], 5),
        ([10, 10], [9, 9], 4),
        ([9, 9], [0, 0], 4),
        ([9, 9], [8, 8], 4),
        ([10, 10], [1, 0], 4),
        ([10, 10], [0, 1], 4),
        ([10, 10], [1, 1], 4),
        ([10, 10], [5, 5], 0),
        ([10, 10], [0, 9], 4),
        ([10, 10], [7, 6], 1),
    ];
    check_distance_from_center::<2, TwoDim>(&cases);
}

#[test]
fn test_2d_distance_from_border() {
    let cases: Vec<Dims1Dims2CountTestCase<2>> = vec![
        ([10, 10], [0, 0], 0),
        ([10, 10], [1, 0], 0),
        ([10, 10], [0, 1], 0),
        ([10, 10], [1, 1], 1),
        ([10, 10], [9, 0], 0),
        ([10, 10], [0, 9], 0),
        ([10, 10], [9, 9], 0),
        ([10, 10], [7, 6], 2),
    ];
    check_distance_from_border::<2, TwoDim>(&cases);
}

#[test]
fn test_3d_offset() {
    let cases: Vec<Dims1Dims2CountTestCase<3>> = vec![
        ([10, 10, 10], [0, 0, 0], 0),
        ([10, 10, 10], [1, 0, 0], 1),
        ([10, 10, 10], [0, 1, 0], 10),
        ([10, 10, 10], [1, 1, 0], 11),
        ([10, 10, 10], [0, 0, 1], 100),
        ([10, 10, 10], [1, 0, 1], 101),
        ([10, 10, 10], [0, 1, 1], 110),
        ([10, 10, 10], [1, 1, 1], 111),
        ([10, 10, 10], [0, 1, 1], 110),
        ([33, 33, 33], [0, 0, 0], 0),
        ([33, 33, 33], [1, 0, 0], 1),
        ([33, 33, 33], [0, 1, 0], 33),
        ([33, 33, 33], [1, 1, 0], 34),
        ([33, 33, 33], [0, 0, 1], 1089),
        ([33, 33, 33], [1, 0, 1], 1090),
        ([33, 33, 33], [0, 1, 1], 1122),
        ([33, 33, 33], [0, 0, 2], 2178),
    ];
    check_offset::<3, ThreeDim>(&cases);
}

#[test]
fn test_3d_pos_from_offset() {
    let cases: Vec<Dims1Dims2CountTestCase<3>> = vec![
        ([10, 10, 10], [0, 0, 0], 0),
        ([10, 10, 10], [1, 0, 0], 1),
        ([10, 10, 10], [0, 1, 0], 10),
        ([10, 10, 10], [1, 1, 0], 11),
        ([10, 10, 10], [0, 0, 1], 100),
        ([10, 10, 10], [1, 0, 1], 101),
        ([10, 10, 10], [0, 1, 1], 110),
        ([10, 10, 10], [1, 1, 1], 111),
        ([10, 10, 10], [0, 1, 1], 110),
        ([33, 33, 33], [0, 0, 0], 0),
        ([33, 33, 33], [1, 0, 0], 1),
        ([33, 33, 33], [0, 1, 0], 33),
        ([33, 33, 33], [1, 1, 0], 34),
        ([33, 33, 33], [0, 0, 1], 1089),
        ([33, 33, 33], [1, 0, 1], 1090),
        ([33, 33, 33], [0, 1, 1], 1122),
        ([33, 33, 33], [0, 0, 2], 2178),
    ];
    check_pos_from_offset::<3, ThreeDim>(&cases);
}

#[test]
fn test_3d_is_position_valid() {
    let cases: Vec<Dims1Dims2BoolTestCase<3>> = vec![
        ([10, 10, 10], [0, 0, 0], true),
        ([10, 10, 10], [1, 0, 0], true),
        ([10, 10, 10], [0, 1, 0], true),
        ([10, 10, 10], [1, 1, 0], true),
        ([10, 10, 10], [0, 0, 1], true),
        ([10, 10, 10], [1, 0, 1], true),
        ([10, 10, 10], [0, 1, 1], true),
        ([10, 10, 10], [1, 1, 1], true),
        ([10, 10, 10], [0, 1, 1], true),
        ([10, 10, 10], [12, 0, 0], false),
        ([10, 10, 10], [0, 12, 0], false),
        ([10, 10, 10], [12, 12, 0], false),
        ([10, 10, 10], [0, 0, 12], false),
        ([10, 10, 10], [12, 0, 12], false),
        ([10, 10, 10], [0, 12, 12], false),
        ([10, 10, 10], [12, 12, 12], false),
    ];
    check_is_position_valid::<3, ThreeDim>(&cases);
}

#[test]
fn test_3d_is_contained_within() {
    let cases: Vec<Dims1Dims2BoolTestCase<3>> = vec![
        ([10, 10, 10], [5, 5, 5], false),
        ([10, 10, 10], [10, 10, 10], true),
        ([10, 10, 10], [11, 11, 11], true),
    ];
    check_is_contained_within::<3, ThreeDim>(&cases);
}

#[test]
fn test_3d_get_all_possible_positions() {
    let cases: Vec<DimsCountTestCase<3>> =
        vec![([10, 10, 10], 1000), ([100, 100, 100], 1000000), ([33, 33, 33], 35937)];
    check_get_all_possible_positions::<3, ThreeDim>(&cases);
}

#[test]
fn test_3d_max_tile_count() {
    let cases: Vec<DimsCountTestCase<3>> =
        vec![([10, 10, 10], 1000), ([100, 100, 100], 1000000), ([33, 33, 33], 35937)];
    check_max_tile_count::<3, ThreeDim>(&cases);
}

#[test]
fn test_3d_center() {
    let cases: Vec<Dims1Dims2TestCase<3>> = vec![
        ([10, 10, 10], [5, 5, 5]),
        ([100, 100, 100], [50, 50, 50]),
        ([33, 33, 33], [16, 16, 16]),
        ([32, 32, 32], [16, 16, 16]),
    ];
    check_center::<3, ThreeDim>(&cases);
}

#[test]
fn test_3d_distance_from_center() {
    let cases: Vec<Dims1Dims2CountTestCase<3>> = vec![
        ([10, 10, 10], [0, 0, 0], 5),
        ([10, 10, 10], [9, 9, 9], 4),
        ([10, 10, 10], [0, 0, 9], 4),
        ([10, 10, 10], [9, 9, 9], 4),
        ([10, 10, 10], [7, 6, 5], 0),
    ];
    check_distance_from_center::<3, ThreeDim>(&cases);
}

#[test]
fn test_3d_distance_from_border() {
    let cases: Vec<Dims1Dims2CountTestCase<3>> = vec![
        ([10, 10, 10], [0, 0, 0], 0),
        ([10, 10, 10], [1, 0, 0], 0),
        ([10, 10, 10], [0, 1, 0], 0),
        ([10, 10, 10], [1, 1, 0], 0),
        ([10, 10, 10], [0, 0, 1], 0),
        ([10, 10, 10], [1, 0, 1], 0),
        ([10, 10, 10], [0, 1, 1], 0),
        ([10, 10, 10], [1, 1, 1], 1),
        ([10, 10, 10], [9, 0, 0], 0),
        ([10, 10, 10], [0, 9, 0], 0),
        ([10, 10, 10], [9, 9, 0], 0),
        ([10, 10, 10], [0, 0, 9], 0),
        ([10, 10, 10], [9, 0, 9], 0),
        ([10, 10, 10], [0, 9, 9], 0),
        ([10, 10, 10], [9, 9, 9], 0),
        ([10, 10, 10], [7, 6, 5], 2),
    ];
    check_distance_from_border::<3, ThreeDim>(&cases);
}

#[test]
fn offsets_and_positions_are_inverse() {
    let size = GridSize2D::new(7, 5);
    for o in 0..size.max_tile_count() {
        let p = size.pos_from_offset(o);
        assert!(size.is_position_valid(&p));
        assert_eq!(size.offset(&p), o);
    }
    for p in size.get_all_possible_positions() {
        assert_eq!(size.pos_from_offset(size.offset(&p)), p);
    }
    let size = GridSize3D::new(3, 4, 5);
    for o in 0..size.max_tile_count() {
        let p = size.pos_from_offset(o);
        assert!(size.is_position_valid(&p));
        assert_eq!(size.offset(&p), o);
    }
    for p in size.get_all_possible_positions() {
        assert_eq!(size.pos_from_offset(size.offset(&p)), p);
    }
}

#[test]
fn all_positions_come_in_lexicographic_order() {
    let positions = GridSize2D::new(2, 3).get_all_possible_positions();
    assert_eq!(
        positions,
        vec![
            GridPosition2D::new(0, 0),
            GridPosition2D::new(0, 1),
            GridPosition2D::new(0, 2),
            GridPosition2D::new(1, 0),
            GridPosition2D::new(1, 1),
            GridPosition2D::new(1, 2),
        ]
    );
    let positions = GridSize3D::new(2, 1, 2).get_all_possible_positions();
    assert_eq!(
        positions,
        vec![
            GridPosition3D::new(0, 0, 0),
            GridPosition3D::new(0, 0, 1),
            GridPosition3D::new(1, 0, 0),
            GridPosition3D::new(1, 0, 1),
        ]
    );
    assert!(GridSize2D::new(0, 5).get_all_possible_positions().is_empty());
    assert!(GridSize3D::new(4, 0, 5).get_all_possible_positions().is_empty());
}

#[test]
fn distances_of_positions_that_are_not_valid() {
    let size = GridSize2D::new(10, 10);
    assert_eq!(size.distance_from_border(&GridPosition2D::new(10, 10)), None);
    assert_eq!(size.distance_from_center(&GridPosition2D::new(0, 10)), None);
    let size = GridSize3D::from_2d(4, GridSize2D::new(2, 3));
    assert_eq!((size.x(), size.y(), size.z()), (2, 3, 4));
    assert_eq!(size.distance_from_border(&GridPosition3D::new(0, 0, 4)), None);
    assert_eq!(size.distance_from_center(&GridPosition3D::new(2, 0, 0)), None);
    assert_eq!(size.distance_from_center(&GridPosition3D::new(1, 1, 0)), Some(0));
}
