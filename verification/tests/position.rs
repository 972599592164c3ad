use std::cmp::Ordering;
use std::fmt::Debug;
use std::ops::{Add, AddAssign, Sub};

use grid_forge::dimension::Dimensionality;
use grid_forge::position::{filter_positions, in_range, GridPosition};
use grid_forge::three_d::{GridPosition3D, ThreeDim};
use grid_forge::two_d::{GridPosition2D, TwoDim};

type ComparisonTestCase<const DIM: usize> = ([u32; DIM], [u32; DIM], Ordering);

type MathOpTestCase<const DIM: usize> = (Vec<[u32; DIM]>, [u32; DIM]);

type GenerateRectTestCase<const DIM: usize> = ([u32; DIM], [u32; DIM]);

fn compare_test<const DIM: usize, D: Dimensionality>(test_cases: &[ComparisonTestCase<DIM>])
where
    D::Pos: Ord,
{
    for (i, (a, b, expected)) in test_cases.iter().enumerate() {
        let a = D::Pos::from_slice(a);
        let b = D::Pos::from_slice(b);
        assert_eq!(a.cmp(&b), *expected, "test case {}", i);
    }
}

fn order_test<const DIM: usize, D: Dimensionality>(test_cases: &[Vec<[u32; DIM]>])
where
    D::Pos: Ord + Debug,
{
    for (i, coords) in test_cases.iter().enumerate() {
        let mut positions = coords.iter().map(|c| D::Pos::from_slice(c)).collect::<Vec<_>>();
        positions.sort();
        let mut previous: Option<D::Pos> = None;
        for pos in positions {
            if let Some(previous) = previous {
                assert_ne!(
                    pos.cmp(&previous),
                    Ordering::Less,
                    "test case {}; pos: {:?}, previous: {:?}",
                    i,
                    pos,
                    previous
                );
            }
            previous = Some(pos);
        }
    }
}

fn add_test<const DIM: usize, D: Dimensionality>(test_cases: &[MathOpTestCase<DIM>])
where
    D::Pos: Add<Output = D::Pos> + Debug + PartialEq,
{
    for (i, (to_add, expected)) in test_cases.iter().enumerate() {
        let mut position = D::Pos::from_slice(&[0u32; DIM]);
        for var in to_add.iter() {
            position = position + D::Pos::from_slice(var);
        }
        assert_eq!(position, D::Pos::from_slice(expected), "test case {}", i);
    }
}

fn add_assign_test<const DIM: usize, D: Dimensionality>(test_cases: &[MathOpTestCase<DIM>])
where
    D::Pos: AddAssign + Debug + PartialEq,
{
    for (i, (to_add, expected)) in test_cases.iter().enumerate() {
        let mut position = D::Pos::from_slice(&[0u32; DIM]);
        for var in to_add.iter() {
            position += D::Pos::from_slice(var);
        }
        assert_eq!(position, D::Pos::from_slice(expected), "test case {}", i);
    }
}

fn sub_test<const DIM: usize, D: Dimensionality>(test_cases: &[MathOpTestCase<DIM>])
where
    D::Pos: Sub<Output = D::Pos> + Debug + PartialEq,
{
    for (i, (to_add, expected)) in test_cases.iter().enumerate() {
        let mut position = D::Pos::from_slice(&[0u32; DIM]);
        for var in to_add.iter() {
            position = position - D::Pos::from_slice(var);
        }
        assert_eq!(position, D::Pos::from_slice(expected), "test case {}", i);
    }
}

fn generate_rect_area_test<const DIM: usize, D: Dimensionality>(
    test_cases: &[GenerateRectTestCase<DIM>],
) where
    D::Pos: Ord,
{
    for (i, (a, b)) in test_cases.iter().enumerate() {
        let a = D::Pos::from_slice(a);
        let b = D::Pos::from_slice(b);
        let in_area = D::Pos::generate_rect_area(&a, &b);

        let min_origin = a.min(b);
        let max_origin = a.max(b);

        for pos in in_area {
            assert!(pos >= min_origin && pos <= max_origin, "test case {}", i);
        }
    }
}

#[test]
fn test_2d_compare() {
    let cases: Vec<ComparisonTestCase<2>> = vec![
        ([0, 0], [0, 0], Ordering::Equal),
        ([0, 0], [1, 0], Ordering::Less),
        ([0, 0], [0, 1], Ordering::Less),
        ([1, 0], [0, 0], Ordering::Greater),
        ([0, 1], [0, 0], Ordering::Greater),
        ([1, 1], [1, 1], Ordering::Equal),
    ];
    compare_test::<2, TwoDim>(&cases);
}

#[test]
fn test_2d_order() {
    let cases: Vec<Vec<[u32; 2]>> = vec![vec![
        [0, 0],
        [2, 0],
        [0, 2],
        [1, 1],
        [1, 2],
        [33, 33],
        [2, 2],
        [12, 12],
        [12, 2],
        [2, 12],
    ]];
    order_test::<2, TwoDim>(&cases);
}

#[test]
fn test_2d_add() {
    let cases: Vec<MathOpTestCase<2>> = vec![
        (vec![[0, 0], [1, 1]], [1, 1]),
        (vec![[1, 1], [1, 1]], [2, 2]),
        (vec![[1, 0], [1, 1]], [2, 1]),
        (vec![[0, 1], [1, 1]], [1, 2]),
    ];
    add_test::<2, TwoDim>(&cases);
}

#[test]
fn test_2d_add_assign() {
    let cases: Vec<MathOpTestCase<2>> = vec![
        (vec![[0, 0], [1, 1]], [1, 1]),
        (vec![[1, 1], [1, 1]], [2, 2]),
        (vec![[1, 0], [1, 1]], [2, 1]),
        (vec![[0, 1], [1, 1]], [1, 2]),
    ];
    add_assign_test::<2, TwoDim>(&cases);
}

#[test]
fn test_2d_sub() {
    let cases: Vec<MathOpTestCase<2>> = vec![
        (vec![[0, 0], [1, 1]], [1, 1]),
        (vec![[1, 1], [1, 1]], [0, 0]),
        (vec![[1, 0], [1, 1]], [0, 1]),
        (vec![[2, 2], [1, 0]], [1, 2]),
    ];
    sub_test::<2, TwoDim>(&cases);
}

#[test]
fn test_2d_generate_rect_area() {
    let cases: Vec<GenerateRectTestCase<2>> =
        vec![([0, 0], [1, 1]), ([1, 1], [10, 15]), ([10, 15], [1, 1]), ([0, 0], [0, 0])];
    generate_rect_area_test::<2, TwoDim>(&cases);
}

#[test]
fn test_3d_compare() {
    let cases: Vec<ComparisonTestCase<3>> = vec![
        ([0, 0, 0], [0, 0, 0], Ordering::Equal),
        ([0, 0, 0], [1, 0, 0], Ordering::Less),
        ([0, 0, 0], [0, 1, 0], Ordering::Less),
        ([0, 0, 0], [0, 0, 1], Ordering::Less),
        ([1, 0, 0], [0, 0, 0], Ordering::Greater),
        ([0, 1, 0], [0, 0, 0], Ordering::Greater),
        ([0, 0, 1], [0, 0, 0], Ordering::Greater),
        ([1, 1, 1], [1, 1, 1], Ordering::Equal),
    ];
    compare_test::<3, ThreeDim>(&cases);
}

#[test]
fn test_3d_order() {
    let cases: Vec<Vec<[u32; 3]>> = vec![vec![
        [0, 0, 0],
        [2, 0, 0],
        [0, 2, 0],
        [1, 1, 0],
        [1, 2, 0],
        [33, 33, 33],
        [2, 2, 2],
        [12, 12, 12],
        [12, 2, 2],
        [2, 12, 2],
    ]];
    order_test::<3, ThreeDim>(&cases);
}

#[test]
fn test_3d_add() {
    let cases: Vec<MathOpTestCase<3>> = vec![
        (vec![[0, 0, 0], [1, 1, 1]], [1, 1, 1]),
        (vec![[1, 1, 1], [1, 1, 1]], [2, 2, 2]),
        (vec![[1, 0, 0], [1, 1, 1]], [2, 1, 1]),
        (vec![[0, 1, 0], [1, 1, 1]], [1, 2, 1]),
    ];
    add_test::<3, ThreeDim>(&cases);
}

#[test]
fn test_3d_add_assign() {
    let cases: Vec<MathOpTestCase<3>> = vec![
        (vec![[0, 0, 0], [1, 1, 1]], [1, 1, 1]),
        (vec![[1, 1, 1], [1, 1, 1]], [2, 2, 2]),
        (vec![[1, 0, 0], [1, 1, 1]], [2, 1, 1]),
        (vec![[0, 1, 0], [1, 1, 1]], [1, 2, 1]),
    ];
    add_assign_test::<3, ThreeDim>(&cases);
}

#[test]
fn test_3d_sub() {
    let cases: Vec<MathOpTestCase<3>> = vec![
        (vec![[0, 0, 0], [1, 1, 1]], [1, 1, 1]),
        (vec![[1, 1, 1], [1, 1, 1]], [0, 0, 0]),
        (vec![[1, 0, 0], [1, 1, 1]], [0, 1, 1]),
        (vec![[2, 2, 2], [1, 0, 0]], [1, 2, 2]),
    ];
    sub_test::<3, ThreeDim>(&cases);
}

#[test]
fn test_3d_generate_rect_area() {
    let cases: Vec<GenerateRectTestCase<3>> = vec![
        ([0, 0, 0], [1, 1, 1]),
        ([1, 1, 1], [10, 15, 20]),
        ([10, 15, 20], [1, 1, 1]),
        ([0, 0, 0], [0, 0, 0]),
    ];
    generate_rect_area_test::<3, ThreeDim>(&cases);
}

#[test]
fn rect_area_holds_each_position_once_in_order() {
    let area = GridPosition2D::generate_rect_area(
        &GridPosition2D::new(3, 1),
        &GridPosition2D::new(1, 2),
    );
    assert_eq!(
        area,
        vec![
            GridPosition2D::new(1, 1),
            GridPosition2D::new(1, 2),
            GridPosition2D::new(2, 1),
            GridPosition2D::new(2, 2),
            GridPosition2D::new(3, 1),
            GridPosition2D::new(3, 2),
        ]
    );
    let area = GridPosition3D::generate_rect_area(
        &GridPosition3D::new(0, 1, 1),
        &GridPosition3D::new(1, 0, 0),
    );
    assert_eq!(area.len(), 8);
    assert_eq!(area[0], GridPosition3D::new(0, 0, 0));
    assert_eq!(area[1], GridPosition3D::new(0, 0, 1));
    assert_eq!(area[2], GridPosition3D::new(0, 1, 0));
    assert_eq!(area[7], GridPosition3D::new(1, 1, 1));
    let mut sorted = area.clone();
    sorted.sort();
    sorted.dedup();
    assert_eq!(sorted, area);
}

#[test]
fn in_range_is_the_manhattan_distance() {
    assert!(in_range(&GridPosition2D::new(0, 0), &GridPosition2D::new(3, 3), 6));
    assert!(!in_range(&GridPosition2D::new(0, 0), &GridPosition2D::new(3, 3), 5));
    assert!(in_range(&GridPosition3D::new(0, 0, 0), &GridPosition3D::new(3, 3, 3), 9));
    assert!(!in_range(&GridPosition3D::new(0, 0, 0), &GridPosition3D::new(3, 3, 3), 8));
    assert!(!in_range(
        &GridPosition2D::new(0, 0),
        &GridPosition2D::new(u32::MAX, u32::MAX),
        u32::MAX
    ));
    assert!(in_range(&GridPosition2D::new(7, 7), &GridPosition2D::new(7, 7), 0));
}

#[test]
fn filter_positions_keeps_the_order_of_the_rest() {
    let mut positions = vec![
        GridPosition2D::new(0, 0),
        GridPosition2D::new(1, 0),
        GridPosition2D::new(2, 0),
        GridPosition2D::new(3, 0),
        GridPosition2D::new(4, 0),
    ];
    let to_filter = vec![GridPosition2D::new(1, 0), GridPosition2D::new(0, 1)];
    filter_positions(&mut positions, &to_filter);
    assert_eq!(
        positions,
        vec![
            GridPosition2D::new(0, 0),
            GridPosition2D::new(2, 0),
            GridPosition2D::new(3, 0),
            GridPosition2D::new(4, 0),
        ]
    );
}

#[test]
fn coordinates_round_trip() {
    let p = GridPosition2D::from_coords([4, 9]);
    assert_eq!(p.coords(), [4, 9]);
    assert_eq!((p.x(), p.y()), (4, 9));
    assert_eq!(p.coord(0), 4);
    assert_eq!(p.coord(1), 9);
    let q = GridPosition3D::from_coords([1, 2, 3]);
    assert_eq!(q.coords(), [1, 2, 3]);
    assert_eq!((q.x(), q.y(), q.z()), (1, 2, 3));
    assert_eq!(q.translated(&GridPosition3D::new(10, 20, 30)), GridPosition3D::new(11, 22, 33));
    assert!(p.same(&GridPosition2D::new(4, 9)));
    assert!(!p.same(&GridPosition2D::new(9, 4)));
}
