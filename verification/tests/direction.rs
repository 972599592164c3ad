use std::fmt::Debug;
use std::ops::{Index, IndexMut};

use grid_forge::dimension::Dimensionality;
use grid_forge::direction::Direction;
use grid_forge::position::GridPosition;
use grid_forge::size::GridSize;
use grid_forge::three_d::{Direction3D, DirectionTable3D, GridPosition3D, GridSize3D, ThreeDim};
use grid_forge::two_d::{Direction2D, DirectionTable2D, GridPosition2D, GridSize2D, TwoDim};

struct MarchStepTestCase<const DIM: usize, D: Dimensionality> {
    grid_size: [u32; DIM],
    from_coords: [u32; DIM],
    dirs: Vec<D::Dir>,
    expected_coords: [u32; DIM],
    converged: bool,
}

fn march_step_test<const DIM: usize, D: Dimensionality>(test_cases: &[MarchStepTestCase<DIM, D>])
where
    D::Pos: Debug + PartialEq,
{
    for (i, case) in test_cases.iter().enumerate() {
        let grid_size = D::Size::from_slice(&case.grid_size);
        let mut current_pos = D::Pos::from_slice(&case.from_coords);
        let expected = D::Pos::from_slice(&case.expected_coords);
        let mut finished = true;
        for dir in case.dirs.iter() {
            match dir.march_step(&current_pos, &grid_size) {
                Some(pos) => {
                    current_pos = pos;
                }
                None => {
                    finished = false;
                    break;
                }
            }
        }
        assert_eq!(current_pos, expected, "test case {} non-expected ending", i);
        assert_eq!(finished, case.converged, "test case {} non-expected convergence", i);
    }
}

fn direction_table_test<Dir: Copy, Table>(test_cases: &[Vec<(Dir, u32)>])
where
    Table: Default + Index<Dir, Output = u32> + IndexMut<Dir>,
{
    for (i, data) in test_cases.iter().enumerate() {
        let mut table = Table::default();
        for (dir, value) in data.iter() {
            table[*dir] = *value;
        }
        for (dir, value) in data.iter() {
            assert_eq!(table[*dir], *value, "test case {}", i);
        }
    }
}

#[test]
fn test_2d_march_step() {
    let cases: Vec<MarchStepTestCase<2, TwoDim>> = vec![
        MarchStepTestCase {
            grid_size: [10, 10],
            from_coords: [5, 5],
            dirs: vec![Direction2D::Up, Direction2D::Down, Direction2D::Left, Direction2D::Right],
            expected_coords: [5, 5],
            converged: true,
        },
        MarchStepTestCase {
            grid_size: [10, 10],
            from_coords: [5, 5],
            dirs: vec![Direction2D::Up, Direction2D::Up, Direction2D::Up, Direction2D::Up],
            expected_coords: [5, 1],
            converged: true,
        },
        MarchStepTestCase {
            grid_size: [2, 2],
            from_coords: [1, 1],
            dirs: vec![Direction2D::Up, Direction2D::Left],
            expected_coords: [0, 0],
            converged: true,
        },
        MarchStepTestCase {
            grid_size: [2, 2],
            from_coords: [0, 0],
            dirs: vec![Direction2D::Up],
            expected_coords: [0, 0],
            converged: false,
        },
    ];
    march_step_test::<2, TwoDim>(&cases);
}

#[test]
fn test_2d_direction_table() {
    let cases: Vec<Vec<(Direction2D, u32)>> = vec![
        vec![
            (Direction2D::Up, 22),
            (Direction2D::Down, 33),
            (Direction2D::Left, 44),
            (Direction2D::Right, 55),
        ],
        vec![(Direction2D::Up, 66), (Direction2D::Down, 77)],
    ];
    direction_table_test::<Direction2D, DirectionTable2D<u32>>(&cases);
}

#[test]
fn test_3d_march_step() {
    let cases: Vec<MarchStepTestCase<3, ThreeDim>> = vec![
        MarchStepTestCase {
            grid_size: [10, 10, 10],
            from_coords: [5, 5, 5],
            dirs: vec![
                Direction3D::Up,
                Direction3D::Down,
                Direction3D::Left,
                Direction3D::Right,
                Direction3D::Higher,
                Direction3D::Lower,
            ],
            expected_coords: [5, 5, 5],
            converged: true,
        },
        MarchStepTestCase {
            grid_size: [10, 10, 10],
            from_coords: [5, 5, 5],
            dirs: vec![Direction3D::Up, Direction3D::Up, Direction3D::Up, Direction3D::Up],
            expected_coords: [5, 1, 5],
            converged: true,
        },
        MarchStepTestCase {
            grid_size: [3, 3, 3],
            from_coords: [1, 1, 1],
            dirs: vec![Direction3D::Up, Direction3D::Left, Direction3D::Higher],
            expected_coords: [0, 0, 0],
            converged: true,
        },
        MarchStepTestCase {
            grid_size: [3, 3, 3],
            from_coords: [0, 1, 1],
            dirs: vec![Direction3D::Left],
            expected_coords: [0, 1, 1],
            converged: false,
        },
        MarchStepTestCase {
            grid_size: [3, 3, 3],
            from_coords: [2, 1, 1],
            dirs: vec![Direction3D::Right],
            expected_coords: [2, 1, 1],
            converged: false,
        },
        MarchStepTestCase {
            grid_size: [3, 3, 3],
            from_coords: [1, 0, 1],
            dirs: vec![Direction3D::Up],
            expected_coords: [1, 0, 1],
            converged: false,
        },
        MarchStepTestCase {
            grid_size: [3, 3, 3],
            from_coords: [1, 2, 1],
            dirs: vec![Direction3D::Down],
            expected_coords: [1, 2, 1],
            converged: false,
        },
        MarchStepTestCase {
            grid_size: [3, 3, 3],
            from_coords: [1, 1, 0],
            dirs: vec![Direction3D::Higher],
            expected_coords: [1, 1, 0],
            converged: false,
        },
        MarchStepTestCase {
            grid_size: [3, 3, 3],
            from_coords: [1, 1, 2],
            dirs: vec![Direction3D::Lower],
            expected_coords: [1, 1, 2],
            converged: false,
        },
    ];
    march_step_test::<3, ThreeDim>(&cases);
}

#[test]
fn test_3d_direction_table() {
    let cases: Vec<Vec<(Direction3D, u32)>> = vec![
        vec![
            (Direction3D::Up, 22),
            (Direction3D::Down, 33),
            (Direction3D::Left, 44),
            (Direction3D::Right, 55),
            (Direction3D::Higher, 66),
            (Direction3D::Lower, 77),
        ],
        vec![(Direction3D::Up, 88), (Direction3D::Down, 99)],
    ];
    direction_table_test::<Direction3D, DirectionTable3D<u32>>(&cases);
}

#[test]
fn directions_are_numbered_in_order() {
    let all = Direction2D::all();
    assert_eq!(all, vec![Direction2D::Up, Direction2D::Down, Direction2D::Left, Direction2D::Right]);
    for (i, d) in all.iter().enumerate() {
        assert_eq!(d.as_idx(), i);
        assert_eq!(Direction2D::from_idx(i), *d);
    }
    let all = Direction3D::all();
    assert_eq!(all.len(), 6);
    for (i, d) in all.iter().enumerate() {
        assert_eq!(d.as_idx(), i);
        assert_eq!(Direction3D::from_idx(i), *d);
    }
    assert_eq!(Direction2D::primary(), vec![Direction2D::Left, Direction2D::Up]);
    assert_eq!(
        Direction3D::primary(),
        vec![Direction3D::Left, Direction3D::Up, Direction3D::Higher]
    );
}

#[test]
fn opposite_is_an_involution_and_steps_lead_back() {
    let size = GridSize2D::new(4, 3);
    for d in Direction2D::all() {
        assert_eq!(d.opposite().opposite(), d);
        assert_ne!(d.opposite(), d);
        for p in size.get_all_possible_positions() {
            if let Some(q) = d.march_step(&p, &size) {
                assert!(size.is_position_valid(&q));
                assert_eq!(d.opposite().march_step(&q, &size), Some(p));
            }
        }
    }
    let size = GridSize3D::new(3, 2, 4);
    for d in Direction3D::all() {
        assert_eq!(d.opposite().opposite(), d);
        for p in size.get_all_possible_positions() {
            if let Some(q) = d.march_step(&p, &size) {
                assert!(size.is_position_valid(&q));
                assert_eq!(d.opposite().march_step(&q, &size), Some(p));
            }
        }
    }
}

#[test]
fn march_step_stops_at_every_border() {
    let size = GridSize2D::new(5, 7);
    assert_eq!(Direction2D::Left.march_step(&GridPosition2D::new(0, 3), &size), None);
    assert_eq!(Direction2D::Up.march_step(&GridPosition2D::new(3, 0), &size), None);
    assert_eq!(Direction2D::Right.march_step(&GridPosition2D::new(4, 3), &size), None);
    assert_eq!(Direction2D::Down.march_step(&GridPosition2D::new(3, 6), &size), None);
    assert_eq!(
        Direction2D::Right.march_step(&GridPosition2D::new(3, 3), &size),
        Some(GridPosition2D::new(4, 3))
    );
    assert_eq!(
        Direction2D::Right.march_step(&GridPosition2D::new(u32::MAX, 0), &size),
        None
    );
    let size = GridSize3D::new(2, 2, 2);
    assert_eq!(Direction3D::Higher.march_step(&GridPosition3D::new(1, 1, 0), &size), None);
    assert_eq!(Direction3D::Lower.march_step(&GridPosition3D::new(1, 1, 1), &size), None);
    assert_eq!(
        Direction3D::Lower.march_step(&GridPosition3D::new(1, 1, 0), &size),
        Some(GridPosition3D::new(1, 1, 1))
    );
    let empty = GridSize2D::new(0, 0);
    assert_eq!(Direction2D::Down.march_step(&GridPosition2D::new(0, 0), &empty), None);
}
