use grid_forge::collapse::queue::position::{
    PositionQueue, PositionQueueDirection2D, PositionQueueDirection3D, PositionQueueProcession,
    PositionQueueProcession2D, PositionQueueProcession3D, PositionQueueStartingPoint2D,
    PositionQueueStartingPoint3D,
};
use grid_forge::position::GridPosition;
use grid_forge::three_d::{GridPosition3D, ThreeDim};
use grid_forge::two_d::{GridPosition2D, TwoDim};

fn check_ordering_2d(
    start: PositionQueueStartingPoint2D,
    dir: PositionQueueDirection2D,
    expected: &[[u32; 2]],
) {
    let comparator = PositionQueueProcession2D::cmp_fun(start, dir);
    let ul_coords = vec![0u32; 2];
    let ld_coords = vec![2u32; 2];
    let mut positions = GridPosition2D::generate_rect_area(
        &GridPosition2D::from_slice(&ul_coords),
        &GridPosition2D::from_slice(&ld_coords),
    );

    positions.sort_by(|a, b| comparator.compare(a, b));

    let mut expected_pos = Vec::new();
    for pos in expected {
        expected_pos.push(GridPosition2D::from_slice(pos));
    }

    assert_eq!(positions, expected_pos);
}

const UP_LEFT_ROWWISE: [[u32; 2]; 9] =
    [[0, 0], [1, 0], [2, 0], [0, 1], [1, 1], [2, 1], [0, 2], [1, 2], [2, 2]];

const UP_RIGHT_ROWWISE: [[u32; 2]; 9] =
    [[2, 0], [1, 0], [0, 0], [2, 1], [1, 1], [0, 1], [2, 2], [1, 2], [0, 2]];

const DOWN_LEFT_ROWWISE: [[u32; 2]; 9] =
    [[0, 2], [1, 2], [2, 2], [0, 1], [1, 1], [2, 1], [0, 0], [1, 0], [2, 0]];

const DOWN_RIGHT_ROWWISE: [[u32; 2]; 9] =
    [[2, 2], [1, 2], [0, 2], [2, 1], [1, 1], [0, 1], [2, 0], [1, 0], [0, 0]];

#[test]
fn mod_test_ordering_2d_up_left_rowwise() {
    check_ordering_2d(
        PositionQueueStartingPoint2D::UpLeft,
        PositionQueueDirection2D::Rowwise,
        &UP_LEFT_ROWWISE,
    );
}

#[test]
fn mod_test_ordering_2d_up_right_rowwise() {
    check_ordering_2d(
        PositionQueueStartingPoint2D::UpRight,
        PositionQueueDirection2D::Rowwise,
        &UP_RIGHT_ROWWISE,
    );
}

#[test]
fn mod_test_ordering_2d_down_left_rowwise() {
    check_ordering_2d(
        PositionQueueStartingPoint2D::DownLeft,
        PositionQueueDirection2D::Rowwise,
        &DOWN_LEFT_ROWWISE,
    );
}

#[test]
fn mod_test_ordering_2d_down_right_rowwise() {
    check_ordering_2d(
        PositionQueueStartingPoint2D::DownRight,
        PositionQueueDirection2D::Rowwise,
        &DOWN_RIGHT_ROWWISE,
    );
}

#[test]
fn two_d_test_ordering_2d_up_left_rowwise() {
    check_ordering_2d(
        PositionQueueStartingPoint2D::UpLeft,
        PositionQueueDirection2D::Rowwise,
        &UP_LEFT_ROWWISE,
    );
}

#[test]
fn two_d_test_ordering_2d_up_right_rowwise() {
    check_ordering_2d(
        PositionQueueStartingPoint2D::UpRight,
        PositionQueueDirection2D::Rowwise,
        &UP_RIGHT_ROWWISE,
    );
}

#[test]
fn two_d_test_ordering_2d_down_left_rowwise() {
    check_ordering_2d(
        PositionQueueStartingPoint2D::DownLeft,
        PositionQueueDirection2D::Rowwise,
        &DOWN_LEFT_ROWWISE,
    );
}

#[test]
fn two_d_test_ordering_2d_down_right_rowwise() {
    check_ordering_2d(
        PositionQueueStartingPoint2D::DownRight,
        PositionQueueDirection2D::Rowwise,
        &DOWN_RIGHT_ROWWISE,
    );
}

#[test]
fn columnwise_orders_are_the_mirror_images_of_each_other() {
    let area = GridPosition2D::generate_rect_area(
        &GridPosition2D::new(0, 0),
        &GridPosition2D::new(1, 1),
    );
    let sorted = |start, dir| {
        let comparator = PositionQueueProcession2D::cmp_fun(start, dir);
        let mut positions = area.clone();
        positions.sort_by(|a, b| comparator.compare(a, b));
        positions.iter().map(|p| (p.x(), p.y())).collect::<Vec<_>>()
    };
    assert_eq!(
        sorted(PositionQueueStartingPoint2D::UpLeft, PositionQueueDirection2D::Columnwise),
        vec![(0, 0), (0, 1), (1, 0), (1, 1)]
    );
    assert_eq!(
        sorted(PositionQueueStartingPoint2D::UpRight, PositionQueueDirection2D::Columnwise),
        vec![(1, 0), (1, 1), (0, 0), (0, 1)]
    );
    assert_eq!(
        sorted(PositionQueueStartingPoint2D::DownLeft, PositionQueueDirection2D::Columnwise),
        vec![(0, 1), (0, 0), (1, 1), (1, 0)]
    );
    assert_eq!(
        sorted(PositionQueueStartingPoint2D::DownRight, PositionQueueDirection2D::Columnwise),
        vec![(1, 1), (1, 0), (0, 1), (0, 0)]
    );
}

#[test]
fn orders_of_three_dimensions() {
    let area = GridPosition3D::generate_rect_area(
        &GridPosition3D::new(0, 0, 0),
        &GridPosition3D::new(1, 1, 1),
    );
    let sorted = |start, dir| {
        let comparator = PositionQueueProcession3D::cmp_fun(start, dir);
        let mut positions = area.clone();
        positions.sort_by(|a, b| comparator.compare(a, b));
        positions.iter().map(|p| (p.x(), p.y(), p.z())).collect::<Vec<_>>()
    };
    assert_eq!(
        sorted(PositionQueueStartingPoint3D::UpLeftFront, PositionQueueDirection3D::Rowwise),
        vec![
            (0, 0, 0),
            (1, 0, 0),
            (0, 1, 0),
            (1, 1, 0),
            (0, 0, 1),
            (1, 0, 1),
            (0, 1, 1),
            (1, 1, 1)
        ]
    );
    assert_eq!(
        sorted(PositionQueueStartingPoint3D::UpLeftFront, PositionQueueDirection3D::Columnwise),
        vec![
            (0, 0, 0),
            (0, 1, 0),
            (1, 0, 0),
            (1, 1, 0),
            (0, 0, 1),
            (0, 1, 1),
            (1, 0, 1),
            (1, 1, 1)
        ]
    );
    assert_eq!(
        sorted(PositionQueueStartingPoint3D::UpLeftFront, PositionQueueDirection3D::Heightwise),
        vec![
            (0, 0, 0),
            (0, 0, 1),
            (0, 1, 0),
            (0, 1, 1),
            (1, 0, 0),
            (1, 0, 1),
            (1, 1, 0),
            (1, 1, 1)
        ]
    );
    assert_eq!(
        sorted(PositionQueueStartingPoint3D::DownRightBack, PositionQueueDirection3D::Rowwise)[0],
        (1, 1, 1)
    );
    assert_eq!(
        sorted(PositionQueueStartingPoint3D::UpLeftBack, PositionQueueDirection3D::Rowwise)[0],
        (0, 0, 1)
    );
}

#[test]
fn position_queue_hands_out_in_its_order() {
    let procession = PositionQueueProcession2D::cmp_fun(
        PositionQueueStartingPoint2D::UpRight,
        PositionQueueDirection2D::Rowwise,
    );
    let mut queue: PositionQueue<TwoDim, PositionQueueProcession2D> = PositionQueue::new(procession);
    assert!(queue.is_empty());
    for x in 0..3 {
        for y in 0..3 {
            queue.update_queue(GridPosition2D::new(x, y));
        }
    }
    queue.update_queue(GridPosition2D::new(1, 1));
    assert_eq!(queue.len(), 9);
    let mut order = Vec::new();
    while let Some(p) = queue.get_next_position() {
        order.push([p.x(), p.y()]);
    }
    assert_eq!(order, UP_RIGHT_ROWWISE.to_vec());
    assert!(queue.is_empty());

    let procession = PositionQueueProcession3D::cmp_fun_default();
    let mut queue: PositionQueue<ThreeDim, PositionQueueProcession3D> =
        PositionQueue::new(procession);
    queue.update_queue(GridPosition3D::new(1, 0, 0));
    queue.update_queue(GridPosition3D::new(0, 0, 1));
    queue.update_queue(GridPosition3D::new(0, 1, 0));
    assert_eq!(queue.get_next_position(), Some(GridPosition3D::new(1, 0, 0)));
    assert_eq!(queue.get_next_position(), Some(GridPosition3D::new(0, 1, 0)));
    assert_eq!(queue.get_next_position(), Some(GridPosition3D::new(0, 0, 1)));
    assert_eq!(queue.get_next_position(), None);
}
