use grid_forge::id::BasicTypedData;
use grid_forge::map::GridMap;
use grid_forge::size::GridSize;
use grid_forge::three_d::{GridPosition3D, GridSize3D, ThreeDim};
use grid_forge::two_d::{GridPosition2D, GridSize2D, TwoDim};
use grid_forge::vector::{to_signed, to_unsigned, Vector2i};
use grid_forge::walker::{BuilderError, GridWalker, GridWalkerBuilder, WalkerField};
use rand::rngs::StdRng;
use rand::SeedableRng;

fn walker_2d(seed: u64, size: GridSize2D, min: usize, max: usize) -> GridWalker<TwoDim> {
    GridWalkerBuilder::<TwoDim>::default()
        .with_size(size)
        .with_rng(StdRng::seed_from_u64(seed))
        .with_min_step_size(min)
        .with_max_step_size(max)
        .build()
        .ok()
        .unwrap()
}

#[test]
fn builder_names_the_fields_that_are_missing() {
    let error = GridWalkerBuilder::<TwoDim>::default()
        .with_current_pos(GridPosition2D::new(0, 0))
        .build()
        .err()
        .unwrap();
    assert_eq!(error.missing_fields, vec![WalkerField::Size, WalkerField::Rng]);
    let error = GridWalkerBuilder::<TwoDim>::default()
        .with_size(GridSize2D::new(3, 3))
        .build()
        .err()
        .unwrap();
    assert_eq!(error.missing_fields, vec![WalkerField::Rng]);
    let error = GridWalkerBuilder::<TwoDim>::default()
        .with_current_pos(GridPosition2D::new(0, 0))
        .with_rng(StdRng::seed_from_u64(1))
        .build()
        .err()
        .unwrap();
    assert_eq!(error.missing_fields, vec![WalkerField::Size]);
    let mut own = BuilderError::new();
    assert!(own.clone().try_throw().is_ok());
    own.add_missing_field(WalkerField::Rng);
    assert_eq!(own.try_throw().err().unwrap().missing_fields, vec![WalkerField::Rng]);
}

#[test]
fn walker_starts_on_the_center_unless_told_otherwise() {
    let walker = walker_2d(3, GridSize2D::new(5, 7), 1, 1);
    assert_eq!(walker.current_pos(), GridPosition2D::new(2, 3));
    assert_eq!(walker.walked(), &vec![GridPosition2D::new(2, 3)]);
    assert_eq!(walker.current_iters(), 0);
    let walker = GridWalkerBuilder::<ThreeDim>::default()
        .with_size(GridSize3D::new(4, 4, 4))
        .with_rng(StdRng::seed_from_u64(3))
        .with_current_pos(GridPosition3D::new(1, 0, 3))
        .build()
        .ok()
        .unwrap();
    assert_eq!(walker.current_pos(), GridPosition3D::new(1, 0, 3));
    assert!(walker.has_walked(&GridPosition3D::new(1, 0, 3)));
    assert!(!walker.has_walked(&GridPosition3D::new(2, 2, 2)));
}

#[test]
fn a_step_size_of_one_leaves_the_walker_in_place() {
    let mut walker = walker_2d(5, GridSize2D::new(3, 3), 1, 1);
    for n in 1..=10u32 {
        assert!(walker.walk());
        assert_eq!(walker.current_iters(), n);
        assert_eq!(walker.current_pos(), GridPosition2D::new(1, 1));
    }
    assert_eq!(walker.walked().len(), 1);
}

#[test]
fn a_walk_marches_one_step_less_than_the_step_size() {
    for seed in 0..20u64 {
        let mut walker = walker_2d(seed, GridSize2D::new(5, 5), 3, 3);
        assert!(walker.walk());
        let end = walker.current_pos();
        let moved_x = end.x().abs_diff(2);
        let moved_y = end.y().abs_diff(2);
        assert!((moved_x == 2 && moved_y == 0) || (moved_x == 0 && moved_y == 2));
        assert_eq!(walker.walked().len(), 3);
        assert_eq!(walker.walked()[0], GridPosition2D::new(2, 2));
        assert_eq!(walker.walked()[2], end);
        let between = walker.walked()[1];
        assert_eq!(between.x().abs_diff(2) + between.y().abs_diff(2), 1);
        assert_eq!(between.x().abs_diff(end.x()) + between.y().abs_diff(end.y()), 1);
    }
}

#[test]
fn a_walk_that_would_leave_the_grid_is_not_made() {
    for seed in 0..20u64 {
        let mut walker = walker_2d(seed, GridSize2D::new(2, 2), 4, 4);
        assert!(!walker.walk());
        assert_eq!(walker.current_pos(), GridPosition2D::new(1, 1));
        assert_eq!(walker.walked(), &vec![GridPosition2D::new(1, 1)]);
        assert_eq!(walker.current_iters(), 1);
    }
}

#[test]
fn walked_positions_are_valid_and_held_once() {
    let size = GridSize2D::new(12, 9);
    let mut walker = walker_2d(42, size, 1, 4);
    let mut made = 0;
    for _ in 0..300 {
        let before = walker.current_pos();
        let walked_before = walker.walked().len();
        if walker.walk() {
            made += 1;
            let after = walker.current_pos();
            let moved = before.x().abs_diff(after.x()) + before.y().abs_diff(after.y());
            assert!(moved <= 3);
            assert!(before.x() == after.x() || before.y() == after.y());
            assert!(walker.walked().len() <= walked_before + 3);
        } else {
            assert_eq!(walker.current_pos(), before);
            assert_eq!(walker.walked().len(), walked_before);
        }
        assert!(walker.has_walked(&walker.current_pos()));
    }
    assert!(made > 100);
    assert_eq!(walker.current_iters(), 300);
    let walked = walker.walked();
    assert!(walked.len() > 10);
    for (i, position) in walked.iter().enumerate() {
        assert!(size.is_position_valid(position));
        for other in &walked[..i] {
            assert_ne!(other, position);
        }
    }
}

fn tile_of(position: GridPosition2D) -> BasicTypedData {
    BasicTypedData((position.x() + 10 * position.y()) as u64)
}

#[test]
fn walked_positions_become_the_tiles_of_a_map() {
    let size = GridSize2D::new(6, 6);
    let mut walker = walker_2d(9, size, 2, 3);
    for _ in 0..40 {
        walker.walk();
    }
    let map: GridMap<TwoDim, BasicTypedData> = walker.gen_grid_map(tile_of);
    assert_eq!(map.size(), &size);
    for position in size.get_all_possible_positions() {
        let expected = if walker.has_walked(&position) { Some(tile_of(position)) } else { None };
        assert_eq!(map.get_data_at_position(&position).copied(), expected);
    }
    assert_eq!(map.get_all_positions().len(), walker.walked().len());

    walker.set_current_pos(GridPosition2D::new(0, 5));
    assert_eq!(walker.current_pos(), GridPosition2D::new(0, 5));
    walker.reset();
    assert_eq!(walker.current_iters(), 0);
    assert_eq!(walker.walked().len(), 0);
    assert_eq!(walker.current_pos(), GridPosition2D::new(0, 5));
}

#[test]
fn signed_and_unsigned_coordinates_share_their_bits() {
    assert_eq!(to_unsigned(0), 0);
    assert_eq!(to_unsigned(17), 17);
    assert_eq!(to_unsigned(i32::MAX), 0x7fff_ffff);
    assert_eq!(to_unsigned(-1), u32::MAX);
    assert_eq!(to_unsigned(i32::MIN), 0x8000_0000);
    assert_eq!(to_signed(0), 0);
    assert_eq!(to_signed(0x7fff_ffff), i32::MAX);
    assert_eq!(to_signed(0x8000_0000), i32::MIN);
    assert_eq!(to_signed(u32::MAX), -1);
    for value in [-70_000i32, -3, 0, 5, 1_000_000] {
        assert_eq!(to_unsigned(value), value as u32);
        assert_eq!(to_signed(to_unsigned(value)), value);
    }
}

#[test]
fn positions_go_to_vectors_and_back() {
    let position = GridPosition2D::from_godot_v2i(Vector2i { x: 3, y: 8 });
    assert_eq!(position, GridPosition2D::new(3, 8));
    assert_eq!(position.get_godot_coords(), Vector2i { x: 3, y: 8 });
    assert_eq!(position.get_godot_layer(), None);
    let layered = GridPosition3D::from_godot_v2i_layer(Vector2i { x: 1, y: 2 }, 5);
    assert_eq!(layered, GridPosition3D::new(1, 2, 5));
    assert_eq!(layered.get_godot_coords(), Vector2i { x: 1, y: 2 });
    assert_eq!(layered.get_godot_layer(), Some(5));
    let wrapped = GridPosition2D::from_godot_v2i(Vector2i { x: -1, y: 0 });
    assert_eq!(wrapped, GridPosition2D::new(u32::MAX, 0));
    assert_eq!(wrapped.get_godot_coords(), Vector2i { x: -1, y: 0 });
}

#[test]
fn a_builder_by_default_has_step_sizes_of_one() {
    let builder = GridWalkerBuilder::<TwoDim>::default();
    assert_eq!(builder.min_step_size, 1);
    assert_eq!(builder.max_step_size, 1);
    assert!(builder.size.is_none());
    assert!(builder.rng.is_none());
    assert!(builder.current_pos.is_none());
}
