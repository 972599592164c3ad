use grid_forge::collapse::error::CollapseErrorKind;
use grid_forge::collapse::grid::{CollapsedGrid, CollapsibleTileGrid};
use grid_forge::collapse::queue::position::{
    PositionQueue, PositionQueueDirection2D, PositionQueueProcession2D,
    PositionQueueStartingPoint2D,
};
use grid_forge::collapse::resolver::Resolver;
use grid_forge::collapse::rules::{AdjacencyRules, FrequencyHints};
use grid_forge::collapse::subscriber::{CollapseHistorySubscriber, Subscriber};
use grid_forge::collapse::tile::CollapsedTileData;
use grid_forge::direction::Direction;
use grid_forge::size::GridSize;
use grid_forge::three_d::{Direction3D, GridPosition3D, GridSize3D, ThreeDim};
use grid_forge::two_d::{Direction2D, GridPosition2D, GridSize2D, TwoDim};
use rand::rngs::StdRng;
use rand::SeedableRng;

fn rules_2d(pairs: &[(u64, Direction2D, u64)]) -> AdjacencyRules<TwoDim> {
    let mut rules = AdjacencyRules::new();
    for (a, d, b) in pairs {
        rules.add_adjacency_raw(*a, *b, *d);
        rules.add_adjacency_raw(*b, *a, d.opposite());
    }
    rules
}

fn weights(pairs: &[(u64, u32)]) -> FrequencyHints {
    let mut hints = FrequencyHints::new();
    for (id, w) in pairs {
        hints.set_weight(*id, *w);
    }
    hints
}

fn tile_at_2d(grid: &CollapsibleTileGrid<TwoDim>, x: u32, y: u32) -> Option<u64> {
    let collapsed = grid.retrieve_collapsed();
    collapsed
        .grid()
        .get_data_at_position(&GridPosition2D::new(x, y))
        .map(|d| d.tile_type_id)
}

#[test]
fn checkerboard_has_two_phases() {
    let mut pairs = Vec::new();
    for d in Direction2D::all() {
        pairs.push((0u64, d, 1u64));
    }
    let rules = rules_2d(&pairs);
    let hints = weights(&[(0, 1), (1, 1)]);
    let size = GridSize2D::new(4, 4);
    let positions = size.get_all_possible_positions();
    let mut phases = [0usize; 2];
    for seed in 0..40u64 {
        let mut rng = StdRng::seed_from_u64(seed);
        let mut grid = CollapsibleTileGrid::<TwoDim>::new_empty(size, &hints, &rules);
        let mut resolver = Resolver::<TwoDim, ()>::new();
        match resolver.generate_entrophy(&mut grid, &mut rng, &positions) {
            Ok(()) => {
                let first = tile_at_2d(&grid, 0, 0).unwrap();
                phases[first as usize] += 1;
                for p in &positions {
                    let expected = (first + (p.x() + p.y()) as u64) % 2;
                    assert_eq!(tile_at_2d(&grid, p.x(), p.y()), Some(expected));
                }
            }
            Err(error) => {
                assert!(error.is_probabilistic());
                assert_eq!(error.kind, CollapseErrorKind::Collapse);
                assert!(error.failed_iter() >= 1);
            }
        }
    }
    assert!(phases[0] > 0 && phases[1] > 0);
}

#[test]
fn incompatible_seeds_fail_at_the_start() {
    let mut pairs = vec![
        (0u64, Direction2D::Right, 1u64),
        (1, Direction2D::Right, 2),
        (2, Direction2D::Right, 0),
    ];
    for id in 0..3u64 {
        pairs.push((id, Direction2D::Down, id));
    }
    let rules = rules_2d(&pairs);
    let hints = weights(&[(0, 1), (1, 1), (2, 1)]);
    let size = GridSize2D::new(3, 1);
    let mut grid = CollapsibleTileGrid::<TwoDim>::new_empty(size, &hints, &rules);
    assert!(grid.insert_collapsed(&GridPosition2D::new(0, 0), CollapsedTileData::new(0)));
    assert!(grid.insert_collapsed(&GridPosition2D::new(2, 0), CollapsedTileData::new(1)));
    let mut rng = StdRng::seed_from_u64(7);
    let mut resolver = Resolver::<TwoDim, ()>::new();
    let error = resolver
        .generate_entrophy(&mut grid, &mut rng, &[GridPosition2D::new(1, 0)])
        .unwrap_err();
    assert_eq!(error.failed_pos(), GridPosition2D::new(1, 0));
    assert_eq!(error.kind, CollapseErrorKind::Init);
    assert_eq!(error.failed_iter(), 0);
    assert!(!error.is_probabilistic());
    // the seeds are as they were
    assert_eq!(tile_at_2d(&grid, 0, 0), Some(0));
    assert_eq!(tile_at_2d(&grid, 2, 0), Some(1));
    assert_eq!(tile_at_2d(&grid, 1, 0), None);
}

#[test]
fn alternating_tiles_in_three_dimensions() {
    let mut rules = AdjacencyRules::<ThreeDim>::new();
    for d in Direction3D::all() {
        rules.add_adjacency_raw(7, 8, d);
        rules.add_adjacency_raw(8, 7, d);
    }
    let hints = weights(&[(7, 1), (8, 1)]);
    let size = GridSize3D::new(2, 2, 2);
    let mut grid = CollapsibleTileGrid::<ThreeDim>::new_empty(size, &hints, &rules);
    assert!(grid.insert_collapsed(&GridPosition3D::new(0, 0, 0), CollapsedTileData::new(7)));
    let positions: Vec<GridPosition3D> = size
        .get_all_possible_positions()
        .into_iter()
        .filter(|p| *p != GridPosition3D::new(0, 0, 0))
        .collect();
    let mut rng = StdRng::seed_from_u64(3);
    let mut resolver =
        Resolver::<ThreeDim, CollapseHistorySubscriber<ThreeDim>>::new().with_subscriber(
            CollapseHistorySubscriber::new(),
        );
    resolver.generate_entrophy(&mut grid, &mut rng, &positions).unwrap();
    let history = resolver.retrieve_subscriber().unwrap();
    assert_eq!(history.history().len(), 7);
    let collapsed = grid.retrieve_collapsed();
    for p in size.get_all_possible_positions() {
        let expected = if (p.x() + p.y() + p.z()) % 2 == 0 { 7 } else { 8 };
        assert_eq!(
            collapsed.grid().get_data_at_position(&p).map(|d| d.tile_type_id),
            Some(expected)
        );
    }
    assert_eq!(collapsed.tile_type_ids(), &vec![7, 8]);
}

#[test]
fn position_queue_collapses_in_its_order() {
    let mut pairs = Vec::new();
    for d in Direction2D::all() {
        pairs.push((0u64, d, 0u64));
    }
    let rules = rules_2d(&pairs);
    let hints = weights(&[(0, 1)]);
    let size = GridSize2D::new(3, 3);
    let mut grid = CollapsibleTileGrid::<TwoDim>::new_empty(size, &hints, &rules);
    let queue = PositionQueue::new(PositionQueueProcession2D::cmp_fun(
        PositionQueueStartingPoint2D::UpRight,
        PositionQueueDirection2D::Rowwise,
    ));
    let mut rng = StdRng::seed_from_u64(1);
    let mut resolver =
        Resolver::<TwoDim, CollapseHistorySubscriber<TwoDim>>::new().with_subscriber(
            CollapseHistorySubscriber::new(),
        );
    resolver
        .generate_position(&mut grid, &mut rng, &size.get_all_possible_positions(), queue)
        .unwrap();
    let history = resolver.retrieve_subscriber().unwrap();
    let order: Vec<(u32, u32)> =
        history.history().iter().map(|item| (item.position.x(), item.position.y())).collect();
    assert_eq!(
        order,
        vec![(2, 0), (1, 0), (0, 0), (2, 1), (1, 1), (0, 1), (2, 2), (1, 2), (0, 2)]
    );
    assert!(history.history().iter().all(|item| item.tile_type_id == 0));
}

#[test]
fn weights_decide_how_often_an_option_is_drawn() {
    let mut pairs = Vec::new();
    for d in Direction2D::all() {
        pairs.push((0u64, d, 0u64));
        pairs.push((0u64, d, 1u64));
        pairs.push((1u64, d, 1u64));
    }
    let rules = rules_2d(&pairs);
    let hints = weights(&[(0, 1), (1, 99)]);
    let size = GridSize2D::new(10, 10);
    let positions = size.get_all_possible_positions();
    let mut ones = 0usize;
    let mut cells = 0usize;
    for seed in 0..60u64 {
        let mut rng = StdRng::seed_from_u64(1000 + seed);
        let mut grid = CollapsibleTileGrid::<TwoDim>::new_empty(size, &hints, &rules);
        let mut resolver = Resolver::<TwoDim, ()>::new();
        resolver.generate_entrophy(&mut grid, &mut rng, &positions).unwrap();
        let collapsed = grid.retrieve_collapsed();
        for p in &positions {
            cells += 1;
            if collapsed.grid().get_data_at_position(p).unwrap().tile_type_id == 1 {
                ones += 1;
            }
        }
    }
    let n = cells as f64;
    let share = ones as f64 / n;
    let sigma = (0.99f64 * 0.01 / n).sqrt();
    assert!((share - 0.99).abs() <= 3.0 * sigma, "share of ones: {share}");
}

#[test]
fn removals_cascade_along_a_row() {
    // tile 1 stands beside itself only; tile 2 stands beside itself and
    // beside tile 3; tile 3 stands beside tile 2 and beside itself
    const A: u64 = 1;
    const B: u64 = 2;
    const C: u64 = 3;
    let mut pairs = vec![
        (A, Direction2D::Right, A),
        (B, Direction2D::Right, B),
        (C, Direction2D::Right, B),
        (B, Direction2D::Right, C),
        (C, Direction2D::Right, C),
    ];
    for id in [A, B, C] {
        pairs.push((id, Direction2D::Down, id));
    }
    let rules = rules_2d(&pairs);
    let hints = weights(&[(A, 1), (B, 1), (C, 1)]);
    let size = GridSize2D::new(5, 1);
    let mut grid = CollapsibleTileGrid::<TwoDim>::new_empty(size, &hints, &rules);
    assert!(grid.insert_collapsed(&GridPosition2D::new(0, 0), CollapsedTileData::new(A)));
    let positions: Vec<GridPosition2D> = (1..5).map(|x| GridPosition2D::new(x, 0)).collect();
    let mut rng = StdRng::seed_from_u64(11);
    let mut resolver =
        Resolver::<TwoDim, CollapseHistorySubscriber<TwoDim>>::new().with_subscriber(
            CollapseHistorySubscriber::new(),
        );
    resolver.generate_entrophy(&mut grid, &mut rng, &positions).unwrap();
    let row: Vec<Option<u64>> = (0..5).map(|x| tile_at_2d(&grid, x, 0)).collect();
    assert_eq!(row, vec![Some(A); 5]);
    let history = resolver.retrieve_subscriber().unwrap();
    assert_eq!(history.history().len(), 4);
    assert!(history.history().iter().all(|item| item.tile_type_id == A));
}

#[test]
fn a_grid_goes_to_collapsible_and_back() {
    let mut pairs = Vec::new();
    for d in Direction2D::all() {
        pairs.push((4u64, d, 9u64));
    }
    let rules = rules_2d(&pairs);
    let hints = weights(&[(4, 2), (9, 3)]);
    let mut collapsed = CollapsedGrid::<TwoDim>::new(&GridSize2D::new(3, 2));
    assert!(collapsed.insert_data(&GridPosition2D::new(0, 0), CollapsedTileData::new(9)));
    assert!(collapsed.insert_data(&GridPosition2D::new(2, 1), CollapsedTileData::new(4)));
    assert!(!collapsed.insert_data(&GridPosition2D::new(3, 1), CollapsedTileData::new(4)));
    let grid = CollapsibleTileGrid::new_from_collapsed(&collapsed, &hints, &rules).unwrap();
    let back = grid.retrieve_collapsed();
    assert_eq!(back.grid().size(), collapsed.grid().size());
    for p in GridSize2D::new(3, 2).get_all_possible_positions() {
        assert_eq!(
            back.grid().get_data_at_position(&p),
            collapsed.grid().get_data_at_position(&p)
        );
    }
    assert_eq!(back.tile_type_ids(), &vec![4, 9]);
    assert_eq!(grid.retrieve_positions(true), vec![GridPosition2D::new(0, 0), GridPosition2D::new(2, 1)]);
    assert!(grid.retrieve_positions(false).is_empty());
    assert_eq!(grid.empty_positions().len(), 4);
}

#[test]
fn a_grid_with_unknown_tile_types_is_refused() {
    let rules = rules_2d(&[(4, Direction2D::Right, 9)]);
    let hints = weights(&[(4, 2), (9, 3)]);
    let mut collapsed = CollapsedGrid::<TwoDim>::new(&GridSize2D::new(2, 2));
    collapsed.insert_tiles(&[
        (GridPosition2D::new(0, 0), CollapsedTileData::new(9)),
        (GridPosition2D::new(1, 0), CollapsedTileData::new(77)),
        (GridPosition2D::new(1, 1), CollapsedTileData::new(5)),
    ]);
    let error = match CollapsibleTileGrid::new_from_collapsed(&collapsed, &hints, &rules) {
        Ok(_) => panic!("the grid holds tile types without weight"),
        Err(error) => error,
    };
    assert_eq!(error.missing_type_ids(), &Some(vec![5, 77]));
    assert_eq!(error.sizes(), &None);
    assert_eq!(error.position(), &None);

    let mut small = CollapsibleTileGrid::<TwoDim>::new_empty(GridSize2D::new(1, 2), &hints, &rules);
    let mut fitting = CollapsedGrid::<TwoDim>::new(&GridSize2D::new(2, 2));
    fitting.insert_data(&GridPosition2D::new(0, 0), CollapsedTileData::new(9));
    let error = small.populate_from_collapsed(&fitting).unwrap_err();
    assert_eq!(error.sizes(), &Some((GridSize2D::new(2, 2), GridSize2D::new(1, 2))));
    assert_eq!(error.missing_type_ids(), &None);
    assert!(small.grid().get_all_positions().is_empty());
}

fn collapsed_among(grid: &CollapsibleTileGrid<TwoDim>, positions: &[GridPosition2D]) -> usize {
    positions.iter().filter(|p| tile_at_2d(grid, p.x(), p.y()).is_some()).count()
}

fn ring_rules() -> AdjacencyRules<TwoDim> {
    // Three tile types in a ring: each lets only its successor stand to its
    // right. Above and below anything goes.
    let mut pairs = vec![
        (0u64, Direction2D::Right, 1u64),
        (1, Direction2D::Right, 2),
        (2, Direction2D::Right, 0),
    ];
    for a in 0..3u64 {
        for b in 0..3u64 {
            pairs.push((a, Direction2D::Down, b));
        }
    }
    rules_2d(&pairs)
}

#[test]
fn a_failed_run_in_order_tells_how_many_cells_were_collapsed() {
    let rules = ring_rules();
    let hints = weights(&[(0, 1), (1, 1), (2, 1)]);
    let size = GridSize2D::new(4, 1);
    let positions: Vec<GridPosition2D> = (0..3).map(|x| GridPosition2D::new(x, 0)).collect();
    let mut failed = 0;
    let mut passed = 0;
    for seed in 0..60u64 {
        let mut rng = StdRng::seed_from_u64(seed);
        let mut grid = CollapsibleTileGrid::<TwoDim>::new_empty(size, &hints, &rules);
        assert!(grid.insert_collapsed(&GridPosition2D::new(3, 0), CollapsedTileData::new(0)));
        let queue = PositionQueue::new(PositionQueueProcession2D::cmp_fun(
            PositionQueueStartingPoint2D::UpLeft,
            PositionQueueDirection2D::Rowwise,
        ));
        let mut resolver = Resolver::<TwoDim, ()>::default();
        match resolver.generate_position(&mut grid, &mut rng, &positions, queue) {
            Ok(()) => {
                passed += 1;
                assert_eq!(tile_at_2d(&grid, 0, 0), Some(0));
                assert_eq!(tile_at_2d(&grid, 1, 0), Some(1));
                assert_eq!(tile_at_2d(&grid, 2, 0), Some(2));
            }
            Err(error) => {
                failed += 1;
                assert_eq!(error.kind, CollapseErrorKind::Collapse);
                assert_eq!(error.failed_pos(), GridPosition2D::new(2, 0));
                assert_eq!(error.failed_iter(), 2);
                assert_eq!(collapsed_among(&grid, &positions), 2);
                assert_ne!(tile_at_2d(&grid, 0, 0), Some(0));
                assert_eq!(tile_at_2d(&grid, 3, 0), Some(0));
            }
        }
    }
    assert!(passed > 5);
    assert!(failed > 20);
}

#[test]
fn the_number_of_collapses_before_a_contradiction_is_exact() {
    // Tiles 0, 1 and 2 cannot fill a square of four cells: from each of
    // them the way right and then down ends on another tile than the way
    // down and then right. Tile 3 goes beside itself, and lets 0 stand to
    // its right.
    let rules = rules_2d(&[
        (0, Direction2D::Right, 1),
        (1, Direction2D::Right, 0),
        (2, Direction2D::Right, 2),
        (0, Direction2D::Down, 2),
        (2, Direction2D::Down, 0),
        (1, Direction2D::Down, 1),
        (3, Direction2D::Right, 3),
        (3, Direction2D::Down, 3),
        (3, Direction2D::Right, 0),
    ]);
    let hints = weights(&[(0, 1), (1, 1), (2, 1), (3, 6)]);
    let size = GridSize2D::new(4, 4);
    let positions = size.get_all_possible_positions();
    let mut passed = 0;
    let mut collapse = 0;
    let mut propagation = 0;
    for seed in 0..80u64 {
        let mut rng = StdRng::seed_from_u64(seed);
        let mut grid = CollapsibleTileGrid::<TwoDim>::new_empty(size, &hints, &rules);
        let mut resolver = Resolver::<TwoDim, ()>::new();
        match resolver.generate_entrophy(&mut grid, &mut rng, &positions) {
            Ok(()) => {
                passed += 1;
                assert_eq!(collapsed_among(&grid, &positions), 16);
            }
            Err(error) => {
                let collapsed = collapsed_among(&grid, &positions);
                match error.kind {
                    CollapseErrorKind::Propagation => {
                        propagation += 1;
                        assert_eq!(collapsed, error.failed_iter() as usize + 1);
                    }
                    CollapseErrorKind::Collapse => {
                        collapse += 1;
                        assert_eq!(collapsed, error.failed_iter() as usize);
                    }
                    CollapseErrorKind::Init => panic!("no cell was there at the start"),
                }
                assert!(tile_at_2d(&grid, error.failed_pos().x(), error.failed_pos().y()).is_none());
            }
        }
    }
    assert!(passed > 20);
    assert!(propagation > 10);
    assert_eq!(collapse, 0);
    assert_eq!(passed + propagation, 80);
}

struct CountingSubscriber {
    starts: usize,
    collapses: Vec<(GridPosition2D, u64)>,
}

impl Subscriber<TwoDim> for CountingSubscriber {
    fn on_generation_start(&mut self) {
        self.starts += 1;
    }

    fn on_collapse(&mut self, position: &GridPosition2D, tile_type_id: u64) {
        self.collapses.push((*position, tile_type_id));
    }
}

#[test]
fn a_subscriber_is_told_of_the_start_and_of_each_collapse() {
    let mut pairs = Vec::new();
    for d in Direction2D::all() {
        pairs.push((0u64, d, 1u64));
    }
    let rules = rules_2d(&pairs);
    let hints = weights(&[(0, 1), (1, 1)]);
    let size = GridSize2D::new(3, 3);
    let positions = size.get_all_possible_positions();
    let mut rng = StdRng::seed_from_u64(4);
    let mut grid = CollapsibleTileGrid::<TwoDim>::new_empty(size, &hints, &rules);
    let mut resolver = Resolver::<TwoDim, CountingSubscriber>::new()
        .with_subscriber(CountingSubscriber { starts: 0, collapses: Vec::new() });
    assert!(resolver.generate_entrophy(&mut grid, &mut rng, &positions).is_ok());
    let told = resolver.retrieve_subscriber().unwrap();
    assert!(resolver.retrieve_subscriber().is_none());
    assert_eq!(told.starts, 1);
    assert_eq!(told.collapses.len(), 9);
    for (position, tile_type_id) in &told.collapses {
        assert_eq!(tile_at_2d(&grid, position.x(), position.y()), Some(*tile_type_id));
    }
    for (k, (position, _)) in told.collapses.iter().enumerate() {
        for (other, _) in &told.collapses[..k] {
            assert_ne!(other, position);
        }
    }

    let mut history = Resolver::<TwoDim, CollapseHistorySubscriber<TwoDim>>::new()
        .with_subscriber(CollapseHistorySubscriber::new());
    for seed in [7u64, 8] {
        let mut rng = StdRng::seed_from_u64(seed);
        let mut grid = CollapsibleTileGrid::<TwoDim>::new_empty(size, &hints, &rules);
        assert!(history.generate_entrophy(&mut grid, &mut rng, &positions).is_ok());
    }
    let record = history.retrieve_subscriber().unwrap();
    assert_eq!(record.history().len(), 9);
}

#[test]
fn a_table_that_permits_everything_never_fails() {
    let mut pairs = Vec::new();
    for d in Direction2D::all() {
        for a in 0..3u64 {
            for b in 0..3u64 {
                pairs.push((a, d, b));
            }
        }
    }
    let rules = rules_2d(&pairs);
    let hints = weights(&[(0, 1), (1, 2), (2, 3)]);
    let size = GridSize2D::new(5, 4);
    let all = size.get_all_possible_positions();
    let positions: Vec<GridPosition2D> =
        all.iter().copied().filter(|p| !(p.x() == 2 && p.y() == 2)).collect();
    for seed in 0..25u64 {
        let mut rng = StdRng::seed_from_u64(seed);
        let mut grid = CollapsibleTileGrid::<TwoDim>::new_empty(size, &hints, &rules);
        assert!(grid.insert_collapsed(&GridPosition2D::new(2, 2), CollapsedTileData::new(1)));
        let mut resolver = Resolver::<TwoDim, ()>::new();
        assert!(resolver.generate_entrophy(&mut grid, &mut rng, &positions).is_ok());
        assert_eq!(grid.retrieve_positions(true).len(), 20);
        assert_eq!(tile_at_2d(&grid, 2, 2), Some(1));

        let mut rng = StdRng::seed_from_u64(seed);
        let mut grid = CollapsibleTileGrid::<TwoDim>::new_empty(size, &hints, &rules);
        assert!(grid.insert_collapsed(&GridPosition2D::new(2, 2), CollapsedTileData::new(1)));
        let queue = PositionQueue::new(PositionQueueProcession2D::cmp_fun(
            PositionQueueStartingPoint2D::DownRight,
            PositionQueueDirection2D::Columnwise,
        ));
        let mut resolver = Resolver::<TwoDim, CollapseHistorySubscriber<TwoDim>>::new()
            .with_subscriber(CollapseHistorySubscriber::new());
        assert!(resolver.generate_position(&mut grid, &mut rng, &positions, queue).is_ok());
        let told = resolver.retrieve_subscriber().unwrap();
        assert_eq!(told.history().len(), 19);
        for pair in told.history().windows(2) {
            let (a, b) = (pair[0].position, pair[1].position);
            assert!(a.x() > b.x() || (a.x() == b.x() && a.y() > b.y()));
        }
    }
}

#[test]
fn a_table_without_possible_options_fails_at_the_first_cell() {
    // Nothing may stand above or below anything: no option is possible.
    let rules = rules_2d(&[(0, Direction2D::Right, 1), (1, Direction2D::Right, 0)]);
    let hints = weights(&[(0, 1), (1, 1)]);
    let size = GridSize2D::new(3, 2);
    let positions = size.get_all_possible_positions();
    for seed in 0..10u64 {
        let mut rng = StdRng::seed_from_u64(seed);
        let mut grid = CollapsibleTileGrid::<TwoDim>::new_empty(size, &hints, &rules);
        assert_eq!(grid.option_data().possible_options_count(), 0);
        let mut resolver = Resolver::<TwoDim, CollapseHistorySubscriber<TwoDim>>::new()
            .with_subscriber(CollapseHistorySubscriber::new());
        let error = resolver.generate_entrophy(&mut grid, &mut rng, &positions).unwrap_err();
        assert_eq!(error.kind, CollapseErrorKind::Collapse);
        assert_eq!(error.failed_iter(), 0);
        assert!(!error.is_probabilistic() || error.kind == CollapseErrorKind::Collapse);
        assert_eq!(grid.retrieve_positions(true).len(), 0);
        assert_eq!(grid.retrieve_positions(false).len(), 6);
        assert_eq!(resolver.retrieve_subscriber().unwrap().history().len(), 0);
    }
}
