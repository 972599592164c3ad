use grid_forge::builders::{IdentTileBuilder, IdentTileCloneBuilder, IdentTileFunBuilder};
use grid_forge::collapse::analyzer::{AdjacencyAnalyzer, AdjacencyIdentityAnalyzer};
use grid_forge::collapse::border::AdjacencyBorderAnalyzer;
use grid_forge::collapse::entropy::{entropy, log2_scaled, ENTROPY_SCALE, NOISE_RANGE};
use grid_forge::collapse::error::{CollapseError, CollapseErrorKind, CollapsibleGridError};
use grid_forge::collapse::grid::{CollapsedGrid, CollapsibleTileGrid};
use grid_forge::collapse::option::OptionWeights;
use grid_forge::collapse::queue::entrophy::EntrophyQueue;
use grid_forge::collapse::rules::{AdjacencyRules, FrequencyHints};
use grid_forge::collapse::table::PerOptionData;
use grid_forge::collapse::tile::{CollapsedTileData, CollapsibleTile};
use grid_forge::direction::Direction;
use grid_forge::id::{contains_sorted, insert_sorted, lower_bound, BasicTypedData, IdMap};
use grid_forge::map::GridMap;
use grid_forge::position::lex_less;
use grid_forge::size::GridSize;
use grid_forge::three_d::GridPosition3D;
use grid_forge::two_d::{Direction2D, GridPosition2D, GridSize2D, TwoDim};
use rand::rngs::StdRng;
use rand::SeedableRng;

fn sample_map(width: u32, height: u32, rows: &[&[u64]]) -> GridMap<TwoDim, BasicTypedData> {
    let mut map = GridMap::new(GridSize2D::new(width, height));
    for (y, row) in rows.iter().enumerate() {
        for (x, id) in row.iter().enumerate() {
            if *id != 0 {
                assert!(map.insert_data(
                    &GridPosition2D::new(x as u32, y as u32),
                    BasicTypedData(*id)
                ));
            }
        }
    }
    map
}

#[test]
fn identity_analysis_records_each_pair_of_neighbours() {
    let map = sample_map(2, 2, &[&[1, 2], &[3, 0]]);
    let mut analyzer = AdjacencyIdentityAnalyzer::<TwoDim>::new();
    analyzer.analyze(&map);
    let rules = analyzer.adjacency();
    assert!(rules.is_valid_raw(1, 2, Direction2D::Right));
    assert!(rules.is_valid_raw(2, 1, Direction2D::Left));
    assert!(rules.is_valid_raw(1, 3, Direction2D::Down));
    assert!(rules.is_valid_raw(3, 1, Direction2D::Up));
    assert!(!rules.is_valid_raw(2, 1, Direction2D::Right));
    assert!(!rules.is_valid_raw(1, 2, Direction2D::Left));
    assert!(!rules.is_valid_raw(2, 3, Direction2D::Left));
    assert!(!rules.is_valid_raw(3, 2, Direction2D::Right));
    assert!(!rules.is_valid_raw(1, 1, Direction2D::Right));
    assert_eq!(analyzer.tiles(), &vec![1, 2, 3]);
}

#[test]
fn identity_analysis_keeps_earlier_rules() {
    let mut analyzer = AdjacencyIdentityAnalyzer::<TwoDim>::new();
    analyzer.analyze(&sample_map(2, 1, &[&[1, 2]]));
    analyzer.analyze(&sample_map(2, 1, &[&[5, 6]]));
    let rules = analyzer.adjacency();
    assert!(rules.is_valid_raw(1, 2, Direction2D::Right));
    assert!(rules.is_valid_raw(5, 6, Direction2D::Right));
    assert!(!rules.is_valid_raw(1, 6, Direction2D::Right));
    assert_eq!(analyzer.tiles(), &vec![1, 2, 5, 6]);
}

#[test]
fn identity_rules_have_their_mirror_images() {
    let map = sample_map(3, 3, &[&[1, 2, 3], &[4, 1, 2], &[3, 4, 1]]);
    let mut analyzer = AdjacencyIdentityAnalyzer::<TwoDim>::new();
    analyzer.analyze(&map);
    let rules = analyzer.adjacency();
    for a in 1..=4u64 {
        for b in 1..=4u64 {
            for d in Direction2D::all() {
                assert_eq!(
                    rules.is_valid_raw(a, b, d),
                    rules.is_valid_raw(b, a, d.opposite())
                );
            }
        }
    }
}

#[test]
fn border_analysis_joins_tiles_through_a_shared_border() {
    // 1 and 3 have both been seen left of 2; 4 has been seen right of 1.
    // So 4 shares its left border with 2, and may stand right of 3 as well.
    let mut analyzer = AdjacencyBorderAnalyzer::<TwoDim>::new();
    analyzer.analyze(&sample_map(5, 3, &[&[1, 2, 0, 0, 0], &[0, 0, 3, 2, 0], &[1, 4, 0, 0, 0]]));
    let rules = analyzer.adjacency();
    assert!(rules.is_valid_raw(1, 2, Direction2D::Right));
    assert!(rules.is_valid_raw(3, 2, Direction2D::Right));
    assert!(rules.is_valid_raw(1, 4, Direction2D::Right));
    assert!(rules.is_valid_raw(3, 4, Direction2D::Right));
    assert!(rules.is_valid_raw(4, 3, Direction2D::Left));
    assert!(rules.is_valid_raw(2, 3, Direction2D::Left));
    assert!(!rules.is_valid_raw(2, 1, Direction2D::Right));
    assert!(!rules.is_valid_raw(4, 3, Direction2D::Right));
    assert!(!rules.is_valid_raw(1, 3, Direction2D::Right));

    let mut identity = AdjacencyIdentityAnalyzer::<TwoDim>::new();
    identity.analyze(&sample_map(5, 3, &[&[1, 2, 0, 0, 0], &[0, 0, 3, 2, 0], &[1, 4, 0, 0, 0]]));
    assert!(!identity.adjacency().is_valid_raw(3, 4, Direction2D::Right));
}

#[test]
fn border_rules_hold_every_identity_rule() {
    let map = sample_map(3, 3, &[&[1, 2, 3], &[4, 1, 2], &[3, 4, 1]]);
    let mut identity = AdjacencyIdentityAnalyzer::<TwoDim>::new();
    identity.analyze(&map);
    let mut border = AdjacencyBorderAnalyzer::<TwoDim>::new();
    border.analyze(&map);
    for a in 1..=4u64 {
        for b in 1..=4u64 {
            for d in Direction2D::all() {
                if identity.adjacency().is_valid_raw(a, b, d) {
                    assert!(border.adjacency().is_valid_raw(a, b, d));
                }
                assert_eq!(
                    border.adjacency().is_valid_raw(a, b, d),
                    border.adjacency().is_valid_raw(b, a, d.opposite())
                );
            }
        }
    }
}

#[test]
fn border_analysis_merges_two_borders_into_one() {
    let mut analyzer = AdjacencyBorderAnalyzer::<TwoDim>::new();
    analyzer.add_adjacency_raw(1, 2, Direction2D::Right);
    analyzer.add_adjacency_raw(3, 4, Direction2D::Right);
    assert_ne!(
        analyzer.get_border_id(1, Direction2D::Right),
        analyzer.get_border_id(3, Direction2D::Right)
    );
    analyzer.add_adjacency_raw(1, 4, Direction2D::Right);
    let merged = analyzer.get_border_id(1, Direction2D::Right);
    assert!(merged.is_some());
    assert_eq!(analyzer.get_border_id(2, Direction2D::Left), merged);
    assert_eq!(analyzer.get_border_id(3, Direction2D::Right), merged);
    assert_eq!(analyzer.get_border_id(4, Direction2D::Left), merged);
    assert_eq!(analyzer.get_border_id(1, Direction2D::Left), None);
    analyzer.prepare();
    assert!(analyzer.adjacency().is_valid_raw(3, 2, Direction2D::Right));
    assert!(analyzer.adjacency().is_valid_raw(2, 3, Direction2D::Left));
}

#[test]
fn frequency_hints_count_the_tiles_of_a_map() {
    let map = sample_map(3, 2, &[&[1, 2, 1], &[1, 0, 7]]);
    let mut hints = FrequencyHints::new();
    assert_eq!(hints.total_weight(), Some(0));
    hints.analyze(&map);
    assert_eq!(hints.get_weight(1), Some(3));
    assert_eq!(hints.get_weight(2), Some(1));
    assert_eq!(hints.get_weight(7), Some(1));
    assert_eq!(hints.get_weight(3), None);
    assert_eq!(hints.total_weight(), Some(5));
    hints.analyze(&map);
    assert_eq!(hints.get_weight(1), Some(6));
    assert_eq!(hints.total_weight(), Some(10));
}

#[test]
fn frequency_hints_take_and_replace_weights() {
    let mut hints = FrequencyHints::new();
    hints.set_weight(4, 10);
    hints.set_weight(2, 5);
    hints.count_tile(2);
    hints.count_tile(9);
    hints.set_weight_for_tile(&BasicTypedData(4), 3);
    assert_eq!(hints.get_weight(4), Some(3));
    assert_eq!(hints.get_weight(2), Some(6));
    assert_eq!(hints.get_weight(9), Some(1));
    assert_eq!(hints.total_weight(), Some(10));
    hints.set_weight(1, u32::MAX);
    assert_eq!(hints.total_weight(), None);
}

#[test]
fn rules_answer_for_any_of_several_neighbours() {
    let mut rules = AdjacencyRules::<TwoDim>::new();
    rules.add_adjacency(&BasicTypedData(1), &BasicTypedData(2), Direction2D::Up);
    rules.add_adjacency_raw(1, 3, Direction2D::Up);
    assert!(rules.is_valid_raw(1, 2, Direction2D::Up));
    assert!(!rules.is_valid_raw(2, 1, Direction2D::Down));
    assert!(rules.is_valid_raw_any(1, &[7, 3], Direction2D::Up));
    assert!(!rules.is_valid_raw_any(1, &[7, 8], Direction2D::Up));
    assert!(!rules.is_valid_raw_any(1, &[], Direction2D::Up));
    assert!(!rules.is_valid_raw_any(5, &[2], Direction2D::Up));
    assert_eq!(
        rules.inner().get_all_adjacencies_in_direction(1, Direction2D::Up),
        vec![2, 3]
    );
    assert_eq!(
        rules.inner().get_all_adjacencies_in_direction(1, Direction2D::Down),
        Vec::<u64>::new()
    );
}

#[test]
fn option_table_numbers_the_tile_types_in_order() {
    let mut rules = AdjacencyRules::<TwoDim>::new();
    for d in Direction2D::all() {
        rules.add_adjacency_raw(30, 10, d);
        rules.add_adjacency_raw(10, 30, d);
        rules.add_adjacency_raw(10, 10, d);
        rules.add_adjacency_raw(10, 99, d);
    }
    rules.add_adjacency_raw(20, 10, Direction2D::Up);
    let mut hints = FrequencyHints::new();
    hints.set_weight(30, 3);
    hints.set_weight(10, 8);
    hints.set_weight(20, 1);
    let table = PerOptionData::<TwoDim>::populate(&hints, rules.inner());
    assert_eq!(table.option_count(), 3);
    assert_eq!(table.get_tile_type_id(0), Some(10));
    assert_eq!(table.get_tile_type_id(1), Some(20));
    assert_eq!(table.get_tile_type_id(2), Some(30));
    assert_eq!(table.get_tile_type_id(3), None);
    assert_eq!(table.get_option_idx(30), Some(2));
    assert_eq!(table.get_option_idx(99), None);
    assert_eq!(table.get_weights(0).count, 8);
    assert_eq!(table.get_weights(0).weight_log, 8 * 3 * ENTROPY_SCALE);
    assert_eq!(table.get_weights(2).count, 3);
    assert_eq!(table.get_weights(2).weight_log, 3 * 150_000);
    assert_eq!(table.get_all_enabled_in_direction(0, Direction2D::Left), &vec![0, 2]);
    assert_eq!(table.get_all_enabled_in_direction(2, Direction2D::Left), &vec![0]);
    assert_eq!(table.get_all_enabled_in_direction(1, Direction2D::Up), &vec![0]);
    assert_eq!(table.get_all_enabled_in_direction(1, Direction2D::Down), &Vec::<usize>::new());
    // Option 1 has no neighbour in three of its directions: it is impossible.
    assert_eq!(table.possible_options_count(), 2);
    assert!(!table.all_options_possible());
    assert!(table.ways_to_be_option().is_possible(0));
    assert!(!table.ways_to_be_option().is_possible(1));
    assert_eq!(table.ways_to_be_option().ways(0, Direction2D::Right), 2);
    assert_eq!(table.ways_to_be_option().ways(2, Direction2D::Right), 1);
    assert_eq!(table.ways_to_be_option().ways(1, Direction2D::Up), 0);
    assert_eq!(table.ways_to_be_option().iter_possible(), vec![0, 2]);
}

#[test]
fn logarithm_is_exact_at_powers_of_two_and_linear_between() {
    assert_eq!(log2_scaled(0), 0);
    assert_eq!(log2_scaled(1), 0);
    assert_eq!(log2_scaled(2), 100_000);
    assert_eq!(log2_scaled(3), 150_000);
    assert_eq!(log2_scaled(4), 200_000);
    assert_eq!(log2_scaled(6), 250_000);
    assert_eq!(log2_scaled(7), 275_000);
    assert_eq!(log2_scaled(8), 300_000);
    assert_eq!(log2_scaled(1 << 31), 3_100_000);
    assert_eq!(log2_scaled(u32::MAX), 3_199_999);
}

#[test]
fn entropy_is_the_logarithm_of_the_sum_less_the_mean_logarithm() {
    // Two options of weight one each.
    assert_eq!(entropy(2, 0, 5), 100_005);
    // Two options of weight two each.
    assert_eq!(entropy(4, 2 * 2 * 100_000, 0), 100_000);
    // One option alone leaves no choice.
    assert_eq!(entropy(8, 8 * 300_000, 9), 9);
    // Weights one and three.
    assert_eq!(entropy(4, 3 * 150_000, 0), 200_000 - 112_500);
    // Without weight only the noise is left.
    assert_eq!(entropy(0, 0, 7), 7);
    // Never below the noise.
    assert_eq!(entropy(1, 500_000, 3), 3);
    assert_eq!(OptionWeights::new(3).weight_log, 450_000);
    assert_eq!(OptionWeights::new(1).weight_log, 0);
    assert_eq!(OptionWeights::zero().count, 0);
}

#[test]
fn entropy_queue_hands_out_the_smallest_key_first() {
    let size = GridSize2D::new(3, 2);
    let mut queue = EntrophyQueue::<TwoDim>::new(size);
    assert!(queue.is_empty());
    assert_eq!(queue.get_next_position(), None);
    queue.update_key(&GridPosition2D::new(0, 0), 50);
    queue.update_key(&GridPosition2D::new(1, 0), 20);
    queue.update_key(&GridPosition2D::new(2, 1), 20);
    queue.update_key(&GridPosition2D::new(0, 1), 70);
    queue.update_key(&GridPosition2D::new(0, 1), 10);
    assert_eq!(queue.len(), 4);
    assert_eq!(queue.get_next_position(), Some(GridPosition2D::new(0, 1)));
    assert_eq!(queue.get_next_position(), Some(GridPosition2D::new(1, 0)));
    assert_eq!(queue.get_next_position(), Some(GridPosition2D::new(2, 1)));
    assert_eq!(queue.len(), 1);
    assert_eq!(queue.get_next_position(), Some(GridPosition2D::new(0, 0)));
    assert_eq!(queue.get_next_position(), None);
    assert!(queue.is_empty());
}

#[test]
fn entropy_queue_breaks_ties_by_the_order_of_the_positions() {
    let mut queue = EntrophyQueue::<TwoDim>::new(GridSize2D::new(3, 2));
    queue.update_key(&GridPosition2D::new(1, 0), 20);
    queue.update_key(&GridPosition2D::new(0, 1), 20);
    queue.update_key(&GridPosition2D::new(2, 0), 20);
    queue.update_key(&GridPosition2D::new(1, 1), 20);
    assert!(GridPosition2D::new(0, 1) < GridPosition2D::new(1, 0));
    assert_eq!(queue.get_next_position(), Some(GridPosition2D::new(0, 1)));
    assert_eq!(queue.get_next_position(), Some(GridPosition2D::new(1, 0)));
    assert_eq!(queue.get_next_position(), Some(GridPosition2D::new(1, 1)));
    assert_eq!(queue.get_next_position(), Some(GridPosition2D::new(2, 0)));
    assert_eq!(queue.get_next_position(), None);
}

#[test]
fn entropy_queue_orders_cells_by_their_entropy() {
    let mut rules = AdjacencyRules::<TwoDim>::new();
    for d in Direction2D::all() {
        for a in 0..3u64 {
            for b in 0..3u64 {
                rules.add_adjacency_raw(a, b, d);
            }
        }
    }
    let mut hints = FrequencyHints::new();
    hints.set_weight(0, 1);
    hints.set_weight(1, 1);
    hints.set_weight(2, 2);
    let table = PerOptionData::<TwoDim>::populate(&hints, rules.inner());
    assert!(table.all_options_possible());
    let wide = CollapsibleTile::<TwoDim>::new_unconstrained(&table, 0);
    let mut narrow = CollapsibleTile::<TwoDim>::new_unconstrained(&table, 100);
    assert!(narrow.purge(2, &table));
    assert_eq!(wide.num_possible_options(), 3);
    assert_eq!(narrow.num_possible_options(), 2);
    assert_eq!(wide.weight_sum(), 4);
    assert_eq!(narrow.weight_sum(), 2);
    // log 4 less (2 * log 2) / 4, and log 2 less nothing, plus the noise.
    assert_eq!(wide.calc_entrophy(), 200_000 - 50_000);
    assert_eq!(narrow.calc_entrophy(), 100_000 + 100);
    let mut queue = EntrophyQueue::<TwoDim>::new(GridSize2D::new(2, 1));
    queue.initialize_queue(&[
        (GridPosition2D::new(0, 0), wide),
        (GridPosition2D::new(1, 0), narrow),
    ]);
    assert_eq!(queue.get_next_position(), Some(GridPosition2D::new(1, 0)));
    assert_eq!(queue.get_next_position(), Some(GridPosition2D::new(0, 0)));
}

#[test]
fn noise_of_new_cells_stays_in_range_and_varies() {
    let mut rules = AdjacencyRules::<TwoDim>::new();
    for d in Direction2D::all() {
        rules.add_adjacency_raw(1, 1, d);
    }
    let mut hints = FrequencyHints::new();
    hints.set_weight(1, 1);
    let table = PerOptionData::<TwoDim>::populate(&hints, rules.inner());
    let size = GridSize2D::new(8, 8);
    let positions = size.get_all_possible_positions();
    let mut rng = StdRng::seed_from_u64(11);
    let cells = CollapsibleTile::<TwoDim>::new_from_frequency_with_entrophy(
        &mut rng, &positions, &table,
    );
    assert_eq!(cells.len(), 64);
    let mut seen = std::collections::BTreeSet::new();
    for (k, (position, cell)) in cells.iter().enumerate() {
        assert_eq!(*position, positions[k]);
        assert!(cell.entrophy_noise < NOISE_RANGE);
        assert!(!cell.is_collapsed());
        assert_eq!(cell.num_possible_options(), 1);
        seen.insert(cell.entrophy_noise);
    }
    assert!(seen.len() > 8);
}

#[test]
fn a_cell_draws_the_option_under_the_random_number() {
    let mut rules = AdjacencyRules::<TwoDim>::new();
    for d in Direction2D::all() {
        for a in 0..3u64 {
            for b in 0..3u64 {
                rules.add_adjacency_raw(a, b, d);
            }
        }
    }
    let mut hints = FrequencyHints::new();
    hints.set_weight(0, 2);
    hints.set_weight(1, 3);
    hints.set_weight(2, 5);
    let table = PerOptionData::<TwoDim>::populate(&hints, rules.inner());
    let cell = CollapsibleTile::<TwoDim>::new_unconstrained(&table, 0);
    let expected = [0usize, 0, 1, 1, 1, 2, 2, 2, 2, 2];
    for (random, option) in expected.iter().enumerate() {
        assert_eq!(cell.choose_option(random as u32, &table), *option);
    }
    let mut chosen = CollapsibleTile::<TwoDim>::new_unconstrained(&table, 0);
    let removed = chosen.collapse_with(4, &table);
    assert_eq!(removed, vec![0, 2]);
    assert!(chosen.is_collapsed());
    assert_eq!(chosen.collapse_idx(), Some(1));
    assert_eq!(chosen.num_possible_options(), 0);
    assert_eq!(chosen.weight_sum(), 0);

    let mut narrowed = CollapsibleTile::<TwoDim>::new_unconstrained(&table, 0);
    assert!(narrowed.purge(1, &table));
    assert!(!narrowed.purge(1, &table));
    assert_eq!(narrowed.weight_sum(), 7);
    assert_eq!(narrowed.choose_option(1, &table), 0);
    assert_eq!(narrowed.choose_option(2, &table), 2);
    assert_eq!(narrowed.choose_option(6, &table), 2);
}

#[test]
fn ways_run_out_one_direction_at_a_time() {
    let mut rules = AdjacencyRules::<TwoDim>::new();
    for d in Direction2D::all() {
        rules.add_adjacency_raw(0, 0, d);
        rules.add_adjacency_raw(0, 1, d);
        rules.add_adjacency_raw(1, 0, d);
    }
    let mut hints = FrequencyHints::new();
    hints.set_weight(0, 1);
    hints.set_weight(1, 1);
    let table = PerOptionData::<TwoDim>::populate(&hints, rules.inner());
    let mut cell = CollapsibleTile::<TwoDim>::new_unconstrained(&table, 0);
    assert_eq!(cell.ways_to_be_option().ways(0, Direction2D::Left), 2);
    assert_eq!(cell.ways_to_be_option().ways(1, Direction2D::Left), 1);
    // Option 0 has two ways from the left: losing one leaves it possible.
    assert!(!cell.decrement_ways(0, Direction2D::Left, &table));
    assert_eq!(cell.num_possible_options(), 2);
    assert_eq!(cell.ways_to_be_option().ways(0, Direction2D::Left), 1);
    // Losing the second removes the option.
    assert!(cell.decrement_ways(0, Direction2D::Left, &table));
    assert_eq!(cell.num_possible_options(), 1);
    assert_eq!(cell.weight_sum(), 1);
    assert!(!cell.ways_to_be_option().is_possible(0));
    assert_eq!(cell.ways_to_be_option().ways(0, Direction2D::Up), 0);
    // An option that is gone stays gone.
    assert!(!cell.decrement_ways(0, Direction2D::Up, &table));
    assert!(cell.decrement_ways(1, Direction2D::Down, &table));
    assert!(!cell.has_compatible_options());
}

#[test]
fn sorted_identifiers_are_found_and_inserted_in_place() {
    let mut ids: Vec<u64> = Vec::new();
    assert!(insert_sorted(&mut ids, 5));
    assert!(insert_sorted(&mut ids, 2));
    assert!(insert_sorted(&mut ids, 9));
    assert!(!insert_sorted(&mut ids, 5));
    assert_eq!(ids, vec![2, 5, 9]);
    assert_eq!(lower_bound(&ids, 1), 0);
    assert_eq!(lower_bound(&ids, 2), 0);
    assert_eq!(lower_bound(&ids, 3), 1);
    assert_eq!(lower_bound(&ids, 9), 2);
    assert_eq!(lower_bound(&ids, 10), 3);
    assert!(contains_sorted(&ids, 9));
    assert!(!contains_sorted(&ids, 4));
}

#[test]
fn identifier_map_keeps_one_value_for_each_identifier() {
    let mut map: IdMap<u32> = IdMap::new();
    assert_eq!(map.len(), 0);
    assert_eq!(map.insert(7, 70), 0);
    assert_eq!(map.insert(3, 30), 0);
    assert_eq!(map.insert(5, 50), 1);
    assert_eq!(map.insert(7, 71), 2);
    assert_eq!(map.len(), 3);
    assert_eq!(map.find(3), Some(0));
    assert_eq!(map.find(5), Some(1));
    assert_eq!(map.find(7), Some(2));
    assert_eq!(map.find(4), None);
    assert_eq!(map.get(7), Some(&71));
    assert_eq!(map.get(8), None);
}

#[test]
fn clone_builder_builds_what_it_was_given() {
    let mut builder = IdentTileCloneBuilder::<BasicTypedData>::new();
    builder.add_tiles(&[BasicTypedData(1), BasicTypedData(4)], false);
    assert_eq!(builder.build_tile(4).unwrap(), BasicTypedData(4));
    assert_eq!(builder.build_tile_unchecked(1), BasicTypedData(1));
    let error = builder.build_tile(2).unwrap_err();
    assert_eq!(error.get_missing_tile_type_ids(), &vec![2]);
    assert!(builder.check_missing_ids(&[1, 4, 1]).is_ok());
    let error = builder.check_missing_ids(&[9, 1, 3, 9]).unwrap_err();
    assert_eq!(error.get_missing_tile_type_ids(), &vec![9, 3, 9]);
}

fn two() -> BasicTypedData {
    BasicTypedData(2)
}

fn six() -> BasicTypedData {
    BasicTypedData(6)
}

#[test]
fn function_builder_calls_the_constructor_of_the_type() {
    let mut builder = IdentTileFunBuilder::<BasicTypedData, fn() -> BasicTypedData>::new();
    builder.set_tile_constructor(2, two);
    builder.set_tile_constructor(6, six);
    assert_eq!(builder.build_tile(6).unwrap(), BasicTypedData(6));
    assert_eq!(builder.build_tile_unchecked(2), BasicTypedData(2));
    assert_eq!(builder.build_tile(3).unwrap_err().get_missing_tile_type_ids(), &vec![3]);
    let error = builder.check_missing_ids(&[2, 8, 6, 7]).unwrap_err();
    assert_eq!(error.get_missing_tile_type_ids(), &vec![8, 7]);
    builder.clear();
    assert!(builder.build_tile(2).is_err());
}

#[test]
fn collapsed_tiles_come_out_as_tile_data() {
    let mut rules = AdjacencyRules::<TwoDim>::new();
    for d in Direction2D::all() {
        rules.add_adjacency_raw(1, 2, d);
        rules.add_adjacency_raw(2, 1, d);
    }
    let mut hints = FrequencyHints::new();
    hints.set_weight(1, 1);
    hints.set_weight(2, 1);
    let mut grid = CollapsibleTileGrid::<TwoDim>::new_empty(GridSize2D::new(2, 2), &hints, &rules);
    assert!(grid.insert_collapsed(&GridPosition2D::new(0, 0), CollapsedTileData::new(1)));
    assert!(grid.insert_collapsed(&GridPosition2D::new(1, 0), CollapsedTileData::new(2)));
    assert!(!grid.insert_collapsed(&GridPosition2D::new(1, 1), CollapsedTileData::new(3)));
    assert!(!grid.insert_collapsed(&GridPosition2D::new(2, 0), CollapsedTileData::new(1)));
    assert_eq!(
        grid.retrieve_positions(true),
        vec![GridPosition2D::new(0, 0), GridPosition2D::new(1, 0)]
    );
    assert_eq!(grid.retrieve_positions(false), Vec::<GridPosition2D>::new());
    assert_eq!(
        grid.empty_positions(),
        vec![GridPosition2D::new(0, 1), GridPosition2D::new(1, 1)]
    );

    let plain: GridMap<TwoDim, BasicTypedData> = grid.retrieve_ident_default();
    assert_eq!(
        plain.get_data_at_position(&GridPosition2D::new(1, 0)),
        Some(&BasicTypedData(2))
    );
    assert_eq!(plain.get_data_at_position(&GridPosition2D::new(1, 1)), None);

    let mut builder = IdentTileCloneBuilder::<BasicTypedData>::new();
    builder.add_tiles(&[BasicTypedData(1)], false);
    let error = grid.retrieve_ident(&builder).err().unwrap();
    assert_eq!(error.missing_type_ids(), &Some(vec![2]));
    builder.add_tiles(&[BasicTypedData(2)], false);
    let built = grid.retrieve_ident(&builder).ok().unwrap();
    assert_eq!(
        built.get_data_at_position(&GridPosition2D::new(0, 0)),
        Some(&BasicTypedData(1))
    );
    assert_eq!(built.get_all_positions().len(), 2);
}

#[test]
fn a_larger_collapsed_grid_does_not_fit() {
    let rules = AdjacencyRules::<TwoDim>::new();
    let mut hints = FrequencyHints::new();
    hints.set_weight(1, 1);
    let mut grid = CollapsibleTileGrid::<TwoDim>::new_empty(GridSize2D::new(2, 2), &hints, &rules);
    let mut collapsed = CollapsedGrid::<TwoDim>::new(&GridSize2D::new(3, 1));
    assert!(collapsed.insert_data(&GridPosition2D::new(2, 0), CollapsedTileData::new(1)));
    let error = grid.populate_from_collapsed(&collapsed).unwrap_err();
    assert_eq!(error.sizes(), &Some((GridSize2D::new(3, 1), GridSize2D::new(2, 2))));
    assert_eq!(error.missing_type_ids(), &None);
    assert_eq!(error.position(), &None);
    assert_eq!(grid.grid().get_all_positions().len(), 0);

    let mut small = CollapsedGrid::<TwoDim>::new(&GridSize2D::new(2, 1));
    assert!(small.insert_data(&GridPosition2D::new(1, 0), CollapsedTileData::new(1)));
    assert!(!small.insert_data(&GridPosition2D::new(0, 1), CollapsedTileData::new(1)));
    assert!(grid.populate_from_collapsed(&small).is_ok());
    assert_eq!(grid.retrieve_positions(true), vec![GridPosition2D::new(1, 0)]);
}

#[test]
fn errors_tell_what_failed_and_where() {
    let failed = CollapseError::<TwoDim>::new(GridPosition2D::new(3, 4), CollapseErrorKind::Collapse, 7);
    assert_eq!(failed.failed_pos(), GridPosition2D::new(3, 4));
    assert_eq!(failed.failed_iter(), 7);
    assert!(failed.is_probabilistic());
    let init = CollapseError::<TwoDim>::new(GridPosition2D::new(0, 0), CollapseErrorKind::Init, 0);
    assert!(!init.is_probabilistic());
    let propagation =
        CollapseError::<TwoDim>::new(GridPosition2D::new(0, 0), CollapseErrorKind::Propagation, 2);
    assert!(propagation.is_probabilistic());
    let passed: Result<u8, CollapseError<TwoDim>> =
        CollapseError::from_result(Ok(5u8), CollapseErrorKind::Collapse, 1);
    assert_eq!(passed.ok(), Some(5));
    let wrapped: Result<u8, CollapseError<TwoDim>> =
        CollapseError::from_result(Err(GridPosition2D::new(1, 2)), CollapseErrorKind::Propagation, 9);
    let wrapped = wrapped.err().unwrap();
    assert_eq!(wrapped.failed_pos(), GridPosition2D::new(1, 2));
    assert_eq!(wrapped.kind, CollapseErrorKind::Propagation);
    assert_eq!(wrapped.failed_iter(), 9);

    let missing = CollapsibleGridError::<TwoDim>::new_missing(vec![4, 5]);
    assert_eq!(missing.missing_type_ids(), &Some(vec![4, 5]));
    assert_eq!(missing.sizes(), &None);
    let wrong = CollapsibleGridError::<TwoDim>::new_wrong_size(
        GridSize2D::new(5, 5),
        GridSize2D::new(2, 2),
    );
    assert_eq!(wrong.sizes(), &Some((GridSize2D::new(5, 5), GridSize2D::new(2, 2))));
    let at = CollapsibleGridError::<TwoDim>::new_collapse(GridPosition2D::new(1, 1));
    assert_eq!(at.position(), &Some(GridPosition2D::new(1, 1)));
}

#[test]
fn positions_compare_coordinate_by_coordinate() {
    assert!(lex_less(&GridPosition2D::new(0, 9), &GridPosition2D::new(1, 0)));
    assert!(!lex_less(&GridPosition2D::new(1, 0), &GridPosition2D::new(0, 9)));
    assert!(lex_less(&GridPosition2D::new(4, 2), &GridPosition2D::new(4, 3)));
    assert!(!lex_less(&GridPosition2D::new(4, 3), &GridPosition2D::new(4, 3)));
    assert!(lex_less(&GridPosition3D::new(1, 1, 0), &GridPosition3D::new(1, 1, 1)));
    assert!(!lex_less(&GridPosition3D::new(1, 2, 0), &GridPosition3D::new(1, 1, 9)));
    for a in 0..3u32 {
        for b in 0..3u32 {
            for c in 0..3u32 {
                for d in 0..3u32 {
                    let first = GridPosition2D::new(a, b);
                    let second = GridPosition2D::new(c, d);
                    assert_eq!(lex_less(&first, &second), first < second);
                }
            }
        }
    }
}

#[test]
fn slots_come_with_their_positions() {
    let map = sample_map(2, 2, &[&[1, 0], &[0, 4]]);
    let slots = map.indexed_iter();
    assert_eq!(slots.len(), 4);
    assert_eq!(slots[0], (GridPosition2D::new(0, 0), &Some(BasicTypedData(1))));
    assert_eq!(slots[1], (GridPosition2D::new(1, 0), &None));
    assert_eq!(slots[2], (GridPosition2D::new(0, 1), &None));
    assert_eq!(slots[3], (GridPosition2D::new(1, 1), &Some(BasicTypedData(4))));
}

#[test]
fn copies_of_the_tiles_are_moved_by_the_anchor() {
    let map = sample_map(2, 2, &[&[1, 0], &[3, 4]]);
    let moved = map.get_remapped(GridPosition2D::new(10, 20));
    assert_eq!(moved.len(), 3);
    assert_eq!(moved[0].position, GridPosition2D::new(10, 20));
    assert_eq!(moved[0].data, BasicTypedData(1));
    assert_eq!(moved[1].position, GridPosition2D::new(10, 21));
    assert_eq!(moved[1].data, BasicTypedData(3));
    assert_eq!(moved[2].position, GridPosition2D::new(11, 21));
    assert_eq!(moved[2].data, BasicTypedData(4));
    assert_eq!(map.get_all_positions().len(), 3);
}

#[derive(Debug, Clone, PartialEq)]
struct Marked(u64, u32);

impl grid_forge::tile::TileData for Marked {}

impl grid_forge::id::TypedData for Marked {
    fn spec_tile_type_id(&self) -> u64 {
        self.0
    }

    fn tile_type_id(&self) -> u64 {
        self.0
    }
}

#[test]
fn clone_builder_takes_the_first_or_the_last_tile_of_a_type() {
    let tiles = [Marked(1, 10), Marked(2, 20), Marked(1, 11), Marked(2, 21)];
    let mut keeping = IdentTileCloneBuilder::<Marked>::new();
    keeping.add_tiles(&[Marked(1, 5)], false);
    keeping.add_tiles(&tiles, false);
    assert_eq!(keeping.build_tile(1).unwrap(), Marked(1, 5));
    assert_eq!(keeping.build_tile(2).unwrap(), Marked(2, 20));
    let mut replacing = IdentTileCloneBuilder::<Marked>::new();
    replacing.add_tiles(&[Marked(1, 5), Marked(3, 30)], true);
    replacing.add_tiles(&tiles, true);
    assert_eq!(replacing.build_tile(1).unwrap(), Marked(1, 11));
    assert_eq!(replacing.build_tile(2).unwrap(), Marked(2, 21));
    assert_eq!(replacing.build_tile(3).unwrap(), Marked(3, 30));
    assert!(replacing.check_missing_ids(&[1, 2, 3]).is_ok());
}
