//! Propagation of removed options from cell to cell.

use vstd::prelude::*;
use crate::collapse::queue::entrophy::EntrophyQueue;
use crate::collapse::table::PerOptionData;
use crate::collapse::tile::CollapsibleTile;
use crate::dimension::Dimensionality;
use crate::direction::Direction;
use crate::map::GridMap;
use crate::position::GridPosition;
use crate::size::GridSize;

verus! {

/// An option that has been removed from the cell at a position, and whose
/// removal the neighbours of the cell have not taken into account yet.
#[derive(Debug)]
pub struct PropagateItem<D: Dimensionality> {
    pub position: D::Pos,
    pub to_remove: usize,
}

impl<D: Dimensionality> PropagateItem<D> {
    /// The removal of the option from the cell at the position.
    pub fn new(position: D::Pos, to_remove: usize) -> (r: Self)
        ensures
            r.position == position,
            r.to_remove == to_remove,
    {
        Self { position, to_remove }
    }
}

/// Whether every cell of the grid is well-formed with respect to the table.
pub open spec fn spec_cells_wf<D: Dimensionality>(
    grid: &GridMap<D, CollapsibleTile<D>>,
    table: &PerOptionData<D>,
) -> bool {
    &&& grid.wf()
    &&& forall|o: int|
        0 <= o < grid.tiles@.len() && grid.tiles@[o] is Some ==> (#[trigger] grid.tiles@[o])->0.wf(
            table,
        )
}

/// Whether every cell of `after` follows the cell of `before` at its place:
/// cells are where they were, collapsed cells are as they were, and no count
/// of ways of a cell that is still not collapsed has grown.
pub open spec fn spec_cells_follow<D: Dimensionality>(
    after: &GridMap<D, CollapsibleTile<D>>,
    before: &GridMap<D, CollapsibleTile<D>>,
) -> bool {
    &&& after.size == before.size
    &&& after.tiles@.len() == before.tiles@.len()
    &&& forall|o: int|
        0 <= o < before.tiles@.len() ==> {
            &&& (#[trigger] after.tiles@[o]) is Some <==> before.tiles@[o] is Some
            &&& after.tiles@[o] is Some ==> after.tiles@[o]->0.spec_follows(&before.tiles@[o]->0)
        }
}

/// Whether the cells that are collapsed in `after` are those that are
/// collapsed in `before`.
pub open spec fn spec_same_collapsed<D: Dimensionality>(
    after: &GridMap<D, CollapsibleTile<D>>,
    before: &GridMap<D, CollapsibleTile<D>>,
) -> bool {
    forall|o: int|
        0 <= o < before.tiles@.len() && before.tiles@[o] is Some ==> (
        #[trigger] after.tiles@[o])->0.collapsed_option == before.tiles@[o]->0.collapsed_option
}

/// Whether the queue holds the position of every cell that is not collapsed.
pub open spec fn spec_all_queued<D: Dimensionality>(
    grid: &GridMap<D, CollapsibleTile<D>>,
    queue: &EntrophyQueue<D>,
) -> bool {
    &&& queue.size == grid.size
    &&& forall|o: int|
        0 <= o < grid.tiles@.len() && (#[trigger] grid.tiles@[o]) is Some
            && grid.tiles@[o]->0.collapsed_option is None ==> queue.by_pos@[o] is Some
}

/// Number of options that the first `n` cells can still become, all cells
/// taken together.
pub open spec fn spec_total_options<D: Dimensionality>(
    tiles: Seq<Option<CollapsibleTile<D>>>,
    n: int,
) -> int
    decreases n,
{
    if n <= 0 {
        0
    } else {
        spec_total_options(tiles, n - 1) + match tiles[n - 1] {
            Some(cell) => cell.num_options as int,
            None => 0int,
        }
    }
}

/// Replacing the cell at one offset changes the total of the options by
/// what the cell gains or loses.
pub proof fn lemma_total_options_update<D: Dimensionality>(
    tiles: Seq<Option<CollapsibleTile<D>>>,
    at: int,
    cell: CollapsibleTile<D>,
    n: int,
)
    requires
        0 <= at < tiles.len(),
        0 <= n <= tiles.len(),
        tiles[at] is Some,
    ensures
        0 <= spec_total_options(tiles, n),
        spec_total_options(tiles.update(at, Some(cell)), n) == spec_total_options(tiles, n) + if at
            < n {
            cell.num_options - tiles[at]->0.num_options
        } else {
            0int
        },
    decreases n,
{
    if n > 0 {
        lemma_total_options_update(tiles, at, cell, n - 1);
    }
}

/// Whether every item names a valid position and an option of the table.
pub open spec fn spec_items_ok<D: Dimensionality>(
    items: Seq<PropagateItem<D>>,
    size: &D::Size,
    table: &PerOptionData<D>,
) -> bool {
    forall|k: int|
        0 <= k < items.len() ==> size.spec_valid(&(#[trigger] items[k]).position) && items[k].to_remove
            < table.spec_option_count()
}

/// Work list of removed options whose consequences are still to be drawn.
pub struct Propagator<D: Dimensionality> {
    pub inner: Vec<PropagateItem<D>>,
}

impl<D: Dimensionality> Propagator<D> {
    /// Creates a propagator with an empty work list.
    pub fn new() -> (r: Self)
        ensures
            r.inner@.len() == 0,
    {
        Self { inner: Vec::new() }
    }

    /// Puts an item on the work list.
    pub fn push_propagate(&mut self, item: PropagateItem<D>)
        ensures
            final(self).inner@ == old(self).inner@.push(item),
    {
        self.inner.push(item);
    }

    /// Draws the consequences, for one cell, of the removal of an option
    /// from its neighbour in a direction.
    ///
    /// Each of the options `enabled`, which the removed option permitted
    /// beside it, loses one way to be in the cell from that direction. An
    /// option that loses its last way is removed from the cell and put on
    /// the work list. The result is `false` as soon as the cell is found
    /// without options, and `true` if that did not happen.
    pub fn apply_removal(
        cell: &mut CollapsibleTile<D>,
        position: D::Pos,
        enabled: &Vec<usize>,
        direction: D::Dir,
        size: &D::Size,
        table: &PerOptionData<D>,
        worklist: &mut Vec<PropagateItem<D>>,
    ) -> (r: bool)
        requires
            table.wf(),
            old(cell).wf(table),
            old(cell).collapsed_option is None,
            size.spec_valid(&position),
            forall|k: int| 0 <= k < enabled@.len() ==> enabled@[k] < table.spec_option_count(),
            crate::collapse::table::spec_increasing(enabled@),
            spec_items_ok(old(worklist)@, size, table),
        ensures
            r ==> spec_removal_applied(
                old(cell),
                final(cell),
                enabled@,
                direction.spec_idx() as int,
                table.spec_option_count() as int,
            ),
            r ==> spec_removals_listed(
                old(cell),
                final(cell),
                position,
                old(worklist)@,
                final(worklist)@,
                table.spec_option_count() as int,
            ),
            final(cell).wf(table),
            final(cell).collapsed_option is None,
            final(cell).spec_follows(old(cell)),
            final(cell).num_options <= old(cell).num_options,
            spec_items_ok(final(worklist)@, size, table),
            r ==> final(worklist)@.len() == old(worklist)@.len() + old(cell).num_options - final(cell).num_options,
            final(worklist)@.len() >= old(worklist)@.len(),
            final(worklist)@.take(old(worklist)@.len() as int) == old(worklist)@,
            !r ==> final(cell).num_options == 0,
            r && enabled@.len() > 0 ==> final(cell).num_options > 0,
            final(cell).entrophy_noise == old(cell).entrophy_noise,
            final(cell).num_options == old(cell).num_options ==> final(cell).weight == old(cell).weight,
            enabled@.len() == 0 ==> *final(cell) == *old(cell),
            spec_ways_to_spare(old(cell), enabled@, direction.spec_idx() as int) ==> r && final(cell).num_options
                == old(cell).num_options && final(worklist)@ == old(worklist)@,
            forall|idx: int|
                old(worklist)@.len() <= idx < final(worklist)@.len() ==> (#[trigger] final(worklist)@[idx]).position
                    == position,
            !r ==> old(cell).num_options == 0 || exists|idx: int|
                0 <= idx < enabled@.len() && old(cell).ways_to_be_option.spec_ways(
                    #[trigger] enabled@[idx] as int,
                    direction.spec_idx() as int,
                ) == 1 && old(cell).ways_to_be_option.spec_possible(enabled@[idx] as int),
    {
        let ghost spare = spec_ways_to_spare(old(cell), enabled@, direction.spec_idx() as int);
        let mut k: usize = 0;
        proof {
            direction.lemma_idx();
            assert(worklist@.take(old(worklist)@.len() as int) =~= old(worklist)@);
            assert forall|j: int| 0 <= j < table.spec_option_count() implies #[trigger] old(cell).ways_to_be_option.table@[j]@ == old(cell).ways_to_be_option.table@[j]@.update(
                direction.spec_idx() as int,
                old(cell).ways_to_be_option.spec_ways(j, direction.spec_idx() as int),
            ) by {
                assert(old(cell).ways_to_be_option.table@[j]@ =~= old(cell).ways_to_be_option.table@[j]@.update(
                    direction.spec_idx() as int,
                    old(cell).ways_to_be_option.spec_ways(j, direction.spec_idx() as int),
                ));
            }
        }
        while k < enabled.len()
            invariant
                table.wf(),
                cell.wf(table),
                old(cell).wf(table),
                old(cell).collapsed_option is None,
                crate::collapse::table::spec_increasing(enabled@),
                spec_removal_applied(
                    old(cell),
                    cell,
                    enabled@.take(k as int),
                    direction.spec_idx() as int,
                    table.spec_option_count() as int,
                ),
                spec_removals_listed(
                    old(cell),
                    cell,
                    position,
                    old(worklist)@,
                    worklist@,
                    table.spec_option_count() as int,
                ),
                forall|idx: int|
                    old(worklist)@.len() <= idx < worklist@.len() ==> crate::collapse::support::spec_lists(
                        enabled@.take(k as int),
                        (#[trigger] worklist@[idx]).to_remove as int,
                    ),
                cell.collapsed_option is None,
                cell.spec_follows(old(cell)),
                cell.num_options <= old(cell).num_options,
                size.spec_valid(&position),
                0 <= k <= enabled@.len(),
                forall|j: int| 0 <= j < enabled@.len() ==> enabled@[j] < table.spec_option_count(),
                spec_items_ok(worklist@, size, table),
                worklist@.len() == old(worklist)@.len() + old(cell).num_options - cell.num_options,
                worklist@.take(old(worklist)@.len() as int) == old(worklist)@,
                k > 0 ==> cell.num_options > 0,
                cell.entrophy_noise == old(cell).entrophy_noise,
                cell.num_options == old(cell).num_options ==> cell.weight == old(cell).weight,
                k == 0 ==> *cell == *old(cell),
                forall|idx: int|
                    old(worklist)@.len() <= idx < worklist@.len() ==> (#[trigger] worklist@[idx]).position
                        == position,
                spare == spec_ways_to_spare(old(cell), enabled@, direction.spec_idx() as int),
                spare ==> cell.num_options == old(cell).num_options && worklist@ == old(worklist)@,
                forall|idx: int|
                    k <= idx < enabled@.len() ==> cell.ways_to_be_option.table@[#[trigger] enabled@[idx] as int]
                        == old(cell).ways_to_be_option.table@[enabled@[idx] as int],
            decreases enabled@.len() - k,
        {
            let option_idx: usize = enabled[k];
            let ghost cell_before = *cell;
            let ghost list_before = worklist@;
            let removed: bool = cell.decrement_ways(option_idx, direction, table);
            proof {
                lemma_follows_trans(cell, &cell_before, old(cell));
                assert forall|idx: int| k + 1 <= idx < enabled@.len() implies cell.ways_to_be_option.table@[
                    #[trigger] enabled@[idx] as int] == old(cell).ways_to_be_option.table@[enabled@[idx] as int] by {
                    assert(enabled@[k as int] < enabled@[idx]);
                }
                if spare {
                    direction.lemma_idx();
                    D::Dir::spec_from_idx(0).lemma_idx();
                    assert(cell_before.ways_to_be_option.table@[enabled@[k as int] as int]
                        == old(cell).ways_to_be_option.table@[enabled@[k as int] as int]);
                    assert(old(cell).ways_to_be_option.spec_ways(
                        enabled@[k as int] as int,
                        direction.spec_idx() as int,
                    ) >= 2);
                    assert(!removed);
                    let row = cell.ways_to_be_option.table@[option_idx as int]@;
                    assert(row[direction.spec_idx() as int] >= 1);
                    assert(crate::collapse::option::spec_row_zero(row)
                        || crate::collapse::option::spec_row_positive(row));
                    assert(row[0] != 0);
                    crate::collapse::resolver::lemma_count_reaches(
                        cell.ways_to_be_option.table@,
                        table.spec_option_count() as int,
                        option_idx as int,
                    );
                }
            }
            if !cell.has_compatible_options() {
                proof {
                    direction.lemma_idx();
                    D::Dir::spec_from_idx(0).lemma_idx();
                    if removed {
                        assert(cell_before.ways_to_be_option.table@[enabled@[k as int] as int]
                            == old(cell).ways_to_be_option.table@[enabled@[k as int] as int]);
                        let row = old(cell).ways_to_be_option.table@[option_idx as int]@;
                        assert(row[direction.spec_idx() as int] == 1);
                        assert(crate::collapse::option::spec_row_zero(row)
                            || crate::collapse::option::spec_row_positive(row));
                        assert(old(cell).ways_to_be_option.spec_ways(
                            enabled@[k as int] as int,
                            direction.spec_idx() as int,
                        ) == 1 && old(cell).ways_to_be_option.spec_possible(enabled@[k as int] as int));
                    }
                }
                return false;
            }
            if removed {
                worklist.push(PropagateItem::new(position, option_idx));
                proof {
                    assert(worklist@.take(old(worklist)@.len() as int) =~= list_before.take(
                        old(worklist)@.len() as int,
                    ));
                }
            }
            proof {
                direction.lemma_idx();
                D::Dir::spec_from_idx(0).lemma_idx();
                let row = cell_before.ways_to_be_option.table@[option_idx as int]@;
                assert(crate::collapse::option::spec_row_zero(row)
                    || crate::collapse::option::spec_row_positive(row));
                if removed {
                    assert(row[direction.spec_idx() as int] == 1);
                    assert(row[0] > 0);
                }
                lemma_removal_step(
                    old(cell),
                    &cell_before,
                    cell,
                    enabled@,
                    k as int,
                    direction.spec_idx() as int,
                    table,
                    removed,
                );
                lemma_listing_step(
                    old(cell),
                    &cell_before,
                    cell,
                    position,
                    old(worklist)@,
                    list_before,
                    worklist@,
                    enabled@,
                    k as int,
                    table.spec_option_count() as int,
                    removed,
                );
            }
            k = k + 1;
        }
        proof {
            assert(enabled@.take(enabled@.len() as int) == enabled@);
        }
        true
    }

    /// Draws the consequences of one item of the work list for the
    /// neighbours of its cell.
    #[verifier::rlimit(80)]
    pub fn process_item(
        item: &PropagateItem<D>,
        grid: &mut GridMap<D, CollapsibleTile<D>>,
        option_data: &PerOptionData<D>,
        queue: &mut EntrophyQueue<D>,
        worklist: &mut Vec<PropagateItem<D>>,
    ) -> (r: Result<(), D::Pos>)
        requires
            option_data.wf(),
            spec_cells_wf(old(grid), option_data),
            old(queue).wf(),
            spec_all_queued(old(grid), old(queue)),
            old(grid).size.spec_valid(&item.position),
            item.to_remove < option_data.spec_option_count(),
            spec_items_ok(old(worklist)@, &old(grid).size, option_data),
        ensures
            spec_cells_wf(final(grid), option_data),
            spec_cells_follow(final(grid), old(grid)),
            spec_same_collapsed(final(grid), old(grid)),
            final(queue).wf(),
            spec_all_queued(final(grid), final(queue)),
            final(queue).length == old(queue).length,
            final(queue).by_pos@.len() == old(queue).by_pos@.len(),
            forall|o: int|
                0 <= o < old(queue).by_pos@.len() ==> (#[trigger] final(queue).by_pos@[o] is Some
                    <==> old(queue).by_pos@[o] is Some),
            spec_items_ok(final(worklist)@, &old(grid).size, option_data),
            r is Ok ==> final(worklist)@.len() == old(worklist)@.len() + spec_total_options(
                old(grid).tiles@,
                old(grid).tiles@.len() as int,
            ) - spec_total_options(final(grid).tiles@, old(grid).tiles@.len() as int),
            spec_total_options(final(grid).tiles@, old(grid).tiles@.len() as int)
                <= spec_total_options(old(grid).tiles@, old(grid).tiles@.len() as int),
            r is Err ==> {
                &&& final(grid).spec_at(r->Err_0) is Some
                &&& final(grid).spec_at(r->Err_0)->0.collapsed_option is None
                &&& final(grid).spec_at(r->Err_0)->0.num_options == 0
            },
            spec_keys_renewed(final(grid), final(queue), old(grid), old(queue)),
            r is Ok ==> spec_none_emptied(final(grid), old(grid)),
            final(worklist)@.len() >= old(worklist)@.len(),
            final(worklist)@.take(old(worklist)@.len() as int) == old(worklist)@,
            r is Ok ==> forall|e: int|
                0 <= e < D::Dir::spec_count() ==> !#[trigger] spec_strikes_empty(
                    old(grid),
                    option_data,
                    item,
                    e,
                ),
            spec_nothing_to_lose(old(grid), old(worklist)@, option_data, item) ==> r is Ok && final(worklist)@
                == old(worklist)@ && spec_all_full(final(grid), option_data),
            r is Err && crate::collapse::support::spec_tracking(
                old(grid),
                old(worklist)@,
                option_data,
                crate::collapse::support::Flight {
                    at: old(grid).size.spec_offset(&item.position) as int,
                    option: item.to_remove as int,
                    done: 0,
                },
            ) ==> crate::collapse::support::spec_refuted(
                final(grid),
                final(worklist)@,
                option_data,
                r->Err_0,
                old(grid),
            ),
            r is Ok && crate::collapse::support::spec_tracking(
                old(grid),
                old(worklist)@,
                option_data,
                crate::collapse::support::Flight {
                    at: old(grid).size.spec_offset(&item.position) as int,
                    option: item.to_remove as int,
                    done: 0,
                },
            ) ==> crate::collapse::support::spec_tracking(
                final(grid),
                final(worklist)@,
                option_data,
                crate::collapse::support::spec_no_flight(),
            ),
    {
        let n: usize = D::Dir::count();
        let size: D::Size = *grid.size();
        let ghost cells = grid.tiles@.len() as int;
        let ghost fa = grid.size.spec_offset(&item.position) as int;
        let ghost fo = item.to_remove as int;
        let ghost in_order = crate::collapse::support::spec_tracking(
            grid,
            worklist@,
            option_data,
            crate::collapse::support::Flight { at: fa, option: fo, done: 0 },
        );
        let ghost guard = spec_nothing_to_lose(grid, worklist@, option_data, item);
        proof {
            size.lemma_offset_in_range(&item.position);
            size.lemma_pos_from_offset_of_offset(&item.position);
        }
        let mut d: usize = 0;
        while d < n
            invariant
                option_data.wf(),
                spec_cells_wf(grid, option_data),
                spec_cells_follow(grid, old(grid)),
                spec_same_collapsed(grid, old(grid)),
                queue.wf(),
                spec_all_queued(grid, queue),
                queue.length == old(queue).length,
                queue.by_pos@.len() == old(queue).by_pos@.len(),
                queue.by_pos@.len() == cells,
                forall|o: int|
                    0 <= o < old(queue).by_pos@.len() ==> (#[trigger] queue.by_pos@[o] is Some
                        <==> old(queue).by_pos@[o] is Some),
                size == old(grid).size,
                grid.size == size,
                cells == old(grid).tiles@.len(),
                size.spec_valid(&item.position),
                item.to_remove < option_data.spec_option_count(),
                0 <= d <= n,
                n == D::Dir::spec_count(),
                spec_items_ok(worklist@, &size, option_data),
                spec_keys_renewed(grid, queue, old(grid), old(queue)),
                spec_none_emptied(grid, old(grid)),
                guard == spec_nothing_to_lose(old(grid), old(worklist)@, option_data, item),
                worklist@.len() >= old(worklist)@.len(),
                worklist@.take(old(worklist)@.len() as int) == old(worklist)@,
                forall|e: int|
                    0 <= e < d ==> !#[trigger] spec_strikes_empty(old(grid), option_data, item, e),
                spec_cells_wf(old(grid), option_data),
                in_order == crate::collapse::support::spec_tracking(
                    old(grid),
                    old(worklist)@,
                    option_data,
                    crate::collapse::support::Flight { at: fa, option: fo, done: 0 },
                ),
                guard ==> in_order && crate::collapse::resolver::spec_permissive(option_data)
                    && worklist@ == old(worklist)@ && spec_all_full(grid, option_data)
                    && grid.tiles@[fa] is Some && grid.tiles@[fa]->0.collapsed_option is Some,
                worklist@.len() == old(worklist)@.len() + spec_total_options(old(grid).tiles@, cells)
                    - spec_total_options(grid.tiles@, cells),
                spec_total_options(grid.tiles@, cells) <= spec_total_options(old(grid).tiles@, cells),
                fa == size.spec_offset(&item.position),
                0 <= fa < cells,
                size.spec_pos_from_offset(fa as nat) == item.position,
                fo == item.to_remove,
                in_order ==> crate::collapse::support::spec_tracking(
                    grid,
                    worklist@,
                    option_data,
                    crate::collapse::support::Flight { at: fa, option: fo, done: d as int },
                ),
            decreases n - d,
        {
            let direction: D::Dir = D::Dir::from_idx(d);
            let toward: D::Dir = direction.opposite();
            let ghost done: int = d as int;
            let ghost flight = crate::collapse::support::Flight { at: fa, option: fo, done };
            let ghost list_before = worklist@;
            proof {
                D::Dir::lemma_from_idx(d as nat);
            }
            d = d + 1;
            let neighbour: Option<D::Pos> = toward.march_step(&item.position, &size);
            match neighbour {
                Some(pos_to_update) => {
                    proof {
                        toward.lemma_march_step_back(&item.position, &size);
                        size.lemma_offset_in_range(&pos_to_update);
                    }
                    let ghost at = size.spec_offset(&pos_to_update) as int;
                    let ghost grid_before = *grid;
                    let ghost queue_before = *queue;
                    let ghost mut applied: bool = false;
                    let mut ok: bool = true;
                    proof {
                        if guard && grid.tiles@[at] is Some && grid.tiles@[at]->0.collapsed_option is None {
                            toward.lemma_idx();
                            lemma_ways_to_spare(grid, worklist@, option_data, item, done, pos_to_update);
                            assert(grid.spec_at(pos_to_update) == grid.tiles@[at]);
                            assert(direction.spec_idx() == done);
                            assert(spec_ways_to_spare(
                                &grid.tiles@[at]->0,
                                option_data.spec_enabled(item.to_remove as int, toward.spec_idx() as int),
                                direction.spec_idx() as int,
                            ));
                        }
                    }
                    match grid.get_mut_data_at_position(&pos_to_update) {
                        Some(cell) => {
                            if !cell.is_collapsed() {
                                let enabled: &Vec<usize> = option_data.get_all_enabled_in_direction(
                                    item.to_remove,
                                    toward,
                                );
                                proof {
                                    toward.lemma_idx();
                                    assert forall|k: int| 0 <= k < enabled@.len() implies enabled@[k]
                                        < option_data.spec_option_count() by {
                                        assert(enabled@[k] == option_data.spec_enabled(
                                            item.to_remove as int,
                                            toward.spec_idx() as int,
                                        )[k]);
                                    }
                                }
                                let before: usize = cell.num_possible_options();
                                ok =
                                Self::apply_removal(
                                    cell,
                                    pos_to_update,
                                    enabled,
                                    direction,
                                    &size,
                                    option_data,
                                    worklist,
                                );
                                proof {
                                    applied = true;
                                }
                                if cell.num_possible_options() != before {
                                    queue.update_queue(&pos_to_update, cell);
                                }
                            }
                        },
                        None => {},
                    }
                    proof {
                        if grid_before.tiles@[at] is Some {
                            let cell = grid.tiles@[at]->0;
                            lemma_total_options_update(grid_before.tiles@, at, cell, cells);
                            assert(grid.tiles@ == grid_before.tiles@.update(at, Some(cell)));
                            assert forall|o: int|
                                0 <= o < grid.tiles@.len() && grid.tiles@[o] is Some implies (
                            #[trigger] grid.tiles@[o])->0.wf(option_data) by {
                                if o != at {
                                    assert(grid.tiles@[o] == grid_before.tiles@[o]);
                                }
                            }
                            assert(spec_cells_follow(grid, old(grid))) by {
                                assert forall|o: int| 0 <= o < old(grid).tiles@.len() implies {
                                    &&& (#[trigger] grid.tiles@[o]) is Some <==> old(grid).tiles@[o] is Some
                                    &&& grid.tiles@[o] is Some ==> grid.tiles@[o]->0.spec_follows(
                                        &old(grid).tiles@[o]->0,
                                    )
                                } by {
                                    if o != at {
                                        assert(grid.tiles@[o] == grid_before.tiles@[o]);
                                    } else {
                                        lemma_follows_trans(
                                            &cell,
                                            &grid_before.tiles@[at]->0,
                                            &old(grid).tiles@[at]->0,
                                        );
                                    }
                                }
                            }
                            assert(spec_same_collapsed(grid, old(grid))) by {
                                assert forall|o: int|
                                    0 <= o < old(grid).tiles@.len() && old(grid).tiles@[o] is Some implies (
                                #[trigger] grid.tiles@[o])->0.collapsed_option == old(grid).tiles@[o]->0.collapsed_option by {
                                    if o != at {
                                        assert(grid.tiles@[o] == grid_before.tiles@[o]);
                                    }
                                }
                            }
                            assert forall|o: int| 0 <= o < old(queue).by_pos@.len() implies (
                            #[trigger] queue.by_pos@[o] is Some <==> old(queue).by_pos@[o] is Some) by {
                                if o != at {
                                    assert(queue.by_pos@[o] == queue_before.by_pos@[o]);
                                }
                            }
                            assert(spec_all_queued(grid, queue)) by {
                                assert forall|o: int|
                                    0 <= o < grid.tiles@.len() && (#[trigger] grid.tiles@[o]) is Some
                                        && grid.tiles@[o]->0.collapsed_option is None implies queue.by_pos@[o] is Some by {
                                    if o != at {
                                        assert(grid.tiles@[o] == grid_before.tiles@[o]);
                                        assert(queue.by_pos@[o] is Some <==> queue_before.by_pos@[o] is Some);
                                    }
                                }
                            }
                            assert(spec_keys_renewed(grid, queue, &grid_before, &queue_before)) by {
                                assert forall|o: int|
                                    0 <= o < grid_before.tiles@.len() && grid_before.tiles@[o] is Some
                                        && grid_before.tiles@[o]->0.collapsed_option is None implies spec_key_renewed(
                                    grid.tiles@[o]->0,
                                    #[trigger] queue.by_pos@[o],
                                    grid_before.tiles@[o]->0,
                                    queue_before.by_pos@[o],
                                ) by {
                                    if o != at {
                                        assert(grid.tiles@[o] == grid_before.tiles@[o]);
                                        assert(queue.by_pos@[o] == queue_before.by_pos@[o]);
                                    }
                                }
                            }
                            lemma_keys_renewed_trans(grid, queue, &grid_before, &queue_before, old(grid), old(queue));
                            if guard {
                                assert(ok);
                                assert(worklist@ == list_before);
                                assert(spec_all_full(grid, option_data)) by {
                                    assert forall|o: int|
                                        0 <= o < grid.tiles@.len() && (#[trigger] grid.tiles@[o]) is Some
                                            && grid.tiles@[o]->0.collapsed_option is None implies grid.tiles@[o]->0.num_options
                                        == option_data.spec_option_count() by {
                                        if o != at {
                                            assert(grid.tiles@[o] == grid_before.tiles@[o]);
                                        }
                                    }
                                }
                            }
                            if ok {
                                assert(spec_none_emptied(grid, old(grid))) by {
                                    assert forall|o: int|
                                        0 <= o < old(grid).tiles@.len() && old(grid).tiles@[o] is Some && (
                                        #[trigger] grid.tiles@[o])->0.num_options != old(grid).tiles@[o]->0.num_options implies grid.tiles@[o]->0.num_options
                                        > 0 by {
                                        assert(grid_before.tiles@[o] is Some);
                                        if o != at {
                                            assert(grid.tiles@[o] == grid_before.tiles@[o]);
                                        } else if grid.tiles@[o]->0.num_options
                                            == grid_before.tiles@[o]->0.num_options {
                                            assert(grid_before.tiles@[o]->0.num_options != old(grid).tiles@[o]->0.num_options);
                                        }
                                    }
                                }
                            }
                        } else {
                            assert(grid.tiles@ =~= grid_before.tiles@);
                            assert(queue.by_pos@ =~= queue_before.by_pos@);
                        }
                    }
                    proof {
                        assert(worklist@.take(old(worklist)@.len() as int) =~= list_before.take(
                            old(worklist)@.len() as int,
                        ));
                        if ok {
                            assert forall|e: int| 0 <= e < d implies !#[trigger] spec_strikes_empty(
                                old(grid),
                                option_data,
                                item,
                                e,
                            ) by {
                                if e == done {
                                    toward.lemma_idx();
                                    if spec_strikes_empty(old(grid), option_data, item, e) {
                                        assert(old(grid).spec_at(pos_to_update) == old(grid).tiles@[at]);
                                        assert(grid_before.tiles@[at] is Some);
                                        assert(grid_before.tiles@[at]->0.collapsed_option is None);
                                        assert(spec_key_renewed(
                                            grid_before.tiles@[at]->0,
                                            queue_before.by_pos@[at],
                                            old(grid).tiles@[at]->0,
                                            old(queue).by_pos@[at],
                                        ));
                                        assert(applied);
                                    }
                                }
                            }
                        }
                    }
                    if !ok {
                        proof {
                            if in_order {
                                lemma_refuted_step(
                                    old(grid),
                                    &grid_before,
                                    list_before,
                                    grid,
                                    worklist@,
                                    option_data,
                                    item,
                                    done,
                                    pos_to_update,
                                );
                            }
                        }
                        return Err(pos_to_update);
                    }
                    proof {
                        if in_order {
                            if applied {
                                crate::collapse::support::lemma_direction_done(
                                    &grid_before,
                                    grid,
                                    list_before,
                                    worklist@,
                                    option_data,
                                    flight,
                                    pos_to_update,
                                );
                            } else {
                                assert(grid.tiles@ =~= grid_before.tiles@);
                                assert(worklist@ == list_before);
                                crate::collapse::support::lemma_direction_idle(
                                    &grid_before,
                                    list_before,
                                    option_data,
                                    flight,
                                );
                                crate::collapse::support::lemma_tracking_same_cells(
                                    grid,
                                    &grid_before,
                                    list_before,
                                    option_data,
                                    crate::collapse::support::Flight {
                                        at: fa,
                                        option: fo,
                                        done: done + 1,
                                    },
                                );
                            }
                        }
                    }
                },
                None => {
                    proof {
                        if in_order {
                            crate::collapse::support::lemma_direction_idle(
                                grid,
                                list_before,
                                option_data,
                                flight,
                            );
                        }
                    }
                },
            }
        }
        proof {
            if in_order {
                crate::collapse::support::lemma_landed(
                    grid,
                    worklist@,
                    option_data,
                    crate::collapse::support::Flight { at: fa, option: fo, done: n as int },
                );
            }
        }
        Ok(())
    }

    /// Draws the consequences of every item of the work list, and of every
    /// option that is removed on the way, until the work list is empty or a
    /// cell is left without options.
    ///
    /// For each item and each direction, the cell that has the cell of the
    /// item as its neighbour in that direction is looked at, unless it is
    /// empty or collapsed. Every option that the removed option permitted
    /// beside it, on the side of that cell, loses one way to be in that cell
    /// from that direction. The queue is told the new entropy of each cell
    /// that lost an option.
    ///
    /// Returns the position of the first cell that is found without options.
    ///
    /// With an empty work list nothing happens. A cell that has lost an
    /// option has its entropy as key afterwards, and every other cell the
    /// key that it had; after a success every cell that has lost an option
    /// has one left. Under a table that lets every option stand beside
    /// every option, with the account of ways in order and only collapsed
    /// cells on the work list, no cell loses an option. Where the account
    /// of ways was in order, a failure is founded: the cell had no option
    /// from the start, or it is cut off from an option that it could become.
    pub fn propagate(
        &mut self,
        grid: &mut GridMap<D, CollapsibleTile<D>>,
        option_data: &PerOptionData<D>,
        queue: &mut EntrophyQueue<D>,
    ) -> (r: Result<(), D::Pos>)
        requires
            option_data.wf(),
            spec_cells_wf(old(grid), option_data),
            old(queue).wf(),
            spec_all_queued(old(grid), old(queue)),
            spec_items_ok(old(self).inner@, &old(grid).size, option_data),
        ensures
            spec_cells_wf(final(grid), option_data),
            spec_cells_follow(final(grid), old(grid)),
            spec_same_collapsed(final(grid), old(grid)),
            final(queue).wf(),
            spec_all_queued(final(grid), final(queue)),
            final(queue).length == old(queue).length,
            final(queue).by_pos@.len() == old(queue).by_pos@.len(),
            forall|o: int|
                0 <= o < old(queue).by_pos@.len() ==> (#[trigger] final(queue).by_pos@[o] is Some
                    <==> old(queue).by_pos@[o] is Some),
            spec_items_ok(final(self).inner@, &old(grid).size, option_data),
            r is Ok ==> final(self).inner@.len() == 0,
            r is Err ==> {
                &&& final(grid).spec_at(r->Err_0) is Some
                &&& final(grid).spec_at(r->Err_0)->0.collapsed_option is None
                &&& final(grid).spec_at(r->Err_0)->0.num_options == 0
            },
            old(self).inner@.len() == 0 ==> r is Ok && final(grid).tiles@ == old(grid).tiles@
                && final(queue).by_pos@ == old(queue).by_pos@,
            spec_keys_renewed(final(grid), final(queue), old(grid), old(queue)),
            r is Ok ==> spec_none_emptied(final(grid), old(grid)),
            r is Ok ==> forall|k: int, e: int|
                0 <= k < old(self).inner@.len() && 0 <= e < D::Dir::spec_count() ==> !#[trigger] spec_strikes_empty(
                    old(grid),
                    option_data,
                    &old(self).inner@[k],
                    e,
                ),
            spec_nothing_lost(old(grid), old(self).inner@, option_data) ==> r is Ok && spec_all_full(
                final(grid),
                option_data,
            ),
            r is Err && crate::collapse::support::spec_tracking(
                old(grid),
                old(self).inner@,
                option_data,
                crate::collapse::support::spec_no_flight(),
            ) ==> crate::collapse::support::spec_refuted(
                final(grid),
                final(self).inner@,
                option_data,
                r->Err_0,
                old(grid),
            ),
            r is Ok && crate::collapse::support::spec_tracking(
                old(grid),
                old(self).inner@,
                option_data,
                crate::collapse::support::spec_no_flight(),
            ) ==> crate::collapse::support::spec_tracking(
                final(grid),
                final(self).inner@,
                option_data,
                crate::collapse::support::spec_no_flight(),
            ),
    {
        let ghost cells = grid.tiles@.len() as int;
        let ghost in_order = crate::collapse::support::spec_tracking(
            grid,
            self.inner@,
            option_data,
            crate::collapse::support::spec_no_flight(),
        );
        let ghost mut untouched: bool = true;
        let ghost guard = spec_nothing_lost(grid, self.inner@, option_data);
        let ghost mut bottom: int = self.inner@.len() as int;
        proof {
            lemma_total_options_nonnegative(grid.tiles@, cells);
        }
        while self.inner.len() > 0
            invariant
                untouched ==> self.inner@ == old(self).inner@ && grid.tiles@ == old(grid).tiles@
                    && queue.by_pos@ == old(queue).by_pos@,
                old(self).inner@.len() == 0 ==> untouched,
                spec_keys_renewed(grid, queue, old(grid), old(queue)),
                spec_none_emptied(grid, old(grid)),
                guard == spec_nothing_lost(old(grid), old(self).inner@, option_data),
                0 <= bottom <= self.inner@.len(),
                bottom <= old(self).inner@.len(),
                self.inner@.take(bottom) == old(self).inner@.take(bottom),
                forall|k: int, e: int|
                    bottom <= k < old(self).inner@.len() && 0 <= e < D::Dir::spec_count()
                        ==> !#[trigger] spec_strikes_empty(old(grid), option_data, &old(self).inner@[k], e),
                spec_cells_wf(old(grid), option_data),
                in_order == crate::collapse::support::spec_tracking(
                    old(grid),
                    old(self).inner@,
                    option_data,
                    crate::collapse::support::spec_no_flight(),
                ),
                guard ==> in_order && spec_nothing_lost(grid, self.inner@, option_data),
                option_data.wf(),
                spec_cells_wf(grid, option_data),
                spec_cells_follow(grid, old(grid)),
                spec_same_collapsed(grid, old(grid)),
                queue.wf(),
                spec_all_queued(grid, queue),
                queue.length == old(queue).length,
                queue.by_pos@.len() == old(queue).by_pos@.len(),
                forall|o: int|
                    0 <= o < old(queue).by_pos@.len() ==> (#[trigger] queue.by_pos@[o] is Some
                        <==> old(queue).by_pos@[o] is Some),
                grid.size == old(grid).size,
                cells == grid.tiles@.len(),
                spec_items_ok(self.inner@, &grid.size, option_data),
                0 <= spec_total_options(grid.tiles@, cells),
                in_order ==> crate::collapse::support::spec_tracking(
                    grid,
                    self.inner@,
                    option_data,
                    crate::collapse::support::spec_no_flight(),
                ),
            decreases spec_total_options(grid.tiles@, cells), self.inner@.len(),
        {
            let ghost grid_before = *grid;
            let ghost queue_before = *queue;
            let ghost items_before = self.inner@;
            let item: PropagateItem<D> = self.inner.pop().unwrap();
            proof {
                untouched = false;
                assert(item == items_before[items_before.len() - 1]);
                assert(self.inner@ == items_before.drop_last());
                if in_order {
                    crate::collapse::support::lemma_take_off(grid, items_before, option_data);
                }
                assert forall|k: int| 0 <= k < self.inner@.len() implies grid.size.spec_valid(
                    &(#[trigger] self.inner@[k]).position,
                ) && self.inner@[k].to_remove < option_data.spec_option_count() by {
                    assert(self.inner@[k] == items_before[k]);
                }
                if guard {
                    assert(spec_nothing_to_lose(grid, self.inner@, option_data, &item));
                }
            }
            let ghost struck_last = items_before.len() == bottom;
            let ghost popped = self.inner@;
            proof {
                if struck_last {
                    assert(items_before.take(bottom)[bottom - 1] == old(self).inner@.take(bottom)[bottom - 1]);
                    assert(item == old(self).inner@[bottom - 1]);
                    assert(popped.take(bottom - 1) =~= old(self).inner@.take(bottom - 1)) by {
                        assert forall|i: int| 0 <= i < bottom - 1 implies popped[i] == old(self).inner@[i] by {
                            assert(items_before.take(bottom)[i] == old(self).inner@.take(bottom)[i]);
                        }
                    }
                } else {
                    assert(popped.take(bottom) =~= old(self).inner@.take(bottom)) by {
                        assert forall|i: int| 0 <= i < bottom implies popped[i] == old(self).inner@[i] by {
                            assert(items_before.take(bottom)[i] == old(self).inner@.take(bottom)[i]);
                        }
                    }
                }
            }
            let result: Result<(), D::Pos> = Self::process_item(
                &item,
                grid,
                option_data,
                queue,
                &mut self.inner,
            );
            proof {
                lemma_total_options_nonnegative(grid.tiles@, cells);
                lemma_cells_follow_trans(grid, &grid_before, old(grid));
                lemma_keys_renewed_trans(grid, queue, &grid_before, &queue_before, old(grid), old(queue));
                let lower = if struck_last {
                    bottom - 1
                } else {
                    bottom
                };
                assert(self.inner@.take(lower) =~= old(self).inner@.take(lower)) by {
                    assert forall|i: int| 0 <= i < lower implies self.inner@[i] == old(self).inner@[i] by {
                        assert(self.inner@.take(popped.len() as int)[i] == popped[i]);
                        assert(popped.take(lower)[i] == old(self).inner@.take(lower)[i]);
                    }
                }
                if struck_last && result is Ok {
                    assert forall|e: int| 0 <= e < D::Dir::spec_count() implies !#[trigger] spec_strikes_empty(
                        old(grid),
                        option_data,
                        &old(self).inner@[bottom - 1],
                        e,
                    ) by {
                        if spec_strikes_empty(old(grid), option_data, &item, e) {
                            assert forall|o: int|
                                0 <= o < old(grid).tiles@.len() && old(grid).tiles@[o] is Some
                                    && old(grid).tiles@[o]->0.collapsed_option is None implies (
                            #[trigger] grid_before.tiles@[o])->0.num_options <= old(grid).tiles@[o]->0.num_options by {
                                assert(spec_key_renewed(
                                    grid_before.tiles@[o]->0,
                                    queue_before.by_pos@[o],
                                    old(grid).tiles@[o]->0,
                                    old(queue).by_pos@[o],
                                ));
                            }
                            lemma_strikes_later(&grid_before, old(grid), option_data, &item, e);
                            assert(!spec_strikes_empty(&grid_before, option_data, &item, e));
                        }
                    }
                }
                bottom = lower;
                if guard {
                    assert forall|k: int| 0 <= k < self.inner@.len() implies grid.tiles@[grid.size.spec_offset(
                        &(#[trigger] self.inner@[k]).position,
                    ) as int] is Some && grid.tiles@[grid.size.spec_offset(
                        &self.inner@[k].position,
                    ) as int]->0.collapsed_option is Some by {
                        assert(self.inner@[k] == items_before[k]);
                        grid.size.lemma_offset_in_range(&self.inner@[k].position);
                    }
                }
                if result is Ok {
                    assert forall|o: int|
                        0 <= o < old(grid).tiles@.len() && old(grid).tiles@[o] is Some && (
                        #[trigger] grid.tiles@[o])->0.num_options != old(grid).tiles@[o]->0.num_options implies grid.tiles@[o]->0.num_options
                        > 0 by {
                        assert(grid_before.tiles@[o] is Some);
                        if grid.tiles@[o]->0.num_options == grid_before.tiles@[o]->0.num_options {
                            assert(grid_before.tiles@[o]->0.num_options != old(grid).tiles@[o]->0.num_options);
                        }
                    }
                }
            }
            match result {
                Err(position) => {
                    proof {
                        if in_order {
                            assert(grid.spec_at(position) is Some);
                            assert(grid.size.spec_valid(&position));
                            grid.size.lemma_offset_in_range(&position);
                            let off = grid.size.spec_offset(&position) as int;
                            assert(grid.tiles@[off] is Some <==> grid_before.tiles@[off] is Some);
                            assert(grid_before.spec_at(position) == grid_before.tiles@[off]);
                            lemma_refuted_earlier(
                                grid,
                                self.inner@,
                                option_data,
                                position,
                                &grid_before,
                                old(grid),
                            );
                        }
                    }
                    return Err(position);
                },
                Ok(_) => {},
            }
        }
        Ok(())
    }
}

/// Whether the removal of the item meets, in the direction of index
/// `direction`, a cell that is not collapsed and has no option, although
/// the removed option permitted something on the side of that cell.
pub open spec fn spec_strikes_empty<D: Dimensionality>(
    grid: &GridMap<D, CollapsibleTile<D>>,
    table: &PerOptionData<D>,
    item: &PropagateItem<D>,
    direction: int,
) -> bool {
    let toward = D::Dir::spec_from_idx(direction as nat).spec_opposite();
    let to = toward.spec_march_step(&item.position, &grid.size);
    &&& to is Some
    &&& grid.spec_at(to->0) is Some
    &&& grid.spec_at(to->0)->0.collapsed_option is None
    &&& grid.spec_at(to->0)->0.num_options == 0
    &&& table.spec_enabled(item.to_remove as int, toward.spec_idx() as int).len() > 0
}

/// A removal that strikes an empty cell in a grid strikes it in every later
/// grid of the propagation.
pub proof fn lemma_strikes_later<D: Dimensionality>(
    later: &GridMap<D, CollapsibleTile<D>>,
    first: &GridMap<D, CollapsibleTile<D>>,
    table: &PerOptionData<D>,
    item: &PropagateItem<D>,
    direction: int,
)
    requires
        spec_cells_follow(later, first),
        spec_same_collapsed(later, first),
        spec_cells_wf(later, table),
        spec_cells_wf(first, table),
        first.wf(),
        forall|o: int|
            0 <= o < first.tiles@.len() && first.tiles@[o] is Some && first.tiles@[o]->0.collapsed_option is None
                ==> (#[trigger] later.tiles@[o])->0.num_options <= first.tiles@[o]->0.num_options,
        spec_strikes_empty(first, table, item, direction),
    ensures
        spec_strikes_empty(later, table, item, direction),
{
    let toward = D::Dir::spec_from_idx(direction as nat).spec_opposite();
    let to = toward.spec_march_step(&item.position, &first.size)->0;
    first.size.lemma_offset_in_range(&to);
    let at = first.size.spec_offset(&to) as int;
    assert(later.tiles@[at] is Some <==> first.tiles@[at] is Some);
    assert(later.tiles@[at]->0.num_options <= first.tiles@[at]->0.num_options);
}

/// Whether every cell that is not collapsed can become every option.
pub open spec fn spec_all_full<D: Dimensionality>(
    grid: &GridMap<D, CollapsibleTile<D>>,
    table: &PerOptionData<D>,
) -> bool {
    forall|o: int|
        0 <= o < grid.tiles@.len() && (#[trigger] grid.tiles@[o]) is Some && grid.tiles@[o]->0.collapsed_option is None
            ==> grid.tiles@[o]->0.num_options == table.spec_option_count()
}

/// Whether working the items off can cost no cell an option: the table
/// lets everything stand beside everything, the account of ways is in
/// order, the cell of every item is collapsed, and every cell that is not
/// collapsed can become every option.
pub open spec fn spec_nothing_lost<D: Dimensionality>(
    grid: &GridMap<D, CollapsibleTile<D>>,
    items: Seq<PropagateItem<D>>,
    table: &PerOptionData<D>,
) -> bool {
    &&& crate::collapse::resolver::spec_permissive(table)
    &&& crate::collapse::support::spec_tracking(
        grid,
        items,
        table,
        crate::collapse::support::spec_no_flight(),
    )
    &&& forall|k: int|
        0 <= k < items.len() ==> grid.tiles@[grid.size.spec_offset(&(#[trigger] items[k]).position) as int] is Some
            && grid.tiles@[grid.size.spec_offset(&items[k].position) as int]->0.collapsed_option is Some
    &&& spec_all_full(grid, table)
}

/// Whether the removal of the item can cost no cell an option: the table
/// lets everything stand beside everything, the account of ways is in
/// order with the item in flight, the cell of the item is collapsed, and
/// every cell that is not can become every option.
pub open spec fn spec_nothing_to_lose<D: Dimensionality>(
    grid: &GridMap<D, CollapsibleTile<D>>,
    items: Seq<PropagateItem<D>>,
    table: &PerOptionData<D>,
    item: &PropagateItem<D>,
) -> bool {
    &&& crate::collapse::resolver::spec_permissive(table)
    &&& crate::collapse::support::spec_tracking(
        grid,
        items,
        table,
        crate::collapse::support::Flight {
            at: grid.size.spec_offset(&item.position) as int,
            option: item.to_remove as int,
            done: 0,
        },
    )
    &&& grid.tiles@[grid.size.spec_offset(&item.position) as int] is Some
    &&& grid.tiles@[grid.size.spec_offset(&item.position) as int]->0.collapsed_option is Some
    &&& spec_all_full(grid, table)
}

/// Under a table that lets everything stand beside everything, a cell that
/// can become every option has ways to spare from the direction of a
/// collapsed neighbour one of whose options is being removed: the option of
/// the neighbour and the option in flight both stand for each of them.
pub proof fn lemma_ways_to_spare<D: Dimensionality>(
    grid: &GridMap<D, CollapsibleTile<D>>,
    items: Seq<PropagateItem<D>>,
    table: &PerOptionData<D>,
    item: &PropagateItem<D>,
    done: int,
    to_update: D::Pos,
)
    requires
        table.wf(),
        grid.wf(),
        spec_cells_wf(grid, table),
        crate::collapse::resolver::spec_permissive(table),
        0 <= done < D::Dir::spec_count(),
        grid.size.spec_valid(&item.position),
        item.to_remove < table.spec_option_count(),
        crate::collapse::support::spec_tracking(
            grid,
            items,
            table,
            crate::collapse::support::Flight {
                at: grid.size.spec_offset(&item.position) as int,
                option: item.to_remove as int,
                done,
            },
        ),
        D::Dir::spec_from_idx(done as nat).spec_opposite().spec_march_step(&item.position, &grid.size)
            == Some(to_update),
        grid.spec_at(item.position) is Some,
        grid.spec_at(item.position)->0.collapsed_option is Some,
        grid.spec_at(to_update) is Some,
        grid.spec_at(to_update)->0.collapsed_option is None,
        grid.spec_at(to_update)->0.num_options == table.spec_option_count(),
    ensures
        spec_ways_to_spare(
            &grid.spec_at(to_update)->0,
            table.spec_enabled(
                item.to_remove as int,
                D::Dir::spec_from_idx(done as nat).spec_opposite().spec_idx() as int,
            ),
            done,
        ),
{
    let direction = D::Dir::spec_from_idx(done as nat);
    let toward = direction.spec_opposite();
    let size = grid.size;
    let fa = size.spec_offset(&item.position) as int;
    let fo = item.to_remove as int;
    let flight = crate::collapse::support::Flight { at: fa, option: fo, done };
    D::Dir::lemma_from_idx(done as nat);
    toward.lemma_idx();
    direction.lemma_idx();
    direction.lemma_opposite();
    toward.lemma_march_step_back(&item.position, &size);
    size.lemma_offset_in_range(&item.position);
    size.lemma_offset_in_range(&to_update);
    size.lemma_pos_from_offset_of_offset(&to_update);
    let at = size.spec_offset(&to_update) as int;
    let cell = grid.tiles@[at]->0;
    let enabled = table.spec_enabled(fo, toward.spec_idx() as int);
    let held = grid.tiles@[fa]->0.collapsed_option->0 as int;
    assert(grid.tiles@[fa]->0.wf(table));
    assert(cell.wf(table));
    assert forall|idx: int| 0 <= idx < enabled.len() implies cell.ways_to_be_option.spec_ways(
        #[trigger] enabled[idx] as int,
        done,
    ) >= 2 by {
        let k = enabled[idx] as int;
        assert(0 <= k < table.spec_option_count());
        lemma_count_full(cell.ways_to_be_option.table@, table.spec_option_count() as int, k);
        assert(cell.ways_to_be_option.spec_possible(k));
        assert(crate::collapse::support::spec_entry_ok(grid, items, table, flight, at, done, k));
        assert(table.spec_allows(held, crate::collapse::support::spec_opposite_idx::<D>(done), k));
        assert(table.spec_allows(fo, crate::collapse::support::spec_opposite_idx::<D>(done), k));
        assert(crate::collapse::support::spec_counts(grid, items, flight, fa, done, held));
        assert(crate::collapse::support::spec_counts(grid, items, flight, fa, done, fo));
        assert(held != fo);
        if held < fo {
            crate::collapse::support::lemma_two_supporters(
                grid,
                items,
                table,
                flight,
                fa,
                done,
                k,
                table.spec_option_count() as int,
                held,
                fo,
            );
        } else {
            crate::collapse::support::lemma_two_supporters(
                grid,
                items,
                table,
                flight,
                fa,
                done,
                k,
                table.spec_option_count() as int,
                fo,
                held,
            );
        }
    }
}

/// A cell that is left without options while the removal of an item is
/// taken into account has failed with reason: it had no option from the
/// start, or it is cut off from an option that it could become.
pub proof fn lemma_refuted_step<D: Dimensionality>(
    first: &GridMap<D, CollapsibleTile<D>>,
    before: &GridMap<D, CollapsibleTile<D>>,
    items_before: Seq<PropagateItem<D>>,
    after: &GridMap<D, CollapsibleTile<D>>,
    items_after: Seq<PropagateItem<D>>,
    table: &PerOptionData<D>,
    item: &PropagateItem<D>,
    done: int,
    to_update: D::Pos,
)
    requires
        table.wf(),
        before.wf(),
        spec_cells_wf(first, table),
        spec_cells_wf(before, table),
        spec_cells_follow(before, first),
        spec_same_collapsed(before, first),
        spec_none_emptied(before, first),
        0 <= done < D::Dir::spec_count(),
        before.size.spec_valid(&item.position),
        item.to_remove < table.spec_option_count(),
        crate::collapse::support::spec_tracking(
            before,
            items_before,
            table,
            crate::collapse::support::Flight {
                at: before.size.spec_offset(&item.position) as int,
                option: item.to_remove as int,
                done,
            },
        ),
        D::Dir::spec_from_idx(done as nat).spec_opposite().spec_march_step(&item.position, &before.size)
            == Some(to_update),
        before.size == after.size,
        before.size == first.size,
        before.tiles@.len() == after.tiles@.len(),
        forall|o: int|
            0 <= o < before.tiles@.len() && o != before.size.spec_offset(&to_update) ==> after.tiles@[o]
                == before.tiles@[o],
        items_before.len() <= items_after.len(),
        items_after.take(items_before.len() as int) == items_before,
        forall|idx: int|
            items_before.len() <= idx < items_after.len() ==> (#[trigger] items_after[idx]).position
                == to_update,
        before.tiles@[before.size.spec_offset(&to_update) as int] is Some,
        before.tiles@[before.size.spec_offset(&to_update) as int]->0.collapsed_option is None,
        before.tiles@[before.size.spec_offset(&to_update) as int]->0.num_options == 0 || exists|idx: int|
            0 <= idx < table.spec_enabled(
                item.to_remove as int,
                D::Dir::spec_from_idx(done as nat).spec_opposite().spec_idx() as int,
            ).len() && before.tiles@[before.size.spec_offset(&to_update) as int]->0.ways_to_be_option.spec_ways(
                #[trigger] table.spec_enabled(
                    item.to_remove as int,
                    D::Dir::spec_from_idx(done as nat).spec_opposite().spec_idx() as int,
                )[idx] as int,
                done,
            ) == 1 && before.tiles@[before.size.spec_offset(&to_update) as int]->0.ways_to_be_option.spec_possible(
                table.spec_enabled(
                    item.to_remove as int,
                    D::Dir::spec_from_idx(done as nat).spec_opposite().spec_idx() as int,
                )[idx] as int,
            ),
    ensures
        crate::collapse::support::spec_refuted(after, items_after, table, to_update, first),
{
    let size = before.size;
    let direction = D::Dir::spec_from_idx(done as nat);
    let toward = direction.spec_opposite();
    D::Dir::lemma_from_idx(done as nat);
    D::Dir::spec_from_idx(0).lemma_idx();
    toward.lemma_idx();
    direction.lemma_opposite();
    toward.lemma_march_step_back(&item.position, &size);
    size.lemma_offset_in_range(&to_update);
    size.lemma_offset_in_range(&item.position);
    let at = size.spec_offset(&to_update) as int;
    let cell = before.tiles@[at]->0;
    assert(first.tiles@[at] is Some);
    assert(first.spec_at(to_update) == first.tiles@[at]);
    if cell.num_options == 0 {
        assert(first.tiles@[at]->0.num_options == 0);
    } else {
        let enabled = table.spec_enabled(item.to_remove as int, toward.spec_idx() as int);
        let idx = choose|idx: int|
            0 <= idx < enabled.len() && cell.ways_to_be_option.spec_ways(#[trigger] enabled[idx] as int, done)
                == 1 && cell.ways_to_be_option.spec_possible(enabled[idx] as int);
        let k = enabled[idx] as int;
        assert(table.spec_allows(
            item.to_remove as int,
            crate::collapse::support::spec_opposite_idx::<D>(done),
            k,
        ));
        assert(0 <= k < table.spec_option_count());
        crate::collapse::support::lemma_cut_off(
            before,
            items_before,
            after,
            items_after,
            table,
            crate::collapse::support::Flight {
                at: size.spec_offset(&item.position) as int,
                option: item.to_remove as int,
                done,
            },
            to_update,
            k,
        );
        assert(cell.wf(table));
        assert(first.tiles@[at]->0.wf(table));
        assert(cell.spec_follows(&first.tiles@[at]->0));
        assert(first.tiles@[at]->0.collapsed_option is None);
        assert(cell.ways_to_be_option.spec_ways(k, 0) <= first.tiles@[at]->0.ways_to_be_option.spec_ways(k, 0));
        assert(first.spec_at(to_update)->0.ways_to_be_option.spec_possible(k));
        assert(crate::collapse::support::spec_cut_off(after, items_after, table, to_update, done, k));
    }
}

/// A failure that is founded with respect to a grid is founded with
/// respect to every earlier grid of the propagation.
pub proof fn lemma_refuted_earlier<D: Dimensionality>(
    grid: &GridMap<D, CollapsibleTile<D>>,
    items: Seq<PropagateItem<D>>,
    table: &PerOptionData<D>,
    position: D::Pos,
    mid: &GridMap<D, CollapsibleTile<D>>,
    first: &GridMap<D, CollapsibleTile<D>>,
)
    requires
        crate::collapse::support::spec_refuted(grid, items, table, position, mid),
        spec_cells_follow(mid, first),
        spec_same_collapsed(mid, first),
        spec_none_emptied(mid, first),
        spec_cells_wf(mid, table),
        spec_cells_wf(first, table),
        mid.wf(),
        mid.spec_at(position) is Some,
        mid.spec_at(position)->0.collapsed_option is None,
    ensures
        crate::collapse::support::spec_refuted(grid, items, table, position, first),
{
    D::Dir::spec_from_idx(0).lemma_idx();
    mid.size.lemma_offset_in_range(&position);
    let at = mid.size.spec_offset(&position) as int;
    assert(first.tiles@[at] is Some);
    assert(first.spec_at(position) == first.tiles@[at]);
    assert(mid.tiles@[at]->0.spec_follows(&first.tiles@[at]->0));
    if mid.spec_at(position)->0.num_options != 0 {
        let (direction, option) = choose|direction: int, option: int|
            0 <= direction < D::Dir::spec_count() && 0 <= option < table.spec_option_count()
                && mid.spec_at(position)->0.ways_to_be_option.spec_possible(option)
                && #[trigger] crate::collapse::support::spec_cut_off(
                grid,
                items,
                table,
                position,
                direction,
                option,
            );
        assert(mid.tiles@[at]->0.wf(table));
        assert(first.tiles@[at]->0.wf(table));
        assert(mid.tiles@[at]->0.ways_to_be_option.spec_ways(option, 0) <= first.tiles@[at]->0.ways_to_be_option.spec_ways(
            option,
            0,
        ));
        assert(first.spec_at(position)->0.ways_to_be_option.spec_possible(option));
    }
}

/// A cell that can become as many options as there are can become each.
pub proof fn lemma_count_full(rows: Seq<Vec<usize>>, n: int, o: int)
    requires
        0 <= o < n,
        crate::collapse::option::spec_count_possible(rows, n) == n,
    ensures
        rows[o]@[0] != 0,
    decreases n,
{
    crate::collapse::resolver::lemma_count_at_most(rows, n - 1);
    if o < n - 1 {
        lemma_count_full(rows, n - 1, o);
    }
}

/// Whether the cell has ways to spare from the direction for each of the
/// options: two at least, so that none of them goes when each loses one.
pub open spec fn spec_ways_to_spare<D: Dimensionality>(
    cell: &CollapsibleTile<D>,
    options: Seq<usize>,
    direction: int,
) -> bool {
    forall|idx: int|
        0 <= idx < options.len() ==> cell.ways_to_be_option.spec_ways(
            #[trigger] options[idx] as int,
            direction,
        ) >= 2
}

/// Whether the key is right for the cell `after`, given the cell `before`
/// and the key that it had: the cell has its noise and no more options than
/// before; where it has lost none, it has its weight and its key of before;
/// where it has lost one, the key is its entropy.
pub open spec fn spec_key_renewed<D: Dimensionality>(
    after: CollapsibleTile<D>,
    key: Option<u64>,
    before: CollapsibleTile<D>,
    key_before: Option<u64>,
) -> bool {
    &&& after.num_options <= before.num_options
    &&& after.entrophy_noise == before.entrophy_noise
    &&& after.num_options == before.num_options ==> after.weight == before.weight && key == key_before
    &&& after.num_options != before.num_options ==> key == Some(after.spec_entrophy() as u64)
}

/// Whether the queue holds the right key for every cell that was there and
/// not collapsed before: the key of before where the cell has lost no
/// option since, and the entropy of the cell where it has.
pub open spec fn spec_keys_renewed<D: Dimensionality>(
    after: &GridMap<D, CollapsibleTile<D>>,
    queue: &EntrophyQueue<D>,
    before: &GridMap<D, CollapsibleTile<D>>,
    queue_before: &EntrophyQueue<D>,
) -> bool {
    forall|o: int|
        0 <= o < before.tiles@.len() && before.tiles@[o] is Some && before.tiles@[o]->0.collapsed_option is None
            ==> spec_key_renewed(
            after.tiles@[o]->0,
            #[trigger] queue.by_pos@[o],
            before.tiles@[o]->0,
            queue_before.by_pos@[o],
        )
}

/// Whether every cell that has lost an option has an option left.
pub open spec fn spec_none_emptied<D: Dimensionality>(
    after: &GridMap<D, CollapsibleTile<D>>,
    before: &GridMap<D, CollapsibleTile<D>>,
) -> bool {
    forall|o: int|
        0 <= o < before.tiles@.len() && before.tiles@[o] is Some && (#[trigger] after.tiles@[o])->0.num_options
            != before.tiles@[o]->0.num_options ==> after.tiles@[o]->0.num_options > 0
}

/// Keys that are right from one state to the next, and from that to a
/// third, are right from the first to the third.
pub proof fn lemma_keys_renewed_trans<D: Dimensionality>(
    last: &GridMap<D, CollapsibleTile<D>>,
    last_queue: &EntrophyQueue<D>,
    mid: &GridMap<D, CollapsibleTile<D>>,
    mid_queue: &EntrophyQueue<D>,
    first: &GridMap<D, CollapsibleTile<D>>,
    first_queue: &EntrophyQueue<D>,
)
    requires
        spec_keys_renewed(last, last_queue, mid, mid_queue),
        spec_keys_renewed(mid, mid_queue, first, first_queue),
        spec_cells_follow(mid, first),
        spec_same_collapsed(mid, first),
    ensures
        spec_keys_renewed(last, last_queue, first, first_queue),
{
    assert forall|o: int|
        0 <= o < first.tiles@.len() && first.tiles@[o] is Some && first.tiles@[o]->0.collapsed_option is None implies spec_key_renewed(
        last.tiles@[o]->0,
        #[trigger] last_queue.by_pos@[o],
        first.tiles@[o]->0,
        first_queue.by_pos@[o],
    ) by {
        assert(mid.tiles@[o] is Some);
        assert(mid.tiles@[o]->0.collapsed_option is None);
        assert(spec_key_renewed(
            mid.tiles@[o]->0,
            mid_queue.by_pos@[o],
            first.tiles@[o]->0,
            first_queue.by_pos@[o],
        ));
        assert(spec_key_renewed(
            last.tiles@[o]->0,
            last_queue.by_pos@[o],
            mid.tiles@[o]->0,
            mid_queue.by_pos@[o],
        ));
    }
}

/// Whether `after` is what the removal of an option from the neighbour in
/// the direction of index `direction` makes of the cell `before`, where the
/// removed option permitted the options `enabled` beside it: every option
/// that the cell can still become it could become before, and has lost one
/// way from that direction if it is among `enabled`, and none if it is not.
pub open spec fn spec_removal_applied<D: Dimensionality>(
    before: &CollapsibleTile<D>,
    after: &CollapsibleTile<D>,
    enabled: Seq<usize>,
    direction: int,
    options: int,
) -> bool {
    forall|j: int|
        0 <= j < options && #[trigger] after.ways_to_be_option.spec_possible(j) ==> {
            &&& before.ways_to_be_option.spec_possible(j)
            &&& after.ways_to_be_option.table@[j]@ == before.ways_to_be_option.table@[j]@.update(
                direction,
                (before.ways_to_be_option.spec_ways(j, direction) - if crate::collapse::support::spec_lists(
                    enabled,
                    j,
                ) {
                    1int
                } else {
                    0int
                }) as usize,
            )
        }
}

/// Whether the work list `items` is the work list `base` with one item
/// behind it for each option that the cell at `position` could become
/// `before` and cannot become `after`, each once.
pub open spec fn spec_removals_listed<D: Dimensionality>(
    before: &CollapsibleTile<D>,
    after: &CollapsibleTile<D>,
    position: D::Pos,
    base: Seq<PropagateItem<D>>,
    items: Seq<PropagateItem<D>>,
    options: int,
) -> bool {
    &&& base.len() <= items.len()
    &&& items.take(base.len() as int) == base
    &&& forall|k: int|
        base.len() <= k < items.len() ==> (#[trigger] items[k]).position == position
            && before.ways_to_be_option.spec_possible(items[k].to_remove as int)
            && !after.ways_to_be_option.spec_possible(items[k].to_remove as int)
    &&& forall|a: int, b: int|
        base.len() <= a < b < items.len() ==> (#[trigger] items[a]).to_remove != (
        #[trigger] items[b]).to_remove
    &&& forall|j: int|
        0 <= j < options && before.ways_to_be_option.spec_possible(j)
            && !#[trigger] after.ways_to_be_option.spec_possible(j) ==> exists|k: int|
            base.len() <= k < items.len() && (#[trigger] items[k]).to_remove == j
}

/// One more of the options `enabled` loses a way: what holds of the first
/// `k` of them holds of the first `k + 1`.
pub proof fn lemma_removal_step<D: Dimensionality>(
    start: &CollapsibleTile<D>,
    before: &CollapsibleTile<D>,
    after: &CollapsibleTile<D>,
    enabled: Seq<usize>,
    k: int,
    direction: int,
    table: &PerOptionData<D>,
    removed: bool,
)
    requires
        table.wf(),
        start.wf(table),
        before.wf(table),
        after.wf(table),
        start.collapsed_option is None,
        before.collapsed_option is None,
        after.collapsed_option is None,
        0 <= k < enabled.len(),
        0 <= direction < D::Dir::spec_count(),
        crate::collapse::table::spec_increasing(enabled),
        enabled[k] < table.spec_option_count(),
        spec_removal_applied(start, before, enabled.take(k), direction, table.spec_option_count() as int),
        forall|i: int|
            0 <= i < table.spec_option_count() && i != enabled[k] ==> after.ways_to_be_option.table@[i]
                == before.ways_to_be_option.table@[i],
        after.ways_to_be_option.spec_possible(enabled[k] as int) == (
        before.ways_to_be_option.spec_possible(enabled[k] as int) && !removed),
        !removed ==> after.ways_to_be_option.table@[enabled[k] as int]@
            == before.ways_to_be_option.table@[enabled[k] as int]@.update(
            direction,
            if before.ways_to_be_option.spec_ways(enabled[k] as int, direction) == 0 {
                0usize
            } else {
                (before.ways_to_be_option.spec_ways(enabled[k] as int, direction) - 1) as usize
            },
        ),
    ensures
        spec_removal_applied(
            start,
            after,
            enabled.take(k + 1),
            direction,
            table.spec_option_count() as int,
        ),
{
    let j0 = enabled[k] as int;
    let s0 = enabled.take(k);
    let s1 = enabled.take(k + 1);
    assert(s1 == s0.push(enabled[k]));
    assert forall|j: int|
        0 <= j < table.spec_option_count() && #[trigger] after.ways_to_be_option.spec_possible(
            j,
        ) implies {
        &&& start.ways_to_be_option.spec_possible(j)
        &&& after.ways_to_be_option.table@[j]@ == start.ways_to_be_option.table@[j]@.update(
            direction,
            (start.ways_to_be_option.spec_ways(j, direction) - if crate::collapse::support::spec_lists(
                s1,
                j,
            ) {
                1int
            } else {
                0int
            }) as usize,
        )
    } by {
        if j != j0 {
            assert(after.ways_to_be_option.table@[j] == before.ways_to_be_option.table@[j]);
            assert(before.ways_to_be_option.spec_possible(j));
            if crate::collapse::support::spec_lists(s1, j) {
                let m = choose|m: int| 0 <= m < s1.len() && #[trigger] s1[m] == j;
                assert(m < k);
                assert(s0[m] == j);
            }
            if crate::collapse::support::spec_lists(s0, j) {
                let m = choose|m: int| 0 <= m < s0.len() && #[trigger] s0[m] == j;
                assert(s1[m] == j);
            }
        } else {
            assert(before.ways_to_be_option.spec_possible(j));
            assert(s1[k] == j);
            if crate::collapse::support::spec_lists(s0, j) {
                let m = choose|m: int| 0 <= m < s0.len() && #[trigger] s0[m] == j;
                assert(enabled[m] < enabled[k]);
            }
            // the row is all positive, so there was a way to take
            assert(crate::collapse::option::spec_row_positive(before.ways_to_be_option.table@[j]@)) by {
                D::Dir::spec_from_idx(0).lemma_idx();
                if crate::collapse::option::spec_row_zero(before.ways_to_be_option.table@[j]@) {
                    assert(before.ways_to_be_option.table@[j]@[0] == 0);
                }
            }
            assert(before.ways_to_be_option.spec_ways(j, direction) > 0);
            let row = start.ways_to_be_option.table@[j]@;
            assert(before.ways_to_be_option.table@[j]@ == row.update(
                direction,
                start.ways_to_be_option.spec_ways(j, direction),
            ));
            assert(row.update(direction, start.ways_to_be_option.spec_ways(j, direction)).update(
                direction,
                (start.ways_to_be_option.spec_ways(j, direction) - 1) as usize,
            ) =~= row.update(
                direction,
                (start.ways_to_be_option.spec_ways(j, direction) - 1) as usize,
            ));
        }
    }
}

/// One more option has been looked at: the work list holds the removals of
/// the cell so far.
pub proof fn lemma_listing_step<D: Dimensionality>(
    start: &CollapsibleTile<D>,
    before: &CollapsibleTile<D>,
    after: &CollapsibleTile<D>,
    position: D::Pos,
    base: Seq<PropagateItem<D>>,
    items_before: Seq<PropagateItem<D>>,
    items_after: Seq<PropagateItem<D>>,
    enabled: Seq<usize>,
    k: int,
    options: int,
    removed: bool,
)
    requires
        0 <= k < enabled.len(),
        enabled[k] < options,
        crate::collapse::table::spec_increasing(enabled),
        spec_removals_listed(start, before, position, base, items_before, options),
        forall|idx: int|
            base.len() <= idx < items_before.len() ==> crate::collapse::support::spec_lists(
                enabled.take(k),
                (#[trigger] items_before[idx]).to_remove as int,
            ),
        forall|i: int|
            0 <= i < options && i != enabled[k] ==> after.ways_to_be_option.table@[i]
                == before.ways_to_be_option.table@[i],
        after.ways_to_be_option.spec_possible(enabled[k] as int) == (
        before.ways_to_be_option.spec_possible(enabled[k] as int) && !removed),
        removed ==> before.ways_to_be_option.spec_possible(enabled[k] as int),
        before.ways_to_be_option.spec_possible(enabled[k] as int)
            ==> start.ways_to_be_option.spec_possible(enabled[k] as int),
        items_after == if removed {
            items_before.push(PropagateItem { position, to_remove: enabled[k] })
        } else {
            items_before
        },
    ensures
        spec_removals_listed(start, after, position, base, items_after, options),
        forall|idx: int|
            base.len() <= idx < items_after.len() ==> crate::collapse::support::spec_lists(
                enabled.take(k + 1),
                (#[trigger] items_after[idx]).to_remove as int,
            ),
{
    let j0 = enabled[k] as int;
    let s0 = enabled.take(k);
    let s1 = enabled.take(k + 1);
    assert(s1 == s0.push(enabled[k]));
    assert(items_after.take(base.len() as int) =~= items_before.take(base.len() as int));
    assert forall|idx: int|
        base.len() <= idx < items_after.len() implies crate::collapse::support::spec_lists(
        s1,
        (#[trigger] items_after[idx]).to_remove as int,
    ) by {
        if idx < items_before.len() {
            let v = items_before[idx].to_remove as int;
            let m = choose|m: int| 0 <= m < s0.len() && #[trigger] s0[m] == v;
            assert(s1[m] == v);
        } else {
            assert(s1[k] == j0);
        }
    }
    assert forall|idx: int| base.len() <= idx < items_after.len() implies (
    #[trigger] items_after[idx]).position == position && start.ways_to_be_option.spec_possible(
        items_after[idx].to_remove as int,
    ) && !after.ways_to_be_option.spec_possible(items_after[idx].to_remove as int) by {
        if idx < items_before.len() {
            let v = items_before[idx].to_remove as int;
            assert(items_after[idx] == items_before[idx]);
            if v != j0 {
                assert(after.ways_to_be_option.table@[v] == before.ways_to_be_option.table@[v]);
            }
        }
    }
    assert forall|a: int, b: int| base.len() <= a < b < items_after.len() implies (
    #[trigger] items_after[a]).to_remove != (#[trigger] items_after[b]).to_remove by {
        if b < items_before.len() {
            assert(items_after[a] == items_before[a] && items_after[b] == items_before[b]);
        } else {
            let v = items_before[a].to_remove as int;
            let m = choose|m: int| 0 <= m < s0.len() && #[trigger] s0[m] == v;
            assert(enabled[m] < enabled[k]);
        }
    }
    assert forall|j: int|
        0 <= j < options && start.ways_to_be_option.spec_possible(j)
            && !#[trigger] after.ways_to_be_option.spec_possible(j) implies exists|idx: int|
        base.len() <= idx < items_after.len() && (#[trigger] items_after[idx]).to_remove == j by {
        if j != j0 {
            assert(after.ways_to_be_option.table@[j] == before.ways_to_be_option.table@[j]);
            assert(!before.ways_to_be_option.spec_possible(j));
            let idx = choose|idx: int|
                base.len() <= idx < items_before.len() && (#[trigger] items_before[idx]).to_remove
                    == j;
            assert(items_after[idx].to_remove == j);
        } else {
            if before.ways_to_be_option.spec_possible(j) {
                assert(removed);
                assert(items_after[items_before.len() as int].to_remove == j);
            } else {
                let idx = choose|idx: int|
                    base.len() <= idx < items_before.len() && (
                    #[trigger] items_before[idx]).to_remove == j;
                assert(items_after[idx].to_remove == j);
            }
        }
    }
}

/// The total of the options is never negative.
pub proof fn lemma_total_options_nonnegative<D: Dimensionality>(
    tiles: Seq<Option<CollapsibleTile<D>>>,
    n: int,
)
    ensures
        0 <= spec_total_options(tiles, n),
    decreases n,
{
    if n > 0 {
        lemma_total_options_nonnegative(tiles, n - 1);
    }
}

/// A cell that follows a cell that follows a third follows the third, as
/// long as a collapsed cell is not taken for one that is not.
pub proof fn lemma_follows_trans<D: Dimensionality>(
    c: &CollapsibleTile<D>,
    b: &CollapsibleTile<D>,
    a: &CollapsibleTile<D>,
)
    requires
        c.spec_follows(b),
        b.spec_follows(a),
        c.collapsed_option is None ==> b.collapsed_option is None,
    ensures
        c.spec_follows(a),
{
    if a.collapsed_option is None && c.collapsed_option is None {
        assert(c.ways_to_be_option.spec_not_above(&a.ways_to_be_option)) by {
            assert forall|i: int, d: int|
                0 <= i < c.ways_to_be_option.table@.len() && 0 <= d < D::Dir::spec_count() implies #[trigger] c.ways_to_be_option.spec_ways(
                i,
                d,
            ) <= a.ways_to_be_option.spec_ways(i, d) by {
                assert(c.ways_to_be_option.spec_ways(i, d) <= b.ways_to_be_option.spec_ways(i, d));
                assert(b.ways_to_be_option.spec_ways(i, d) <= a.ways_to_be_option.spec_ways(i, d));
            }
        }
    }
}

/// A grid whose cells follow those of a grid whose cells follow those of a
/// third, and which has the same cells collapsed as the second, has cells
/// that follow those of the third.
pub proof fn lemma_cells_follow_trans<D: Dimensionality>(
    c: &GridMap<D, CollapsibleTile<D>>,
    b: &GridMap<D, CollapsibleTile<D>>,
    a: &GridMap<D, CollapsibleTile<D>>,
)
    requires
        spec_cells_follow(c, b),
        spec_cells_follow(b, a),
        spec_same_collapsed(c, b),
        spec_same_collapsed(b, a),
    ensures
        spec_cells_follow(c, a),
        spec_same_collapsed(c, a),
{
    assert forall|o: int| 0 <= o < a.tiles@.len() implies {
        &&& (#[trigger] c.tiles@[o]) is Some <==> a.tiles@[o] is Some
        &&& c.tiles@[o] is Some ==> c.tiles@[o]->0.spec_follows(&a.tiles@[o]->0)
    } by {
        assert(b.tiles@[o] is Some <==> a.tiles@[o] is Some);
        if c.tiles@[o] is Some {
            lemma_follows_trans(&c.tiles@[o]->0, &b.tiles@[o]->0, &a.tiles@[o]->0);
        }
    }
    assert forall|o: int| 0 <= o < a.tiles@.len() && a.tiles@[o] is Some implies (
    #[trigger] c.tiles@[o])->0.collapsed_option == a.tiles@[o]->0.collapsed_option by {
        assert(b.tiles@[o] is Some);
        assert(b.tiles@[o]->0.collapsed_option == a.tiles@[o]->0.collapsed_option);
    }
}

} // verus!
