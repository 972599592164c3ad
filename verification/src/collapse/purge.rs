//! Removal of options from a cell in view of its neighbours.

use vstd::prelude::*;
use crate::collapse::queue::propagator::PropagateItem;
use crate::collapse::queue::propagator::lemma_follows_trans;
use crate::collapse::queue::propagator::spec_cells_follow;
use crate::collapse::queue::propagator::spec_cells_wf;
use crate::collapse::queue::propagator::spec_items_ok;
use crate::collapse::queue::propagator::spec_same_collapsed;
use crate::collapse::table::PerOptionData;
use crate::collapse::tile::CollapsibleTile;
use crate::dimension::Dimensionality;
use crate::direction::Direction;
use crate::map::GridMap;
use crate::position::GridPosition;
use crate::size::GridSize;

verus! {

/// Whether the numbers hold `value`.
pub fn contains_option(options: &Vec<usize>, value: usize) -> (r: bool)
    ensures
        r <==> exists|k: int| 0 <= k < options@.len() && #[trigger] options@[k] == value,
{
    let mut i: usize = 0;
    while i < options.len()
        invariant
            0 <= i <= options@.len(),
            forall|k: int| 0 <= k < i ==> #[trigger] options@[k] != value,
        decreases options@.len() - i,
    {
        if options[i] == value {
            return true;
        }
        i = i + 1;
    }
    false
}

/// Whether the neighbour of the position in the direction leaves the option
/// to the cell at the position.
///
/// A neighbour that is collapsed leaves the options that its own option
/// permits beside it, on the side of the cell. A neighbour that has lost
/// options leaves those that at least one of its remaining options permits
/// there. An empty place, and a neighbour that has lost no option yet, leave
/// every option.
pub open spec fn spec_left_by_neighbour<D: Dimensionality>(
    grid: &GridMap<D, CollapsibleTile<D>>,
    table: &PerOptionData<D>,
    position: D::Pos,
    direction: D::Dir,
    option_idx: int,
) -> bool {
    match grid.spec_neighbour(position, direction) {
        Some(cell) => match cell.collapsed_option {
            Some(collapsed) => table.spec_allows(
                collapsed as int,
                direction.spec_opposite().spec_idx() as int,
                option_idx,
            ),
            None => cell.num_options >= table.possible_options_count || exists|j: int|
                0 <= j < table.spec_option_count() && cell.ways_to_be_option.spec_possible(j)
                    && #[trigger] table.spec_allows(
                    j,
                    direction.spec_opposite().spec_idx() as int,
                    option_idx,
                ),
        },
        None => true,
    }
}

/// Whether the neighbours of the position in the first `n` directions all
/// leave the option to the cell at the position.
pub open spec fn spec_left_by_first<D: Dimensionality>(
    grid: &GridMap<D, CollapsibleTile<D>>,
    table: &PerOptionData<D>,
    position: D::Pos,
    option_idx: int,
    n: int,
) -> bool {
    forall|d: int|
        0 <= d < n ==> spec_left_by_neighbour(
            grid,
            table,
            position,
            #[trigger] D::Dir::spec_from_idx(d as nat),
            option_idx,
        )
}

/// Whether every neighbour of the position leaves the option to the cell at
/// the position.
pub open spec fn spec_compatible<D: Dimensionality>(
    grid: &GridMap<D, CollapsibleTile<D>>,
    table: &PerOptionData<D>,
    position: D::Pos,
    option_idx: int,
) -> bool {
    spec_left_by_first(grid, table, position, option_idx, D::Dir::spec_count() as int)
}

/// For each option, whether the neighbour of the position in the direction
/// leaves it to the cell at the position.
pub fn left_by_neighbour<D: Dimensionality>(
    grid: &GridMap<D, CollapsibleTile<D>>,
    option_data: &PerOptionData<D>,
    position: &D::Pos,
    direction: D::Dir,
) -> (r: Vec<bool>)
    requires
        option_data.wf(),
        spec_cells_wf(grid, option_data),
    ensures
        r@.len() == option_data.spec_option_count(),
        forall|o: int|
            0 <= o < r@.len() ==> #[trigger] r@[o] == spec_left_by_neighbour(
                grid,
                option_data,
                *position,
                direction,
                o,
            ),
{
    let count: usize = option_data.option_count();
    let toward: D::Dir = direction.opposite();
    let mut out: Vec<bool> = Vec::new();
    proof {
        toward.lemma_idx();
    }
    match grid.get_neighbour_at(position, &direction) {
        Some(tile) => {
            let cell: &CollapsibleTile<D> = tile.data();
            proof {
                let to = direction.spec_march_step(position, &grid.size)->0;
                if grid.size.spec_valid(&to) {
                    grid.size.lemma_offset_in_range(&to);
                }
                assert(cell.wf(option_data));
            }
            match cell.collapse_idx() {
                Some(collapsed) => {
                    let enabled: &Vec<usize> = option_data.get_all_enabled_in_direction(
                        collapsed,
                        toward,
                    );
                    let mut o: usize = 0;
                    while o < count
                        invariant
                            0 <= o <= count,
                            out@.len() == o,
                            enabled@ == option_data.spec_enabled(
                                collapsed as int,
                                toward.spec_idx() as int,
                            ),
                            forall|k: int|
                                0 <= k < o ==> #[trigger] out@[k] == option_data.spec_allows(
                                    collapsed as int,
                                    toward.spec_idx() as int,
                                    k,
                                ),
                        decreases count - o,
                    {
                        out.push(contains_option(enabled, o));
                        o = o + 1;
                    }
                },
                None => {
                    let reduced: bool = cell.num_compatible_options()
                        < option_data.possible_options_count();
                    let mut o: usize = 0;
                    while o < count
                        invariant
                            option_data.wf(),
                            cell.wf(option_data),
                            cell.collapsed_option is None,
                            0 <= o <= count,
                            count == option_data.spec_option_count(),
                            out@.len() == o,
                            forall|k: int|
                                0 <= k < o ==> #[trigger] out@[k] == (!reduced || exists|j: int|
                                    0 <= j < count && cell.ways_to_be_option.spec_possible(j)
                                        && #[trigger] option_data.spec_allows(
                                        j,
                                        toward.spec_idx() as int,
                                        k,
                                    )),
                        decreases count - o,
                    {
                        let mut left: bool = !reduced;
                        let mut j: usize = 0;
                        while j < count && !left
                            invariant
                                option_data.wf(),
                                cell.wf(option_data),
                                cell.collapsed_option is None,
                                0 <= j <= count,
                                count == option_data.spec_option_count(),
                                left ==> (!reduced || exists|i: int|
                                    0 <= i < count && cell.ways_to_be_option.spec_possible(i)
                                        && #[trigger] option_data.spec_allows(
                                        i,
                                        toward.spec_idx() as int,
                                        o as int,
                                    )),
                                !left ==> reduced && forall|i: int|
                                    0 <= i < j ==> !(cell.ways_to_be_option.spec_possible(i)
                                        && #[trigger] option_data.spec_allows(
                                        i,
                                        toward.spec_idx() as int,
                                        o as int,
                                    )),
                            decreases count - j + if left {
                                0int
                            } else {
                                1int
                            },
                        {
                            if cell.ways_to_be_option().is_possible(j) {
                                let enabled: &Vec<usize> = option_data.get_all_enabled_in_direction(
                                    j,
                                    toward,
                                );
                                if contains_option(enabled, o) {
                                    left = true;
                                    proof {
                                        let k = choose|k: int|
                                            0 <= k < enabled@.len() && #[trigger] enabled@[k] == o;
                                        assert(option_data.spec_enabled(
                                            j as int,
                                            toward.spec_idx() as int,
                                        )[k] == o);
                                        assert(option_data.spec_allows(
                                            j as int,
                                            toward.spec_idx() as int,
                                            o as int,
                                        ));
                                    }
                                } else {
                                    proof {
                                        if option_data.spec_allows(
                                            j as int,
                                            toward.spec_idx() as int,
                                            o as int,
                                        ) {
                                            let k = choose|k: int|
                                                0 <= k < option_data.spec_enabled(
                                                    j as int,
                                                    toward.spec_idx() as int,
                                                ).len() && #[trigger] option_data.spec_enabled(
                                                    j as int,
                                                    toward.spec_idx() as int,
                                                )[k] == o as int;
                                            assert(enabled@[k] == o);
                                        }
                                    }
                                }
                            }
                            if !left {
                                j = j + 1;
                            }
                        }
                        out.push(left);
                        o = o + 1;
                    }
                },
            }
        },
        None => {
            let mut o: usize = 0;
            while o < count
                invariant
                    0 <= o <= count,
                    out@.len() == o,
                    forall|k: int| 0 <= k < o ==> #[trigger] out@[k],
                decreases count - o,
            {
                out.push(true);
                o = o + 1;
            }
        },
    }
    out
}

/// Removes from the cell at the position the options that its neighbours
/// do not leave to it.
///
/// Returns `false`, and changes nothing, where the neighbours together leave
/// no option of the table at all.
pub fn purge_incompatible_options<D: Dimensionality>(
    grid: &mut GridMap<D, CollapsibleTile<D>>,
    position: &D::Pos,
    option_data: &PerOptionData<D>,
) -> (r: bool)
    requires
        option_data.wf(),
        spec_cells_wf(old(grid), option_data),
        old(grid).spec_at(*position) is Some,
        old(grid).spec_at(*position)->0.collapsed_option is None,
    ensures
        spec_cells_wf(final(grid), option_data),
        spec_cells_follow(final(grid), old(grid)),
        spec_same_collapsed(final(grid), old(grid)),
        r <==> exists|o: int|
            0 <= o < option_data.spec_option_count() && #[trigger] spec_compatible(
                old(grid),
                option_data,
                *position,
                o,
            ),
        !r ==> final(grid).tiles@ == old(grid).tiles@,
        forall|at: int|
            0 <= at < old(grid).tiles@.len() && at != old(grid).size.spec_offset(position) ==> final(grid).tiles@[at] == old(grid).tiles@[at],
        r ==> forall|o: int|
            0 <= o < option_data.spec_option_count() ==> (#[trigger] final(grid).spec_at(
                *position,
            )->0.ways_to_be_option.spec_possible(o) <==> (old(grid).spec_at(
                *position,
            )->0.ways_to_be_option.spec_possible(o) && spec_compatible(
                old(grid),
                option_data,
                *position,
                o,
            ))),
{
    let count: usize = option_data.option_count();
    let n: usize = D::Dir::count();
    let mut possible: Vec<bool> = Vec::new();
    let mut o: usize = 0;
    while o < count
        invariant
            0 <= o <= count,
            possible@.len() == o,
            forall|k: int| 0 <= k < o ==> #[trigger] possible@[k],
        decreases count - o,
    {
        possible.push(true);
        o = o + 1;
    }
    let mut d: usize = 0;
    while d < n
        invariant
            option_data.wf(),
            spec_cells_wf(grid, option_data),
            *grid == *old(grid),
            0 <= d <= n,
            n == D::Dir::spec_count(),
            count == option_data.spec_option_count(),
            possible@.len() == count,
            forall|k: int|
                0 <= k < count ==> #[trigger] possible@[k] == spec_left_by_first(
                    grid,
                    option_data,
                    *position,
                    k,
                    d as int,
                ),
        decreases n - d,
    {
        let direction: D::Dir = D::Dir::from_idx(d);
        let left: Vec<bool> = left_by_neighbour(grid, option_data, position, direction);
        let ghost before = possible@;
        let mut k: usize = 0;
        while k < count
            invariant
                0 <= k <= count,
                possible@.len() == count,
                left@.len() == count,
                before.len() == count,
                direction == D::Dir::spec_from_idx(d as nat),
                forall|o: int|
                    0 <= o < left@.len() ==> #[trigger] left@[o] == spec_left_by_neighbour(
                        grid,
                        option_data,
                        *position,
                        direction,
                        o,
                    ),
                forall|m: int|
                    0 <= m < count ==> #[trigger] before[m] == spec_left_by_first(
                        grid,
                        option_data,
                        *position,
                        m,
                        d as int,
                    ),
                forall|m: int| 0 <= m < k ==> #[trigger] possible@[m] == (before[m] && left@[m]),
                forall|m: int| k <= m < count ==> #[trigger] possible@[m] == before[m],
            decreases count - k,
        {
            if possible[k] && !left[k] {
                possible[k] = false;
            }
            k = k + 1;
        }
        proof {
            assert forall|m: int| 0 <= m < count implies #[trigger] possible@[m] == spec_left_by_first(
                grid,
                option_data,
                *position,
                m,
                d as int + 1,
            ) by {
                lemma_left_by_first_step(grid, option_data, *position, m, d as int);
                assert(possible@[m] == (before[m] && left@[m]));
            }
        }
        d = d + 1;
    }
    let mut any: bool = false;
    let mut a: usize = 0;
    while a < count
        invariant
            0 <= a <= count,
            possible@.len() == count,
            any <==> exists|k: int| 0 <= k < a && #[trigger] possible@[k],
        decreases count - a,
    {
        if possible[a] {
            any = true;
        }
        a = a + 1;
    }
    if !any {
        proof {
            assert forall|o: int| 0 <= o < count implies !#[trigger] spec_compatible(
                old(grid),
                option_data,
                *position,
                o,
            ) by {
                assert(!possible@[o]);
            }
        }
        return false;
    }
    proof {
        let k = choose|k: int| 0 <= k < count && #[trigger] possible@[k];
        assert(spec_compatible(old(grid), option_data, *position, k));
        grid.size.lemma_offset_in_range(position);
    }
    let ghost at = grid.size.spec_offset(position) as int;
    match grid.get_mut_data_at_position(position) {
        Some(cell) => {
            let ghost start = *cell;
            let mut p: usize = 0;
            while p < count
                invariant
                    option_data.wf(),
                    cell.wf(option_data),
                    cell.collapsed_option is None,
                    cell.spec_follows(&start),
                    start.collapsed_option is None,
                    0 <= p <= count,
                    count == option_data.spec_option_count(),
                    possible@.len() == count,
                    forall|k: int|
                        0 <= k < p ==> (#[trigger] cell.ways_to_be_option.spec_possible(k) <==> (
                        start.ways_to_be_option.spec_possible(k) && possible@[k])),
                    forall|k: int|
                        p <= k < count ==> cell.ways_to_be_option.table@[k]
                            == start.ways_to_be_option.table@[k],
                decreases count - p,
            {
                if !possible[p] {
                    let ghost before = *cell;
                    cell.purge(p, option_data);
                    proof {
                        lemma_follows_trans(cell, &before, &start);
                        assert forall|k: int| 0 <= k < p implies (
                        #[trigger] cell.ways_to_be_option.spec_possible(k) <==> (
                        start.ways_to_be_option.spec_possible(k) && possible@[k])) by {
                            assert(cell.ways_to_be_option.table@[k] == before.ways_to_be_option.table@[k]);
                            assert(before.ways_to_be_option.spec_possible(k) <==> (
                            start.ways_to_be_option.spec_possible(k) && possible@[k]));
                        }
                    }
                }
                p = p + 1;
            }
        },
        None => {},
    }
    proof {
        let cell = grid.tiles@[at]->0;
        assert forall|o: int| 0 <= o < grid.tiles@.len() && grid.tiles@[o] is Some implies (
        #[trigger] grid.tiles@[o])->0.wf(option_data) by {
            if o != at {
                assert(grid.tiles@[o] == old(grid).tiles@[o]);
            }
        }
        assert(spec_cells_follow(grid, old(grid))) by {
            assert forall|o: int| 0 <= o < old(grid).tiles@.len() implies {
                &&& (#[trigger] grid.tiles@[o]) is Some <==> old(grid).tiles@[o] is Some
                &&& grid.tiles@[o] is Some ==> grid.tiles@[o]->0.spec_follows(&old(grid).tiles@[o]->0)
            } by {
                if o != at {
                    assert(grid.tiles@[o] == old(grid).tiles@[o]);
                    lemma_follows_self(&grid.tiles@[o]);
                }
            }
        }
        assert(spec_same_collapsed(grid, old(grid))) by {
            assert forall|o: int|
                0 <= o < old(grid).tiles@.len() && old(grid).tiles@[o] is Some implies (
            #[trigger] grid.tiles@[o])->0.collapsed_option == old(grid).tiles@[o]->0.collapsed_option by {
                if o != at {
                    assert(grid.tiles@[o] == old(grid).tiles@[o]);
                }
            }
        }
    }
    true
}

/// Whether the option `option_idx` may stay in the cell at offset `at` once
/// the cell at `position` has been collapsed to `collapsed`, as far as the
/// first `n` directions go: the collapsed option permits it beside it in
/// each of those directions that leads from `position` to the cell.
pub open spec fn spec_kept_by_first<D: Dimensionality>(
    size: &D::Size,
    table: &PerOptionData<D>,
    position: D::Pos,
    collapsed: int,
    at: int,
    option_idx: int,
    n: int,
) -> bool {
    forall|d: int|
        0 <= d < n && (#[trigger] D::Dir::spec_from_idx(d as nat)).spec_march_step(&position, size) is Some
            && size.spec_offset(&D::Dir::spec_from_idx(d as nat).spec_march_step(&position, size)->0)
            == at ==> table.spec_allows(collapsed, d, option_idx)
}

/// Removes from the neighbours of a cell that has just been collapsed the
/// options that the collapsed option does not permit beside it.
///
/// Only neighbours that are not collapsed change. Each keeps exactly those
/// of its options that the collapsed option permits in every direction that
/// leads from the collapsed cell to it.
pub fn purge_options_for_neighbours<D: Dimensionality>(
    grid: &mut GridMap<D, CollapsibleTile<D>>,
    collapsed_option: usize,
    collapsed_position: &D::Pos,
    option_data: &PerOptionData<D>,
)
    requires
        option_data.wf(),
        spec_cells_wf(old(grid), option_data),
        old(grid).size.spec_valid(collapsed_position),
        collapsed_option < option_data.spec_option_count(),
    ensures
        spec_cells_wf(final(grid), option_data),
        spec_cells_follow(final(grid), old(grid)),
        spec_same_collapsed(final(grid), old(grid)),
        forall|at: int, o: int|
            0 <= at < old(grid).tiles@.len() && old(grid).tiles@[at] is Some && old(grid).tiles@[at]->0.collapsed_option is None && 0 <= o < option_data.spec_option_count() ==> (
            #[trigger] final(grid).tiles@[at]->0.ways_to_be_option.spec_possible(o) <==> (old(grid).tiles@[at]->0.ways_to_be_option.spec_possible(o) && spec_kept_by_first(
                &old(grid).size,
                option_data,
                *collapsed_position,
                collapsed_option as int,
                at,
                o,
                D::Dir::spec_count() as int,
            ))),
{
    let count: usize = option_data.option_count();
    let n: usize = D::Dir::count();
    let size: D::Size = *grid.size();
    let mut d: usize = 0;
    while d < n
        invariant
            option_data.wf(),
            spec_cells_wf(grid, option_data),
            spec_cells_follow(grid, old(grid)),
            spec_same_collapsed(grid, old(grid)),
            size == old(grid).size,
            grid.size == size,
            size.spec_valid(collapsed_position),
            collapsed_option < option_data.spec_option_count(),
            0 <= d <= n,
            n == D::Dir::spec_count(),
            count == option_data.spec_option_count(),
            forall|at: int, o: int|
                0 <= at < old(grid).tiles@.len() && old(grid).tiles@[at] is Some && old(grid).tiles@[at]->0.collapsed_option is None && 0 <= o < count ==> (
                #[trigger] grid.tiles@[at]->0.ways_to_be_option.spec_possible(o) <==> (old(grid).tiles@[at]->0.ways_to_be_option.spec_possible(o) && spec_kept_by_first(
                    &size,
                    option_data,
                    *collapsed_position,
                    collapsed_option as int,
                    at,
                    o,
                    d as int,
                ))),
        decreases n - d,
    {
        let direction: D::Dir = D::Dir::from_idx(d);
        let ghost grid_before = *grid;
        let ghost target = direction.spec_march_step(collapsed_position, &size);
        proof {
            D::Dir::lemma_from_idx(d as nat);
            if target is Some {
                direction.lemma_march_step_back(collapsed_position, &size);
                size.lemma_offset_in_range(&target->0);
            }
        }
        match grid.get_mut_neighbour_at(collapsed_position, &direction) {
            Some(tile) => {
                let cell: &mut CollapsibleTile<D> = tile.data;
                proof {
                    assert(grid_before.tiles@[size.spec_offset(&target->0) as int]->0.wf(option_data));
                }
                if !cell.is_collapsed() {
                    let ghost start = *cell;
                    let enabled: &Vec<usize> = option_data.get_all_enabled_in_direction(
                        collapsed_option,
                        direction,
                    );
                    let mut o: usize = 0;
                    while o < count
                        invariant
                            option_data.wf(),
                            cell.wf(option_data),
                            cell.collapsed_option is None,
                            start.collapsed_option is None,
                            cell.spec_follows(&start),
                            0 <= o <= count,
                            count == option_data.spec_option_count(),
                            enabled@ == option_data.spec_enabled(collapsed_option as int, d as int),
                            forall|k: int|
                                0 <= k < o ==> (#[trigger] cell.ways_to_be_option.spec_possible(k) <==> (
                                start.ways_to_be_option.spec_possible(k) && option_data.spec_allows(
                                    collapsed_option as int,
                                    d as int,
                                    k,
                                ))),
                            forall|k: int|
                                o <= k < count ==> cell.ways_to_be_option.table@[k]
                                    == start.ways_to_be_option.table@[k],
                        decreases count - o,
                    {
                        let allowed: bool = contains_option(enabled, o);
                        proof {
                            if allowed {
                                let k = choose|k: int|
                                    0 <= k < enabled@.len() && #[trigger] enabled@[k] == o;
                                assert(option_data.spec_enabled(collapsed_option as int, d as int)[k]
                                    == o);
                            } else {
                                if option_data.spec_allows(collapsed_option as int, d as int, o as int) {
                                    let k = choose|k: int|
                                        0 <= k < option_data.spec_enabled(
                                            collapsed_option as int,
                                            d as int,
                                        ).len() && #[trigger] option_data.spec_enabled(
                                            collapsed_option as int,
                                            d as int,
                                        )[k] == o as int;
                                    assert(enabled@[k] == o);
                                }
                            }
                        }
                        if !allowed {
                            let ghost before = *cell;
                            cell.purge(o, option_data);
                            proof {
                                lemma_follows_trans(cell, &before, &start);
                                assert forall|k: int| 0 <= k < o implies (
                                #[trigger] cell.ways_to_be_option.spec_possible(k) <==> (
                                start.ways_to_be_option.spec_possible(k) && option_data.spec_allows(
                                    collapsed_option as int,
                                    d as int,
                                    k,
                                ))) by {
                                    assert(cell.ways_to_be_option.table@[k]
                                        == before.ways_to_be_option.table@[k]);
                                    assert(before.ways_to_be_option.spec_possible(k) <==> (
                                    start.ways_to_be_option.spec_possible(k) && option_data.spec_allows(
                                        collapsed_option as int,
                                        d as int,
                                        k,
                                    )));
                                }
                            }
                        }
                        o = o + 1;
                    }
                }
            },
            None => {},
        }
        proof {
            let changed: int = if target is Some {
                size.spec_offset(&target->0) as int
            } else {
                -1
            };
            if target is Some && size.spec_valid(&target->0) {
                size.lemma_offset_in_range(&target->0);
            }
            assert forall|o: int| 0 <= o < grid.tiles@.len() && grid.tiles@[o] is Some implies (
            #[trigger] grid.tiles@[o])->0.wf(option_data) by {
                if o != changed {
                    assert(grid.tiles@[o] == grid_before.tiles@[o]);
                }
            }
            assert(spec_cells_follow(grid, old(grid))) by {
                assert forall|o: int| 0 <= o < old(grid).tiles@.len() implies {
                    &&& (#[trigger] grid.tiles@[o]) is Some <==> old(grid).tiles@[o] is Some
                    &&& grid.tiles@[o] is Some ==> grid.tiles@[o]->0.spec_follows(
                        &old(grid).tiles@[o]->0,
                    )
                } by {
                    if o != changed {
                        assert(grid.tiles@[o] == grid_before.tiles@[o]);
                    } else {
                        lemma_follows_trans(
                            &grid.tiles@[o]->0,
                            &grid_before.tiles@[o]->0,
                            &old(grid).tiles@[o]->0,
                        );
                    }
                }
            }
            assert(spec_same_collapsed(grid, old(grid))) by {
                assert forall|o: int|
                    0 <= o < old(grid).tiles@.len() && old(grid).tiles@[o] is Some implies (
                #[trigger] grid.tiles@[o])->0.collapsed_option == old(grid).tiles@[o]->0.collapsed_option by {
                    if o != changed {
                        assert(grid.tiles@[o] == grid_before.tiles@[o]);
                    }
                }
            }
            assert forall|at: int, o: int|
                0 <= at < old(grid).tiles@.len() && old(grid).tiles@[at] is Some && old(grid).tiles@[at]->0.collapsed_option is None && 0 <= o < count implies (
            #[trigger] grid.tiles@[at]->0.ways_to_be_option.spec_possible(o) <==> (old(grid).tiles@[at]->0.ways_to_be_option.spec_possible(o) && spec_kept_by_first(
                &size,
                option_data,
                *collapsed_position,
                collapsed_option as int,
                at,
                o,
                d as int + 1,
            ))) by {
                lemma_kept_by_first_step(
                    &size,
                    option_data,
                    *collapsed_position,
                    collapsed_option as int,
                    at,
                    o,
                    d as int,
                );
                if at != changed {
                    assert(grid.tiles@[at] == grid_before.tiles@[at]);
                } else {
                    assert(grid_before.tiles@[at]->0.collapsed_option is None);
                }
            }
        }
        d = d + 1;
    }
}

/// The first `n + 1` directions keep an option exactly if the first `n`
/// keep it and the direction of index `n` does not lead to the cell or the
/// collapsed option permits the option in that direction.
pub proof fn lemma_kept_by_first_step<D: Dimensionality>(
    size: &D::Size,
    table: &PerOptionData<D>,
    position: D::Pos,
    collapsed: int,
    at: int,
    option_idx: int,
    n: int,
)
    requires
        0 <= n,
    ensures
        spec_kept_by_first(size, table, position, collapsed, at, option_idx, n + 1) == (
        spec_kept_by_first(size, table, position, collapsed, at, option_idx, n) && (
        D::Dir::spec_from_idx(n as nat).spec_march_step(&position, size) is Some && size.spec_offset(
            &D::Dir::spec_from_idx(n as nat).spec_march_step(&position, size)->0,
        ) == at ==> table.spec_allows(collapsed, n, option_idx))),
{
    if spec_kept_by_first(size, table, position, collapsed, at, option_idx, n + 1) {
        let dir = D::Dir::spec_from_idx(n as nat);
        assert(dir.spec_march_step(&position, size) is Some && size.spec_offset(
            &dir.spec_march_step(&position, size)->0,
        ) == at ==> table.spec_allows(collapsed, n, option_idx));
        assert forall|d: int|
            0 <= d < n && (#[trigger] D::Dir::spec_from_idx(d as nat)).spec_march_step(
                &position,
                size,
            ) is Some && size.spec_offset(
                &D::Dir::spec_from_idx(d as nat).spec_march_step(&position, size)->0,
            ) == at implies table.spec_allows(collapsed, d, option_idx) by {
            assert(0 <= d < n + 1);
        }
    }
    if spec_kept_by_first(size, table, position, collapsed, at, option_idx, n) && (
    D::Dir::spec_from_idx(n as nat).spec_march_step(&position, size) is Some && size.spec_offset(
        &D::Dir::spec_from_idx(n as nat).spec_march_step(&position, size)->0,
    ) == at ==> table.spec_allows(collapsed, n, option_idx)) {
        assert forall|d: int|
            0 <= d < n + 1 && (#[trigger] D::Dir::spec_from_idx(d as nat)).spec_march_step(
                &position,
                size,
            ) is Some && size.spec_offset(
                &D::Dir::spec_from_idx(d as nat).spec_march_step(&position, size)->0,
            ) == at implies table.spec_allows(collapsed, d, option_idx) by {
            if d < n {
            } else {
                assert(d == n);
            }
        }
    }
}

/// The neighbours in the first `n + 1` directions leave an option exactly
/// if those in the first `n` directions leave it and the neighbour in the
/// direction of index `n` leaves it.
pub proof fn lemma_left_by_first_step<D: Dimensionality>(
    grid: &GridMap<D, CollapsibleTile<D>>,
    table: &PerOptionData<D>,
    position: D::Pos,
    option_idx: int,
    n: int,
)
    requires
        0 <= n,
    ensures
        spec_left_by_first(grid, table, position, option_idx, n + 1) == (spec_left_by_first(
            grid,
            table,
            position,
            option_idx,
            n,
        ) && spec_left_by_neighbour(
            grid,
            table,
            position,
            D::Dir::spec_from_idx(n as nat),
            option_idx,
        )),
{
    if spec_left_by_first(grid, table, position, option_idx, n + 1) {
        assert(spec_left_by_neighbour(
            grid,
            table,
            position,
            D::Dir::spec_from_idx(n as nat),
            option_idx,
        ));
        assert forall|d: int| 0 <= d < n implies spec_left_by_neighbour(
            grid,
            table,
            position,
            #[trigger] D::Dir::spec_from_idx(d as nat),
            option_idx,
        ) by {
            assert(0 <= d < n + 1);
        }
    }
    if spec_left_by_first(grid, table, position, option_idx, n) && spec_left_by_neighbour(
        grid,
        table,
        position,
        D::Dir::spec_from_idx(n as nat),
        option_idx,
    ) {
        assert forall|d: int| 0 <= d < n + 1 implies spec_left_by_neighbour(
            grid,
            table,
            position,
            #[trigger] D::Dir::spec_from_idx(d as nat),
            option_idx,
        ) by {
            if d < n {
            } else {
                assert(d == n);
            }
        }
    }
}

/// A cell follows itself.
pub proof fn lemma_follows_self<D: Dimensionality>(cell: &Option<CollapsibleTile<D>>)
    ensures
        cell is Some ==> cell->0.spec_follows(&cell->0),
{
}

} // verus!
