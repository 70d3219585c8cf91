//! What the search finds, said without the search: the solutions are the
//! boards at the end of every way to place all the groups, one step after
//! the other.

use crate::board::grid::Grid;
use crate::point::Point;
use crate::solver::join;
use crate::solver::lemma_unused_update;
use crate::solver::search;
use crate::solver::search_group;
use crate::solver::search_groups;
use crate::solver::unused;
use vstd::prelude::*;

verus! {

/// One step of a way to place the groups: shape `variation` of group
/// `group` goes on the board.
pub struct Step {
    pub group: int,
    pub variation: int,
}

/// Whether `step` can be taken from `grid`: its group is still to be placed,
/// the grid has an empty cell and is not turned down, and the shape fits
/// with its first point on the first empty cell.
pub open spec fn can_step(
    grid: Grid,
    usable: Seq<bool>,
    groups: Seq<Seq<Seq<Point>>>,
    accept: spec_fn(Grid, nat) -> bool,
    step: Step,
) -> bool {
    &&& 0 <= step.group < usable.len()
    &&& usable[step.group]
    &&& 0 <= step.variation < groups[step.group].len()
    &&& grid.first_unoccupied() matches Some(target)
    &&& accept(grid, grid.region(target).len())
    &&& grid.fit_origin(groups[step.group][step.variation], target) is Some
}

/// The grid after `step` was taken from `grid`.
pub open spec fn grid_after(grid: Grid, groups: Seq<Seq<Seq<Point>>>, step: Step) -> Grid {
    let target = grid.first_unoccupied().unwrap();
    let shape = groups[step.group][step.variation];
    grid.placed(shape, grid.fit_origin(shape, target).unwrap())
}

/// The grid after the steps of `trail` were taken from `grid`, one after
/// the other; `None` where one of them cannot be taken.
pub open spec fn replay(
    grid: Grid,
    usable: Seq<bool>,
    groups: Seq<Seq<Seq<Point>>>,
    accept: spec_fn(Grid, nat) -> bool,
    trail: Seq<Step>,
) -> Option<Grid>
    decreases trail.len(),
{
    if trail.len() == 0 {
        Some(grid)
    } else if can_step(grid, usable, groups, accept, trail[0]) {
        replay(
            grid_after(grid, groups, trail[0]),
            usable.update(trail[0].group, false),
            groups,
            accept,
            trail.drop_first(),
        )
    } else {
        None
    }
}

/// `trail` places every group that is still to be placed.
pub open spec fn is_solution_trail(
    grid: Grid,
    usable: Seq<bool>,
    groups: Seq<Seq<Seq<Point>>>,
    accept: spec_fn(Grid, nat) -> bool,
    trail: Seq<Step>,
) -> bool {
    trail.len() == unused(usable) && replay(grid, usable, groups, accept, trail) is Some
}

/// `trail` ends on a board without an empty cell before every group is
/// placed.
pub open spec fn is_dead_end(
    grid: Grid,
    usable: Seq<bool>,
    groups: Seq<Seq<Seq<Point>>>,
    accept: spec_fn(Grid, nat) -> bool,
    trail: Seq<Step>,
) -> bool {
    &&& trail.len() < unused(usable)
    &&& replay(grid, usable, groups, accept, trail) matches Some(end)
    &&& end.first_unoccupied() is None
}

/// `trails` lists the ways that lead to the grids of `found`, each way
/// once and in the order of `found`, and no way to place all the groups is
/// missing from it.
pub open spec fn lists_all(
    grid: Grid,
    usable: Seq<bool>,
    groups: Seq<Seq<Seq<Point>>>,
    accept: spec_fn(Grid, nat) -> bool,
    trails: Seq<Seq<Step>>,
    found: Seq<Grid>,
) -> bool {
    &&& trails.len() == found.len()
    &&& trails.no_duplicates()
    &&& forall|k: int|
        0 <= k < trails.len() ==> (#[trigger] trails[k]).len() == unused(usable) && replay(
            grid,
            usable,
            groups,
            accept,
            trails[k],
        ) == Some(found[k])
    &&& forall|t: Seq<Step>|
        #[trigger] is_solution_trail(grid, usable, groups, accept, t) ==> trails.contains(t)
}

/// The trails of `trails`, each with `step` before it.
pub open spec fn after_step(step: Step, trails: Seq<Seq<Step>>) -> Seq<Seq<Step>> {
    trails.map_values(|t: Seq<Step>| seq![step] + t)
}

/// The ways to place all the groups that `usable` marks, in the order in
/// which the search goes through them.
pub open spec fn trails(
    grid: Grid,
    usable: Seq<bool>,
    groups: Seq<Seq<Seq<Point>>>,
    accept: spec_fn(Grid, nat) -> bool,
) -> Seq<Seq<Step>>
    decreases unused(usable), 2int, 0int,
{
    if unused(usable) == 0 {
        seq![Seq::empty()]
    } else {
        match grid.first_unoccupied() {
            None => Seq::empty(),
            Some(target) => if accept(grid, grid.region(target).len()) {
                trails_of_groups(grid, usable, groups, accept, target, 0)
            } else {
                Seq::empty()
            },
        }
    }
}

/// The ways that begin with a shape of one of the groups from `from` on.
pub open spec fn trails_of_groups(
    grid: Grid,
    usable: Seq<bool>,
    groups: Seq<Seq<Seq<Point>>>,
    accept: spec_fn(Grid, nat) -> bool,
    target: Point,
    from: int,
) -> Seq<Seq<Step>>
    decreases unused(usable), 1int, usable.len() - from,
{
    if 0 <= from < usable.len() {
        trails_of_group(grid, usable, groups, accept, target, from, 0) + trails_of_groups(
            grid,
            usable,
            groups,
            accept,
            target,
            from + 1,
        )
    } else {
        Seq::empty()
    }
}

/// The ways that begin with one of the shapes from `from` on of group
/// `group`.
pub open spec fn trails_of_group(
    grid: Grid,
    usable: Seq<bool>,
    groups: Seq<Seq<Seq<Point>>>,
    accept: spec_fn(Grid, nat) -> bool,
    target: Point,
    group: int,
    from: int,
) -> Seq<Seq<Step>>
    decreases unused(usable), 0int, groups[group].len() - from,
{
    if 0 <= group < usable.len() && usable[group] && 0 <= from < groups[group].len() {
        let shape = groups[group][from];
        let first: Seq<Seq<Step>> = match grid.fit_origin(shape, target) {
            Some(origin) => {
                proof {
                    lemma_unused_update(usable, group);
                }
                after_step(
                    Step { group, variation: from },
                    trails(grid.placed(shape, origin), usable.update(group, false), groups, accept),
                )
            },
            None => Seq::empty(),
        };
        first + trails_of_group(grid, usable, groups, accept, target, group, from + 1)
    } else {
        Seq::empty()
    }
}

/// Like `lists_all`, for the ways that begin with a group from `from` on.
spec fn lists_from(
    grid: Grid,
    usable: Seq<bool>,
    groups: Seq<Seq<Seq<Point>>>,
    accept: spec_fn(Grid, nat) -> bool,
    trails: Seq<Seq<Step>>,
    found: Seq<Grid>,
    from: int,
) -> bool {
    &&& trails.len() == found.len()
    &&& trails.no_duplicates()
    &&& forall|k: int|
        0 <= k < trails.len() ==> {
            &&& (#[trigger] trails[k]).len() == unused(usable)
            &&& trails[k].len() > 0
            &&& trails[k][0].group >= from
            &&& replay(grid, usable, groups, accept, trails[k]) == Some(found[k])
        }
    &&& forall|t: Seq<Step>|
        #[trigger] is_solution_trail(grid, usable, groups, accept, t) && t.len() > 0 && t[0].group
            >= from ==> trails.contains(t)
}

/// Like `lists_all`, for the ways that begin with one of the shapes from
/// `from` on of group `group`.
spec fn lists_within(
    grid: Grid,
    usable: Seq<bool>,
    groups: Seq<Seq<Seq<Point>>>,
    accept: spec_fn(Grid, nat) -> bool,
    trails: Seq<Seq<Step>>,
    found: Seq<Grid>,
    group: int,
    from: int,
) -> bool {
    &&& trails.len() == found.len()
    &&& trails.no_duplicates()
    &&& forall|k: int|
        0 <= k < trails.len() ==> {
            &&& (#[trigger] trails[k]).len() == unused(usable)
            &&& trails[k].len() > 0
            &&& trails[k][0].group == group
            &&& trails[k][0].variation >= from
            &&& replay(grid, usable, groups, accept, trails[k]) == Some(found[k])
        }
    &&& forall|t: Seq<Step>|
        #[trigger] is_solution_trail(grid, usable, groups, accept, t) && t.len() > 0 && t[0].group
            == group && t[0].variation >= from ==> trails.contains(t)
}

/// The search finds the grids at the end of the ways to place all the
/// groups: one grid for every way, in the order of `trails`.
pub proof fn lemma_search_lists_all(
    grid: Grid,
    usable: Seq<bool>,
    groups: Seq<Seq<Seq<Point>>>,
    accept: spec_fn(Grid, nat) -> bool,
)
    ensures
        search(grid, usable, groups, accept) matches Some(found) ==> lists_all(
            grid,
            usable,
            groups,
            accept,
            trails(grid, usable, groups, accept),
            found,
        ),
    decreases unused(usable), 2int, 0int,
{
    let list = trails(grid, usable, groups, accept);
    if search(grid, usable, groups, accept) is Some {
        let found = search(grid, usable, groups, accept).unwrap();
        if unused(usable) == 0 {
            assert(list[0].len() == 0);
            assert forall|t: Seq<Step>| #[trigger]
                is_solution_trail(grid, usable, groups, accept, t) implies list.contains(t) by {
                assert(t =~= list[0]);
            }
        } else {
            let target = grid.first_unoccupied().unwrap();
            if accept(grid, grid.region(target).len()) {
                lemma_groups_lists_all(grid, usable, groups, accept, target, 0);
            }
        }
    }
}

proof fn lemma_groups_lists_all(
    grid: Grid,
    usable: Seq<bool>,
    groups: Seq<Seq<Seq<Point>>>,
    accept: spec_fn(Grid, nat) -> bool,
    target: Point,
    from: int,
)
    requires
        grid.first_unoccupied() == Some(target),
        accept(grid, grid.region(target).len()),
        0 <= from,
    ensures
        search_groups(grid, usable, groups, accept, target, from) matches Some(found)
            ==> lists_from(
            grid,
            usable,
            groups,
            accept,
            trails_of_groups(grid, usable, groups, accept, target, from),
            found,
            from,
        ),
    decreases unused(usable), 1int, usable.len() - from,
{
    if search_groups(grid, usable, groups, accept, target, from) is Some && from < usable.len() {
        let here = search_group(grid, usable, groups, accept, target, from, 0);
        let rest = search_groups(grid, usable, groups, accept, target, from + 1);
        let list_here = trails_of_group(grid, usable, groups, accept, target, from, 0);
        let list_rest = trails_of_groups(grid, usable, groups, accept, target, from + 1);
        lemma_group_lists_all(grid, usable, groups, accept, target, from, 0);
        lemma_groups_lists_all(grid, usable, groups, accept, target, from + 1);
        let list = list_here + list_rest;
        let found = here.unwrap() + rest.unwrap();
        vstd::seq_lib::lemma_no_dup_in_concat(list_here, list_rest);
        assert forall|k: int| 0 <= k < list.len() implies {
            &&& (#[trigger] list[k]).len() == unused(usable)
            &&& list[k].len() > 0
            &&& list[k][0].group >= from
            &&& replay(grid, usable, groups, accept, list[k]) == Some(found[k])
        } by {
            if k < list_here.len() {
                assert(list[k] == list_here[k]);
            } else {
                assert(list[k] == list_rest[k - list_here.len()]);
            }
        }
        assert forall|t: Seq<Step>| #[trigger]
            is_solution_trail(grid, usable, groups, accept, t) && t.len() > 0 && t[0].group
                >= from implies list.contains(t) by {
            if t[0].group == from {
                let k = choose|k: int| 0 <= k < list_here.len() && list_here[k] == t;
                assert(list[k] == t);
            } else {
                let k = choose|k: int| 0 <= k < list_rest.len() && list_rest[k] == t;
                assert(list[list_here.len() + k] == t);
            }
        }
    }
}

proof fn lemma_group_lists_all(
    grid: Grid,
    usable: Seq<bool>,
    groups: Seq<Seq<Seq<Point>>>,
    accept: spec_fn(Grid, nat) -> bool,
    target: Point,
    group: int,
    from: int,
)
    requires
        grid.first_unoccupied() == Some(target),
        accept(grid, grid.region(target).len()),
        0 <= from,
    ensures
        search_group(grid, usable, groups, accept, target, group, from) matches Some(found)
            ==> lists_within(
            grid,
            usable,
            groups,
            accept,
            trails_of_group(grid, usable, groups, accept, target, group, from),
            found,
            group,
            from,
        ),
    decreases unused(usable), 0int, groups[group].len() - from,
{
    if search_group(grid, usable, groups, accept, target, group, from) is Some && 0 <= group
        < usable.len() && usable[group] && from < groups[group].len() {
        let shape = groups[group][from];
        let step = Step { group, variation: from };
        let rest = search_group(grid, usable, groups, accept, target, group, from + 1);
        let list_rest = trails_of_group(grid, usable, groups, accept, target, group, from + 1);
        lemma_group_lists_all(grid, usable, groups, accept, target, group, from + 1);
        lemma_unused_update(usable, group);
        let fit = grid.fit_origin(shape, target);
        let below = usable.update(group, false);
        let (list_here, here): (Seq<Seq<Step>>, Seq<Grid>) = if fit is Some {
            let next = grid.placed(shape, fit.unwrap());
            lemma_search_lists_all(next, below, groups, accept);
            (after_step(step, trails(next, below, groups, accept)), search(
                next,
                below,
                groups,
                accept,
            ).unwrap())
        } else {
            (Seq::empty(), Seq::empty())
        };
        let list = list_here + list_rest;
        let found = here + rest.unwrap();
        assert(list == trails_of_group(grid, usable, groups, accept, target, group, from));
        assert(search_group(grid, usable, groups, accept, target, group, from) == Some(found));
        assert forall|k: int| 0 <= k < list_here.len() implies {
            &&& (#[trigger] list_here[k]).len() == unused(usable)
            &&& list_here[k].len() > 0
            &&& list_here[k][0] == step
            &&& replay(grid, usable, groups, accept, list_here[k]) == Some(here[k])
        } by {
            let next = grid.placed(shape, fit.unwrap());
            let inner = trails(next, below, groups, accept)[k];
            assert(list_here[k] == seq![step] + inner);
            assert(list_here[k].drop_first() =~= inner);
            assert(can_step(grid, usable, groups, accept, step));
            assert(grid_after(grid, groups, step) == next);
        }
        assert(list_here.no_duplicates()) by {
            assert forall|a: int, b: int|
                0 <= a < list_here.len() && 0 <= b < list_here.len() && a != b implies list_here[a]
                != list_here[b] by {
                let next = grid.placed(shape, fit.unwrap());
                let inner = trails(next, below, groups, accept);
                assert(list_here[a].drop_first() =~= inner[a]);
                assert(list_here[b].drop_first() =~= inner[b]);
            }
        }
        assert forall|a: int, b: int|
            0 <= a < list_here.len() && 0 <= b < list_rest.len() implies list_here[a]
            != list_rest[b] by {
            assert(list_here[a][0].variation == from);
            assert(list_rest[b][0].variation >= from + 1);
        }
        vstd::seq_lib::lemma_no_dup_in_concat(list_here, list_rest);
        assert forall|k: int| 0 <= k < list.len() implies {
            &&& (#[trigger] list[k]).len() == unused(usable)
            &&& list[k].len() > 0
            &&& list[k][0].group == group
            &&& list[k][0].variation >= from
            &&& replay(grid, usable, groups, accept, list[k]) == Some(found[k])
        } by {
            if k < list_here.len() {
                assert(list[k] == list_here[k]);
            } else {
                assert(list[k] == list_rest[k - list_here.len()]);
            }
        }
        assert forall|t: Seq<Step>| #[trigger]
            is_solution_trail(grid, usable, groups, accept, t) && t.len() > 0 && t[0].group
                == group && t[0].variation >= from implies list.contains(t) by {
            if t[0].variation == from {
                assert(t[0] == step);
                assert(can_step(grid, usable, groups, accept, step));
                let next = grid.placed(shape, fit.unwrap());
                let inner = trails(next, below, groups, accept);
                assert(grid_after(grid, groups, step) == next);
                assert(is_solution_trail(next, below, groups, accept, t.drop_first()));
                let k = choose|k: int| 0 <= k < inner.len() && inner[k] == t.drop_first();
                assert(list_here[k] =~= t);
                assert(list[k] == t);
            } else {
                let k = choose|k: int| 0 <= k < list_rest.len() && list_rest[k] == t;
                assert(list[list_here.len() + k] == t);
            }
        }
    }
}

/// A search that breaks off has come to a dead end: some steps lead to a
/// board without an empty cell while groups are left.
pub proof fn lemma_break_has_dead_end(
    grid: Grid,
    usable: Seq<bool>,
    groups: Seq<Seq<Seq<Point>>>,
    accept: spec_fn(Grid, nat) -> bool,
) -> (trail: Seq<Step>)
    requires
        search(grid, usable, groups, accept) is None,
    ensures
        is_dead_end(grid, usable, groups, accept, trail),
    decreases unused(usable), 2int, 0int,
{
    if grid.first_unoccupied() is None {
        Seq::empty()
    } else {
        let target = grid.first_unoccupied().unwrap();
        lemma_groups_break(grid, usable, groups, accept, target, 0)
    }
}

proof fn lemma_groups_break(
    grid: Grid,
    usable: Seq<bool>,
    groups: Seq<Seq<Seq<Point>>>,
    accept: spec_fn(Grid, nat) -> bool,
    target: Point,
    from: int,
) -> (trail: Seq<Step>)
    requires
        grid.first_unoccupied() == Some(target),
        accept(grid, grid.region(target).len()),
        search_groups(grid, usable, groups, accept, target, from) is None,
    ensures
        is_dead_end(grid, usable, groups, accept, trail),
    decreases unused(usable), 1int, usable.len() - from,
{
    if search_group(grid, usable, groups, accept, target, from, 0) is None {
        lemma_group_break(grid, usable, groups, accept, target, from, 0)
    } else {
        lemma_groups_break(grid, usable, groups, accept, target, from + 1)
    }
}

proof fn lemma_group_break(
    grid: Grid,
    usable: Seq<bool>,
    groups: Seq<Seq<Seq<Point>>>,
    accept: spec_fn(Grid, nat) -> bool,
    target: Point,
    group: int,
    from: int,
) -> (trail: Seq<Step>)
    requires
        grid.first_unoccupied() == Some(target),
        accept(grid, grid.region(target).len()),
        search_group(grid, usable, groups, accept, target, group, from) is None,
    ensures
        is_dead_end(grid, usable, groups, accept, trail),
    decreases unused(usable), 0int, groups[group].len() - from,
{
    let shape = groups[group][from];
    let step = Step { group, variation: from };
    let below = usable.update(group, false);
    lemma_unused_update(usable, group);
    let fit = grid.fit_origin(shape, target);
    if fit is Some && search(grid.placed(shape, fit.unwrap()), below, groups, accept) is None {
        let next = grid.placed(shape, fit.unwrap());
        let rest = lemma_break_has_dead_end(next, below, groups, accept);
        let trail = seq![step] + rest;
        assert(trail.drop_first() =~= rest);
        assert(can_step(grid, usable, groups, accept, trail[0]));
        assert(grid_after(grid, groups, trail[0]) == next);
        trail
    } else {
        lemma_group_break(grid, usable, groups, accept, target, group, from + 1)
    }
}

/// A search that can come to a dead end breaks off.
pub proof fn lemma_dead_end_breaks(
    grid: Grid,
    usable: Seq<bool>,
    groups: Seq<Seq<Seq<Point>>>,
    accept: spec_fn(Grid, nat) -> bool,
    trail: Seq<Step>,
)
    requires
        is_dead_end(grid, usable, groups, accept, trail),
    ensures
        search(grid, usable, groups, accept) is None,
    decreases trail.len(),
{
    if trail.len() > 0 {
        let step = trail[0];
        let target = grid.first_unoccupied().unwrap();
        let shape = groups[step.group][step.variation];
        let next = grid_after(grid, groups, step);
        let below = usable.update(step.group, false);
        lemma_unused_update(usable, step.group);
        lemma_dead_end_breaks(next, below, groups, accept, trail.drop_first());
        lemma_group_breaks_from(grid, usable, groups, accept, target, step.group, 0, step.variation);
        lemma_groups_break_from(grid, usable, groups, accept, target, 0, step.group);
    }
}

/// A group breaks off from `from` on if it does from `later` on.
proof fn lemma_group_breaks_from(
    grid: Grid,
    usable: Seq<bool>,
    groups: Seq<Seq<Seq<Point>>>,
    accept: spec_fn(Grid, nat) -> bool,
    target: Point,
    group: int,
    from: int,
    later: int,
)
    requires
        0 <= from <= later,
        search_group(grid, usable, groups, accept, target, group, later) is None,
    ensures
        search_group(grid, usable, groups, accept, target, group, from) is None,
    decreases later - from,
{
    if from < later {
        lemma_group_breaks_from(grid, usable, groups, accept, target, group, from + 1, later);
    }
}

/// The groups break off from `from` on if group `later` does.
proof fn lemma_groups_break_from(
    grid: Grid,
    usable: Seq<bool>,
    groups: Seq<Seq<Seq<Point>>>,
    accept: spec_fn(Grid, nat) -> bool,
    target: Point,
    from: int,
    later: int,
)
    requires
        0 <= from <= later < usable.len(),
        search_group(grid, usable, groups, accept, target, later, 0) is None,
    ensures
        search_groups(grid, usable, groups, accept, target, from) is None,
    decreases later - from,
{
    if from < later {
        lemma_groups_break_from(grid, usable, groups, accept, target, from + 1, later);
    }
}

/// The search breaks off exactly when it can come to a dead end.
pub proof fn lemma_search_breaks_off(
    grid: Grid,
    usable: Seq<bool>,
    groups: Seq<Seq<Seq<Point>>>,
    accept: spec_fn(Grid, nat) -> bool,
)
    ensures
        search(grid, usable, groups, accept) is None <==> exists|trail: Seq<Step>| #[trigger]
            is_dead_end(grid, usable, groups, accept, trail),
{
    if search(grid, usable, groups, accept) is None {
        let trail = lemma_break_has_dead_end(grid, usable, groups, accept);
    }
    if exists|trail: Seq<Step>| #[trigger] is_dead_end(grid, usable, groups, accept, trail) {
        let trail = choose|trail: Seq<Step>| #[trigger]
            is_dead_end(grid, usable, groups, accept, trail);
        lemma_dead_end_breaks(grid, usable, groups, accept, trail);
    }
}

} // verus!
