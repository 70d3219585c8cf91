//! The search: every way to put one shape of each group on the board, each
//! with its first point on the first cell that is still empty.

use crate::bits::bits;
use crate::bits::bits_from_elem;
use crate::bits::bits_get;
use crate::bits::bits_len;
use crate::bits::bits_none;
use crate::bits::bits_set;
use crate::board::board_utils::fit_at;
use crate::board::board_utils::get_all_adjacent;
use crate::board::board_utils::get_first_unoccupied;
use crate::board::grid::Grid;
use crate::board::Board;
use crate::fx::cell_set_len;
use crate::fx::cells;
use crate::point::Point;
use crate::polyomino::Polyomino;
use bit_vec::BitVec;
use vstd::prelude::*;

pub mod laws;

verus! {

/// Why a search gave no count.
#[derive(Debug, Clone, Copy, PartialEq, Eq, Structural)]
pub enum SolverError {
    /// Groups were left over on a board without an empty cell: the shapes
    /// have more cells than the board.
    PiecesLeftOver,
    /// There are more solutions than the counter can hold.
    TooManySolutions,
}

/// Which solutions are shown as a search goes on.
#[derive(Debug, Clone, Copy, PartialEq, Eq)]
pub enum PrintSolutions {
    /// None: the total is all that matters.
    PrintTotalOnly,
    /// Every one.
    PrintAll,
    /// Every one whose number is a multiple of the given one.
    PrintEveryNth(u32),
}

impl PrintSolutions {
    /// Whether solution number `found` is one to show.
    pub open spec fn shows(self, found: u32) -> bool {
        match self {
            PrintSolutions::PrintTotalOnly => false,
            PrintSolutions::PrintAll => true,
            PrintSolutions::PrintEveryNth(n) => found % n == 0,
        }
    }

    /// Whether solution number `solutions_found` is one to show.
    pub fn should_print(&self, solutions_found: u32) -> (show: bool)
        requires
            *self matches PrintSolutions::PrintEveryNth(n) ==> n != 0,
        ensures
            show == self.shows(solutions_found),
    {
        match *self {
            PrintSolutions::PrintAll => true,
            PrintSolutions::PrintTotalOnly => false,
            PrintSolutions::PrintEveryNth(n) => solutions_found % n == 0,
        }
    }
}

/// A rule that tells from the size of a region of empty cells whether a
/// partly covered board is worth going on with.
pub trait RegionChecker {
    /// What the rule says of `grid` and of the size of the region round its
    /// first empty cell. A rule that is to be verified says here what it
    /// decides: only the rule that accepts everything can be shown to keep
    /// to what stands here for any other.
    open spec fn accepts(&self, grid: Grid, region_size: nat) -> bool {
        true
    }

    fn evaluate(&self, board: &Board, region_size: usize) -> (ok: bool)
        requires
            board.wf(),
        ensures
            ok == self.accepts(board@, region_size as nat),
    ;
}

/// Something to tell of every solution as it is found.
pub trait SolutionCallback {
    /// The grids that it has been told of, in order. A callback that is to
    /// be verified says here what it keeps of them: `notify` cannot be
    /// shown to add to the empty list that stands here for any other.
    open spec fn told(&self) -> Seq<Grid> {
        Seq::empty()
    }

    fn notify(&mut self, board: &Board)
        requires
            board.wf(),
        ensures
            final(self).told() == old(self).told().push(board@),
    ;
}

/// The rule that accepts a region whose size is a multiple of `unit`: the
/// number of cells of each piece, where all pieces have as many.
pub struct RegionMultipleOf {
    pub unit: usize,
}

impl RegionChecker for RegionMultipleOf {
    open spec fn accepts(&self, grid: Grid, region_size: nat) -> bool {
        if self.unit == 0 {
            region_size == 0
        } else {
            region_size % (self.unit as nat) == 0
        }
    }

    fn evaluate(&self, board: &Board, region_size: usize) -> (ok: bool) {
        if self.unit == 0 {
            region_size == 0
        } else {
            region_size % self.unit == 0
        }
    }
}

/// The number of groups that are still to be placed.
pub open spec fn unused(usable: Seq<bool>) -> nat
    decreases usable.len(),
{
    if usable.len() == 0 {
        0
    } else if usable.last() {
        unused(usable.drop_last()) + 1
    } else {
        unused(usable.drop_last())
    }
}

/// Two runs of solutions one after the other, unless one of the two searches
/// broke off.
pub open spec fn join(a: Option<Seq<Grid>>, b: Option<Seq<Grid>>) -> Option<Seq<Grid>> {
    match (a, b) {
        (Some(x), Some(y)) => Some(x + y),
        _ => None,
    }
}

/// The solutions that the search finds from `grid` with the groups marked in
/// `usable`, in the order in which it finds them; `None` where it comes upon
/// a board without an empty cell while groups are left.
///
/// With no group left the grid itself is the one solution. Otherwise the
/// first empty cell is the target; if `accept` turns the grid down, there is
/// no solution from here; if not, the solutions are those of every group
/// that is left, in order.
pub open spec fn search(
    grid: Grid,
    usable: Seq<bool>,
    groups: Seq<Seq<Seq<Point>>>,
    accept: spec_fn(Grid, nat) -> bool,
) -> Option<Seq<Grid>>
    decreases unused(usable), 2int, 0int,
{
    if unused(usable) == 0 {
        Some(seq![grid])
    } else {
        match grid.first_unoccupied() {
            None => None,
            Some(target) => if accept(grid, grid.region(target).len()) {
                search_groups(grid, usable, groups, accept, target, 0)
            } else {
                Some(Seq::empty())
            },
        }
    }
}

/// The solutions that begin with a shape of one of the groups from `from` on
/// at `target`.
pub open spec fn search_groups(
    grid: Grid,
    usable: Seq<bool>,
    groups: Seq<Seq<Seq<Point>>>,
    accept: spec_fn(Grid, nat) -> bool,
    target: Point,
    from: int,
) -> Option<Seq<Grid>>
    decreases unused(usable), 1int, usable.len() - from,
{
    if 0 <= from < usable.len() {
        join(
            search_group(grid, usable, groups, accept, target, from, 0),
            search_groups(grid, usable, groups, accept, target, from + 1),
        )
    } else {
        Some(Seq::empty())
    }
}

/// The solutions that begin with one of the shapes from `from` on of group
/// `group` at `target`; none where that group is used up. Each shape that
/// fits is placed, and the search goes on without its group.
pub open spec fn search_group(
    grid: Grid,
    usable: Seq<bool>,
    groups: Seq<Seq<Seq<Point>>>,
    accept: spec_fn(Grid, nat) -> bool,
    target: Point,
    group: int,
    from: int,
) -> Option<Seq<Grid>>
    decreases unused(usable), 0int, groups[group].len() - from,
{
    if 0 <= group < usable.len() && usable[group] && 0 <= from < groups[group].len() {
        let shape = groups[group][from];
        join(
            match grid.fit_origin(shape, target) {
                Some(origin) => {
                    proof {
                        lemma_unused_update(usable, group);
                    }
                    search(grid.placed(shape, origin), usable.update(group, false), groups, accept)
                },
                None => Some(Seq::empty()),
            },
            search_group(grid, usable, groups, accept, target, group, from + 1),
        )
    } else {
        Some(Seq::empty())
    }
}

/// Marking a group as used leaves one group less.
pub proof fn lemma_unused_update(usable: Seq<bool>, group: int)
    requires
        0 <= group < usable.len(),
        usable[group],
    ensures
        unused(usable.update(group, false)) + 1 == unused(usable),
    decreases usable.len(),
{
    let after = usable.update(group, false);
    if group == usable.len() - 1 {
        assert(after.drop_last() =~= usable.drop_last());
    } else {
        lemma_unused_update(usable.drop_last(), group);
        assert(after.drop_last() =~= usable.drop_last().update(group, false));
    }
}

/// No group is left exactly when no bit is set.
pub proof fn lemma_unused_none(usable: Seq<bool>)
    ensures
        unused(usable) == 0 <==> (forall|i: int| 0 <= i < usable.len() ==> !usable[i]),
    decreases usable.len(),
{
    if usable.len() > 0 {
        let head = usable.drop_last();
        lemma_unused_none(head);
        if unused(usable) == 0 {
            assert forall|i: int| 0 <= i < usable.len() implies !usable[i] by {
                if i < head.len() {
                    assert(!head[i]);
                }
            }
        }
        if forall|i: int| 0 <= i < usable.len() ==> !usable[i] {
            assert(!usable[usable.len() - 1]);
            assert forall|i: int| 0 <= i < head.len() implies !head[i] by {
                assert(!usable[i]);
            }
        }
    }
}

/// What a rule, or the lack of one, says of a grid and a region size: without
/// a rule every grid is accepted.
pub open spec fn accept_of<R: RegionChecker>(checker: Option<&R>) -> spec_fn(Grid, nat) -> bool {
    match checker {
        Some(rule) => |grid: Grid, region_size: nat| rule.accepts(grid, region_size),
        None => |grid: Grid, region_size: nat| true,
    }
}

/// The grids of a list of boards.
pub open spec fn grids_of(boards: Seq<Board>) -> Seq<Grid> {
    boards.map_values(|b: Board| b@)
}

/// Every group is still to be placed.
pub open spec fn all_usable(groups: nat) -> Seq<bool> {
    Seq::new(groups, |i: int| true)
}

/// What a search has to return that found the solutions `found`, or broke
/// off (`None`).
pub open spec fn count_of(found: Option<Seq<Grid>>) -> Result<u32, SolverError> {
    match found {
        None => Err(SolverError::PiecesLeftOver),
        Some(list) => if list.len() <= u32::MAX {
            Ok(list.len() as u32)
        } else {
            Err(SolverError::TooManySolutions)
        },
    }
}

/// What a callback has been told of after `found` more solutions.
pub open spec fn told_after(before: Option<Seq<Grid>>, found: Seq<Grid>) -> Option<Seq<Grid>> {
    match before {
        Some(log) => Some(log + found),
        None => None,
    }
}

/// The counter after `found` more solutions: it stands at `num1`, or has
/// run over (`over1`), given that it stood at `num0`, or had run over
/// (`over0`), before.
spec fn counted(num0: u32, over0: bool, found: nat, num1: u32, over1: bool) -> bool {
    &&& over1 == (over0 || num0 + found > u32::MAX)
    &&& !over1 ==> num1 == num0 + found
}

/// The list of solutions after `found` more: longer by them where the
/// solver keeps solutions, as it was where it does not.
spec fn collected(keep: bool, list0: Seq<Grid>, found: Seq<Grid>, list1: Seq<Grid>) -> bool {
    if keep {
        list1 == list0 + found
    } else {
        list1 == list0
    }
}

proof fn lemma_join_some(a: Seq<Grid>, b: Seq<Grid>, rest: Option<Seq<Grid>>)
    ensures
        join(Some(a), join(Some(b), rest)) == join(Some(a + b), rest),
{
    if rest is Some {
        assert(a + (b + rest.unwrap()) =~= (a + b) + rest.unwrap());
    }
}

/// The rule that accepts every region: the search is not pruned.
pub struct AnyRegion;

impl RegionChecker for AnyRegion {
    fn evaluate(&self, board: &Board, region_size: usize) -> (ok: bool) {
        true
    }
}

/// The callback that does nothing with what it is told.
pub struct NoCallback {
    told: Ghost<Seq<Grid>>,
}

impl NoCallback {
    pub fn new() -> (callback: NoCallback)
        ensures
            callback.told() == Seq::<Grid>::empty(),
    {
        NoCallback { told: Ghost(Seq::empty()) }
    }
}

impl SolutionCallback for NoCallback {
    closed spec fn told(&self) -> Seq<Grid> {
        self.told@
    }

    fn notify(&mut self, board: &Board) {
        self.told = Ghost(self.told@.push(board@));
    }
}

/// A search over a board for the ways to place one shape of each group.
///
/// `R` is the rule that prunes the search and `C` what is told of each
/// solution; both are optional.
pub struct Solver<'b, 'a, R: RegionChecker, C: SolutionCallback> {
    board: &'b mut Board<'a>,
    candidates: &'a Vec<Vec<Polyomino>>,
    region_check: Option<&'b R>,
    callback_each_solution: Option<&'b mut C>,
    solutions: Vec<Board<'a>>,
    enumerate_solutions: bool,
    num_solutions: u32,
    overflowed: bool,
}

impl<'b, 'a> Solver<'b, 'a, AnyRegion, NoCallback> {
    /// A solver for board `b` and the groups `c`, without a rule and
    /// without a callback.
    pub fn new(b: &'b mut Board<'a>, c: &'a Vec<Vec<Polyomino>>) -> (solver: Self)
        requires
            old(b).wf(),
        ensures
            solver.wf(),
            solver.grid() == old(b)@,
            solver.groups() == c.deep_view(),
            solver.region_checker() is None,
            solver.told() is None,
            solver.kept() == Seq::<Grid>::empty(),
    {
        let solver = Solver {
            board: b,
            candidates: c,
            region_check: None,
            callback_each_solution: None,
            solutions: Vec::new(),
            enumerate_solutions: false,
            num_solutions: 0,
            overflowed: false,
        };
        proof {
            assert(solver.kept() =~= Seq::<Grid>::empty());
        }
        solver
    }
}

impl<'b, 'a, R: RegionChecker, C: SolutionCallback> Solver<'b, 'a, R, C> {
    /// The board of the solver is well formed.
    pub closed spec fn wf(&self) -> bool {
        self.board.wf()
    }

    /// The board as it stands.
    pub closed spec fn grid(&self) -> Grid {
        self.board@
    }

    /// The groups of shapes, one of each of which is to be placed.
    pub closed spec fn groups(&self) -> Seq<Seq<Seq<Point>>> {
        self.candidates.deep_view()
    }

    /// The rule that prunes the search, if one was set.
    pub closed spec fn region_checker(&self) -> Option<&'b R> {
        self.region_check
    }

    /// The solutions that the last search kept.
    pub closed spec fn kept(&self) -> Seq<Grid> {
        grids_of(self.solutions@)
    }

    /// The grids that the callback has been told of, if there is a callback.
    pub closed spec fn told(&self) -> Option<Seq<Grid>> {
        match self.callback_each_solution {
            Some(cb) => Some(cb.told()),
            None => None,
        }
    }

    /// All the solutions from the board as it stands, in the order of the
    /// search, or `None` where the search breaks off.
    pub open spec fn outcome(&self) -> Option<Seq<Grid>> {
        search(
            self.grid(),
            all_usable(self.groups().len()),
            self.groups(),
            accept_of(self.region_checker()),
        )
    }

    /// The solver with `rc` for its rule: `rc` is asked, of every board on
    /// which a shape is to be placed, whether the search should go on.
    pub fn set_region_checker<R2: RegionChecker>(self, rc: &'b R2) -> (solver: Solver<'b, 'a, R2, C>)
        ensures
            solver.wf() == self.wf(),
            solver.grid() == self.grid(),
            solver.groups() == self.groups(),
            solver.kept() == self.kept(),
            solver.told() == self.told(),
            solver.region_checker() == Some(rc),
    {
        Solver {
            board: self.board,
            candidates: self.candidates,
            region_check: Some(rc),
            callback_each_solution: self.callback_each_solution,
            solutions: self.solutions,
            enumerate_solutions: self.enumerate_solutions,
            num_solutions: self.num_solutions,
            overflowed: self.overflowed,
        }
    }

    /// The solver with `cb` for its callback: `cb` is told of every
    /// solution.
    pub fn set_callback_function<C2: SolutionCallback>(self, cb: &'b mut C2) -> (solver: Solver<
        'b,
        'a,
        R,
        C2,
    >)
        ensures
            solver.wf() == self.wf(),
            solver.grid() == self.grid(),
            solver.groups() == self.groups(),
            solver.kept() == self.kept(),
            solver.region_checker() == self.region_checker(),
            solver.told() == Some(old(cb).told()),
    {
        Solver {
            board: self.board,
            candidates: self.candidates,
            region_check: self.region_check,
            callback_each_solution: Some(cb),
            solutions: self.solutions,
            enumerate_solutions: self.enumerate_solutions,
            num_solutions: self.num_solutions,
            overflowed: self.overflowed,
        }
    }

    /// Counts the solutions from the board as it stands. The board is left
    /// as it was.
    pub fn count_solutions(&mut self) -> (count: Result<u32, SolverError>)
        requires
            old(self).wf(),
        ensures
            final(self).wf(),
            final(self).grid() == old(self).grid(),
            final(self).groups() == old(self).groups(),
            final(self).region_checker() == old(self).region_checker(),
            count == count_of(old(self).outcome()),
            final(self).told() is Some <==> old(self).told() is Some,
            old(self).outcome() matches Some(found) ==> final(self).told() == told_after(
                old(self).told(),
                found,
            ),
    {
        self.enumerate_solutions = false;
        self.start()
    }

    /// Finds the solutions from the board as it stands and hands out a copy
    /// of the board for each, in the order in which they are found. The
    /// board is left as it was.
    pub fn solve(&mut self) -> (boards: Result<&Vec<Board<'a>>, SolverError>)
        requires
            old(self).wf(),
        ensures
            final(self).wf(),
            final(self).grid() == old(self).grid(),
            final(self).groups() == old(self).groups(),
            final(self).region_checker() == old(self).region_checker(),
            match count_of(old(self).outcome()) {
                Ok(_) => boards is Ok && grids_of(boards->Ok_0@) == old(self).outcome()->0
                    && final(self).kept() == old(self).outcome()->0,
                Err(e) => boards == Err::<&Vec<Board<'a>>, SolverError>(e),
            },
            final(self).told() is Some <==> old(self).told() is Some,
            old(self).outcome() matches Some(found) ==> final(self).told() == told_after(
                old(self).told(),
                found,
            ),
    {
        self.enumerate_solutions = true;
        match self.start() {
            Ok(_) => Ok(&self.solutions),
            Err(e) => Err(e),
        }
    }

    /// The board of the solver.
    pub fn board(&self) -> (b: &Board<'a>)
        ensures
            b@ == self.grid(),
            b.wf() == self.wf(),
    {
        &*self.board
    }

    /// The copies of the board that the last call of `solve` kept.
    pub fn solutions(&self) -> (boards: &Vec<Board<'a>>)
        ensures
            grids_of(boards@) == self.kept(),
    {
        &self.solutions
    }

    fn start(&mut self) -> (count: Result<u32, SolverError>)
        requires
            old(self).wf(),
        ensures
            final(self).wf(),
            final(self).grid() == old(self).grid(),
            final(self).groups() == old(self).groups(),
            final(self).region_checker() == old(self).region_checker(),
            final(self).enumerate_solutions == old(self).enumerate_solutions,
            count == count_of(old(self).outcome()),
            old(self).outcome() matches Some(found) ==> collected(
                old(self).enumerate_solutions,
                Seq::empty(),
                found,
                final(self).kept(),
            ),
            final(self).told() is Some <==> old(self).told() is Some,
            old(self).outcome() matches Some(found) ==> final(self).told() == told_after(
                old(self).told(),
                found,
            ),
    {
        self.num_solutions = 0;
        self.overflowed = false;
        self.solutions = Vec::new();
        let mut usable_candidates = bits_from_elem(self.candidates.len(), true);
        proof {
            assert(self.kept() =~= Seq::<Grid>::empty());
            assert(bits(usable_candidates) =~= all_usable(self.groups().len()));
        }
        let done = self.solve_ex(&mut usable_candidates);
        if !done {
            Err(SolverError::PiecesLeftOver)
        } else if self.overflowed {
            Err(SolverError::TooManySolutions)
        } else {
            Ok(self.num_solutions)
        }
    }

    /// Searches from the board as it stands with the groups that `usable`
    /// marks. The result is `false` where the search broke off. The board
    /// and `usable` are left as they were.
    #[verifier::loop_isolation(false)]
    #[verifier::rlimit(50)]
    fn solve_ex(&mut self, usable_candidates: &mut BitVec<u32>) -> (done: bool)
        requires
            old(self).wf(),
            bits(*old(usable_candidates)).len() == old(self).groups().len(),
        ensures
            final(self).wf(),
            final(self).grid() == old(self).grid(),
            final(self).groups() == old(self).groups(),
            final(self).region_checker() == old(self).region_checker(),
            final(self).enumerate_solutions == old(self).enumerate_solutions,
            bits(*final(usable_candidates)) == bits(*old(usable_candidates)),
            final(self).told() is Some <==> old(self).told() is Some,
            match search(
                old(self).grid(),
                bits(*old(usable_candidates)),
                old(self).groups(),
                accept_of(old(self).region_checker()),
            ) {
                None => !done,
                Some(found) => {
                    &&& done
                    &&& counted(
                        old(self).num_solutions,
                        old(self).overflowed,
                        found.len(),
                        final(self).num_solutions,
                        final(self).overflowed,
                    )
                    &&& collected(
                        old(self).enumerate_solutions,
                        old(self).kept(),
                        found,
                        final(self).kept(),
                    )
                    &&& final(self).told() == told_after(old(self).told(), found)
                },
            },
        decreases unused(bits(*old(usable_candidates))),
    {
        let ghost grid0 = self.grid();
        let ghost usable0 = bits(*usable_candidates);
        let ghost groups = self.groups();
        let ghost accept = accept_of(self.region_checker());
        let ghost num0 = self.num_solutions;
        let ghost over0 = self.overflowed;
        let ghost list0 = self.kept();
        let ghost keep = self.enumerate_solutions;
        let ghost told0 = self.told();
        proof {
            lemma_unused_none(usable0);
            self.board.lemma_wf();
            assert(grid0.wf());
        }
        if bits_none(usable_candidates) {
            if self.num_solutions == u32::MAX {
                self.overflowed = true;
            } else {
                self.num_solutions += 1;
            }
            if self.enumerate_solutions {
                let snapshot = self.board.clone();
                self.solutions.push(snapshot);
                proof {
                    assert(self.kept() =~= list0 + seq![grid0]);
                }
            }
            if let Some(cb) = &mut self.callback_each_solution {
                cb.notify(&*self.board);
            }
            proof {
                if told0 is Some {
                    assert(told0.unwrap() + seq![grid0] =~= told0.unwrap().push(grid0));
                }
            }
            return true;
        }
        let first = get_first_unoccupied(self.board);
        if first.is_none() {
            return false;
        }
        let fit_point = first.unwrap();
        if let Some(region_check_fn) = self.region_check {
            let region = get_all_adjacent(fit_point, self.board);
            if !region_check_fn.evaluate(self.board, cell_set_len(&region)) {
                proof {
                    assert(list0 + Seq::<Grid>::empty() =~= list0);
                    if told0 is Some {
                        assert(told0.unwrap() + Seq::<Grid>::empty() =~= told0.unwrap());
                    }
                }
                return true;
            }
        }
        let ghost mut found: Seq<Grid> = Seq::empty();
        let n = bits_len(usable_candidates);
        let mut i: usize = 0;
        proof {
            assert(list0 + found =~= list0);
            if told0 is Some {
                assert(told0.unwrap() + found =~= told0.unwrap());
            }
            let rest = search_groups(grid0, usable0, groups, accept, fit_point, 0);
            if rest is Some {
                assert(found + rest.unwrap() =~= rest.unwrap());
            }
        }
        while i < n
            invariant
                i <= n,
                n == usable0.len(),
                n == groups.len(),
                self.wf(),
                self.grid() == grid0,
                self.groups() == groups,
                accept_of(self.region_checker()) == accept,
                self.region_checker() == old(self).region_checker(),
                self.enumerate_solutions == keep,
                bits(*usable_candidates) == usable0,
                grid0.first_unoccupied() == Some(fit_point),
                search_groups(grid0, usable0, groups, accept, fit_point, 0) == join(
                    Some(found),
                    search_groups(grid0, usable0, groups, accept, fit_point, i as int),
                ),
                counted(num0, over0, found.len(), self.num_solutions, self.overflowed),
                collected(keep, list0, found, self.kept()),
                self.told() == told_after(told0, found),
            decreases n - i,
        {
            let ghost before_group = found;
            let ghost mut of_group: Seq<Grid> = Seq::empty();
            let usable = match bits_get(usable_candidates, i) {
                Some(bit) => bit,
                None => false,
            };
            if usable {
                let count = self.candidates[i].len();
                let mut v: usize = 0;
                proof {
                    assert(found + of_group =~= found);
                    let rest = search_group(grid0, usable0, groups, accept, fit_point, i as int, 0);
                    if rest is Some {
                        assert(of_group + rest.unwrap() =~= rest.unwrap());
                    }
                }
                while v < count
                    invariant
                        v <= count,
                        i < n,
                        n == usable0.len(),
                        n == groups.len(),
                        count == groups[i as int].len(),
                        usable0[i as int],
                        self.wf(),
                        self.grid() == grid0,
                        self.groups() == groups,
                        accept_of(self.region_checker()) == accept,
                        self.region_checker() == old(self).region_checker(),
                        self.enumerate_solutions == keep,
                        bits(*usable_candidates) == usable0,
                        unused(usable0) == unused(bits(*old(usable_candidates))),
                        search_group(grid0, usable0, groups, accept, fit_point, i as int, 0)
                            == join(
                            Some(of_group),
                            search_group(
                                grid0,
                                usable0,
                                groups,
                                accept,
                                fit_point,
                                i as int,
                                v as int,
                            ),
                        ),
                        search_groups(grid0, usable0, groups, accept, fit_point, 0) == join(
                            Some(before_group),
                            search_groups(grid0, usable0, groups, accept, fit_point, i as int),
                        ),
                        counted(
                            num0,
                            over0,
                            (before_group + of_group).len(),
                            self.num_solutions,
                            self.overflowed,
                        ),
                        collected(keep, list0, before_group + of_group, self.kept()),
                        self.told() == told_after(told0, before_group + of_group),
                    decreases count - v,
                {
                    let poly = &self.candidates[i][v];
                    let ghost shape = groups[i as int][v as int];
                    proof {
                        assert(poly@ == shape);
                    }
                    let rest_of_group = Ghost(
                        search_group(
                            grid0,
                            usable0,
                            groups,
                            accept,
                            fit_point,
                            i as int,
                            v as int + 1,
                        ),
                    );
                    if fit_at(self.board, poly, fit_point).is_some() {
                        let ghost origin = grid0.fit_origin(shape, fit_point).unwrap();
                        let ghost num1 = self.num_solutions;
                        let ghost over1 = self.overflowed;
                        let ghost list1 = self.kept();
                        proof {
                            lemma_unused_update(usable0, i as int);
                        }
                        bits_set(usable_candidates, i, false);
                        let done = self.solve_ex(usable_candidates);
                        bits_set(usable_candidates, i, true);
                        self.board.remove_polyomino(fit_point);
                        proof {
                            assert(bits(*usable_candidates) =~= usable0);
                            grid0.lemma_place_remove(
                                shape,
                                origin,
                                fit_point.x as int,
                                fit_point.y as int,
                            );
                        }
                        let ghost below = search(
                            grid0.placed(shape, origin),
                            usable0.update(i as int, false),
                            groups,
                            accept,
                        );
                        if !done {
                            return false;
                        }
                        proof {
                            let more = below.unwrap();
                            lemma_join_some(of_group, more, rest_of_group@);
                            assert((before_group + of_group) + more =~= before_group + (of_group
                                + more));
                            assert(list0 + ((before_group + of_group) + more) =~= (list0 + (
                            before_group + of_group)) + more);
                            if told0 is Some {
                                assert(told0.unwrap() + ((before_group + of_group) + more) =~= (
                                told0.unwrap() + (before_group + of_group)) + more);
                            }
                            of_group = of_group + more;
                        }
                    } else {
                        proof {
                            lemma_join_some(of_group, Seq::empty(), rest_of_group@);
                            assert(of_group + Seq::<Grid>::empty() =~= of_group);
                        }
                    }
                    v += 1;
                }
                proof {
                    assert(of_group + Seq::<Grid>::empty() =~= of_group);
                }
            }
            proof {
                lemma_join_some(
                    before_group,
                    of_group,
                    search_groups(grid0, usable0, groups, accept, fit_point, i as int + 1),
                );
                found = before_group + of_group;
            }
            i += 1;
        }
        proof {
            assert(found + Seq::<Grid>::empty() =~= found);
        }
        true
    }
}

} // verus!
