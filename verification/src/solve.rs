use vstd::prelude::*;
use crate::cell::{CellValue, digit_of, has_candidate, is_fixed, spec_nb_possibility};
use crate::grid::{
    Grid, all_fixed, cands_cover, count_unfixed, fixed_preserved, grid_wf, is_grid_complete_full,
    no_conflicts, solution_of, solved, unsolvable,
};
use crate::peers::is_peer;
use crate::propagate::{
    build_possible_values_grid, lemma_solution_free, lemma_update_fix_back, lemma_update_fix_keeps,
    set_cell_value_at,
};

verus! {

/// On an all-fixed grid the only candidate solution is the grid itself.
proof fn lemma_all_fixed_solution(g: Seq<CellValue>, s: Seq<CellValue>)
    requires
        g.len() == 81,
        all_fixed(g),
        solution_of(s, g),
    ensures
        s == g,
{
    assert forall|i: int| 0 <= i < 81 implies s[i] == g[i] by {
        assert(has_candidate(g[i], digit_of(s[i])));
        assert(is_fixed(s[i]) && is_fixed(g[i]));
    }
    assert(s =~= g);
}

/// A solved grid is a solution of itself.
proof fn lemma_solved_self(g: Seq<CellValue>)
    requires
        solved(g),
    ensures
        solution_of(g, g),
{
    assert forall|i: int| 0 <= i < 81 implies #[trigger] has_candidate(g[i], digit_of(g[i])) by {
        assert(is_fixed(g[i]));
    }
}

/// Picks the undetermined cell with the fewest remaining candidates (the
/// most constrained cell), or reports that every cell is fixed.
fn select_most_constrained(grid: &Grid) -> (r: Option<usize>)
    requires
        grid_wf(grid@),
    ensures
        r is None ==> all_fixed(grid@),
        r matches Some(i) ==> i < 81 && !is_fixed(grid@[i as int]) && forall|j: int|
            0 <= j < 81 ==> spec_nb_possibility(grid@[i as int]) <= spec_nb_possibility(
                #[trigger] grid@[j],
            ),
{
    let mut best: Option<usize> = Option::None;
    let mut best_n: usize = 11;
    let mut i: usize = 0;
    while i < 81
        invariant
            i <= 81,
            grid_wf(grid@),
            best is None ==> best_n == 11 && forall|j: int|
                0 <= j < i ==> is_fixed(#[trigger] grid@[j]),
            best matches Some(b) ==> b < i <= 81 && !is_fixed(grid@[b as int]) && best_n
                == spec_nb_possibility(grid@[b as int]) && best_n <= 9 && forall|j: int|
                0 <= j < i ==> best_n <= spec_nb_possibility(#[trigger] grid@[j]),
        decreases 81 - i,
    {
        if !grid[i].is_value() {
            let n = grid[i].get_nb_possibility();
            proof {
                crate::cell::lemma_count_nonneg((grid@[i as int]->Possibilities_0)@, 9);
            }
            if n < best_n {
                best = Option::Some(i);
                best_n = n;
            }
        }
        i = i + 1;
    }
    best
}

/// The recursive search: propagate-as-you-assign, pick the most
/// constrained cell, branch over its candidate digits in increasing
/// order, and backtrack on contradictions. Returns the first completed
/// grid found, or nothing when every branch is dead.
pub fn solve_grid_recurse(grid: Grid) -> (r: Option<Grid>)
    requires
        grid_wf(grid@),
    ensures
        r matches Some(s) ==> solved(s@) && fixed_preserved(grid@, s@),
        r matches Some(s) ==> (cands_cover(grid@) ==> solution_of(s@, grid@)),
        r is None ==> unsolvable(grid@),
    decreases count_unfixed(grid@),
{
    let sel = select_most_constrained(&grid);
    match sel {
        Option::None => {
            if is_grid_complete_full(grid) {
                proof {
                    lemma_solved_self(grid@);
                }
                Option::Some(grid)
            } else {
                proof {
                    assert forall|s: Seq<CellValue>| !(#[trigger] solution_of(s, grid@)) by {
                        if solution_of(s, grid@) {
                            lemma_all_fixed_solution(grid@, s);
                            assert(solved(grid@));
                        }
                    }
                }
                Option::None
            }
        },
        Option::Some(index) => {
            let ghost gi = index as int;
            let p = match grid[index] {
                CellValue::Possibilities(p) => p,
                CellValue::Value(_) => {
                    proof {
                        assert(false);
                    }
                    return Option::None;
                },
            };
            let mut d: usize = 0;
            while d < 9
                invariant
                    d <= 9,
                    grid_wf(grid@),
                    index < 81,
                    grid@[gi] == CellValue::Possibilities(p),
                    forall|s: Seq<CellValue>|
                        #[trigger] solution_of(s, grid@) ==> digit_of(s[gi]) >= d,
                decreases 9 - d,
            {
                if p[d] {
                    let ghost gud = grid@.update(gi, CellValue::Value(d));
                    let mut g2 = grid;
                    let ok = set_cell_value_at(&mut g2, index, d);
                    if ok {
                        proof {
                            crate::grid::lemma_count_unfixed_bounds(g2@, 81);
                        }
                        let rec = solve_grid_recurse(g2);
                        match rec {
                            Option::Some(gx) => {
                                proof {
                                    assert forall|i2: int|
                                        0 <= i2 < 81 && is_fixed(#[trigger] grid@[i2]) implies gx@[i2]
                                        == grid@[i2] by {
                                        assert(gud[i2] == grid@[i2]);
                                        assert(g2@[i2] == gud[i2]);
                                        assert(is_fixed(g2@[i2]));
                                    }
                                    if cands_cover(grid@) {
                                        assert(solution_of(gx@, g2@));
                                        assert(solution_of(gx@, gud));
                                        lemma_update_fix_back(gx@, grid@, gi, d);
                                    }
                                }
                                return Option::Some(gx);
                            },
                            Option::None => {
                                proof {
                                    assert forall|s: Seq<CellValue>| #[trigger] solution_of(
                                        s,
                                        grid@,
                                    ) implies digit_of(s[gi]) >= d + 1 by {
                                        if digit_of(s[gi]) == d as int {
                                            lemma_update_fix_keeps(s, grid@, gi, d);
                                            assert(solution_of(s, g2@));
                                            assert(false);
                                        }
                                    }
                                }
                            },
                        }
                    } else {
                        proof {
                            assert forall|s: Seq<CellValue>| #[trigger] solution_of(
                                s,
                                grid@,
                            ) implies digit_of(s[gi]) >= d + 1 by {
                                if digit_of(s[gi]) == d as int {
                                    lemma_update_fix_keeps(s, grid@, gi, d);
                                    assert(false);
                                }
                            }
                        }
                    }
                } else {
                    proof {
                        assert forall|s: Seq<CellValue>| #[trigger] solution_of(
                            s,
                            grid@,
                        ) implies digit_of(s[gi]) >= d + 1 by {
                            assert(has_candidate(grid@[gi], digit_of(s[gi])));
                            if digit_of(s[gi]) == d as int {
                                assert(p[d as int]);
                            }
                        }
                    }
                }
                d = d + 1;
            }
            proof {
                assert forall|s: Seq<CellValue>| !(#[trigger] solution_of(s, grid@)) by {
                    if solution_of(s, grid@) {
                        lemma_solution_free(s, grid@, gi);
                    }
                }
            }
            Option::None
        },
    }
}

/// One step of the search state machine: the grid is already solved, dead,
/// or branches into one grid per candidate digit of its most constrained
/// cell.
pub enum SearchStep {
    Solved(Grid),
    Unsatisfiable,
    Branching(Vec<Grid>),
}

/// The branch grids of one fan-out: one per candidate digit of `index`
/// that survives its assignment, in increasing digit order. No solution
/// is lost: a solution of the grid puts some still-possible digit in the
/// cell, and the branch for that digit keeps it.
#[verifier::rlimit(50)]
fn branch_candidates(grid: Grid, index: usize) -> (v: Vec<Grid>)
    requires
        grid_wf(grid@),
        index < 81,
        !is_fixed(grid@[index as int]),
    ensures
        forall|k: int|
            0 <= k < v@.len() ==> grid_wf(#[trigger] v@[k]@) && fixed_preserved(grid@, v@[k]@),
        forall|s: Seq<CellValue>|
            #[trigger] solution_of(s, grid@) ==> exists|k: int|
                0 <= k < v@.len() && solution_of(s, v@[k]@),
        cands_cover(grid@) ==> forall|k: int, s: Seq<CellValue>|
            0 <= k < v@.len() && #[trigger] solution_of(s, v@[k]@) ==> solution_of(s, grid@),
        v@.len() <= 9,
        forall|k: int|
            0 <= k < v@.len() ==> count_unfixed(#[trigger] v@[k]@) < count_unfixed(grid@),
{
    let ghost g1 = grid@;
    let ghost gi = index as int;
    let p = match grid[index] {
        CellValue::Possibilities(p) => p,
        CellValue::Value(_) => {
            proof {
                assert(false);
            }
            return Vec::new();
        },
    };
    let mut branches: Vec<Grid> = Vec::new();
    let mut d: usize = 0;
    while d < 9
        invariant
            d <= 9,
            grid_wf(g1),
            grid@ == g1,
            index < 81,
            g1[gi] == CellValue::Possibilities(p),
            forall|k: int|
                0 <= k < branches@.len() ==> grid_wf(#[trigger] branches@[k]@) && fixed_preserved(
                    g1,
                    branches@[k]@,
                ),
            forall|s: Seq<CellValue>|
                #[trigger] solution_of(s, g1) && digit_of(s[gi]) < d ==> exists|k: int|
                    0 <= k < branches@.len() && solution_of(s, branches@[k]@),
            cands_cover(g1) ==> forall|k: int, s: Seq<CellValue>|
                0 <= k < branches@.len() && #[trigger] solution_of(s, branches@[k]@)
                    ==> solution_of(s, g1),
            branches@.len() <= d,
            forall|k: int|
                0 <= k < branches@.len() ==> count_unfixed(#[trigger] branches@[k]@)
                    < count_unfixed(g1),
        decreases 9 - d,
    {
        if p[d] {
            let ghost gud = g1.update(gi, CellValue::Value(d));
            let mut g2 = grid;
            let ok = set_cell_value_at(&mut g2, index, d);
            if ok {
                let ghost before = branches@;
                branches.push(g2);
                proof {
                    assert forall|s: Seq<CellValue>|
                        #[trigger] solution_of(s, g1) && digit_of(s[gi]) < d + 1 implies exists|
                        k: int,
                    | 0 <= k < branches@.len() && solution_of(s, branches@[k]@) by {
                        if digit_of(s[gi]) < d as int {
                            let k = choose|k: int|
                                0 <= k < before.len() && solution_of(s, before[k]@);
                            assert(branches@[k]@ == before[k]@);
                            assert(solution_of(s, branches@[k]@));
                        } else {
                            lemma_update_fix_keeps(s, g1, gi, d);
                            assert(solution_of(s, g2@));
                            assert(branches@[branches@.len() - 1] == g2);
                            assert(solution_of(s, branches@[branches@.len() - 1]@));
                        }
                    }
                    assert forall|i2: int|
                        0 <= i2 < 81 && is_fixed(#[trigger] g1[i2]) implies g2@[i2] == g1[i2] by {
                        assert(gud[i2] == g1[i2]);
                        assert(g2@[i2] == gud[i2]);
                    }
                    if cands_cover(g1) {
                        assert forall|k: int, s: Seq<CellValue>|
                            0 <= k < branches@.len() && #[trigger] solution_of(
                                s,
                                branches@[k]@,
                            ) implies solution_of(s, g1) by {
                            if k < branches@.len() - 1 {
                                assert(branches@[k]@ == before[k]@);
                            } else {
                                assert(branches@[k] == g2);
                                assert(solution_of(s, gud));
                                lemma_update_fix_back(s, g1, gi, d);
                            }
                        }
                    }
                }
            } else {
                proof {
                    assert forall|s: Seq<CellValue>|
                        #[trigger] solution_of(s, g1) && digit_of(s[gi]) < d + 1 implies exists|
                        k: int,
                    | 0 <= k < branches@.len() && solution_of(s, branches@[k]@) by {
                        if digit_of(s[gi]) == d as int {
                            lemma_update_fix_keeps(s, g1, gi, d);
                            assert(false);
                        }
                    }
                }
            }
        } else {
            proof {
                assert forall|s: Seq<CellValue>|
                    #[trigger] solution_of(s, g1) && digit_of(s[gi]) < d + 1 implies exists|k: int|
                    0 <= k < branches@.len() && solution_of(s, branches@[k]@) by {
                    assert(has_candidate(g1[gi], digit_of(s[gi])));
                    if digit_of(s[gi]) == d as int {
                        assert(p[d as int]);
                    }
                }
            }
        }
        d = d + 1;
    }
    proof {
        assert forall|s: Seq<CellValue>| #[trigger] solution_of(s, g1) implies exists|k: int|
            0 <= k < branches@.len() && solution_of(s, branches@[k]@) by {
            lemma_solution_free(s, g1, gi);
        }
    }
    branches
}

/// Every branch grid is well formed and keeps the fixed cells of `g`.
pub open spec fn branches_wf(g: Seq<CellValue>, v: Vec<Grid>) -> bool {
    forall|k: int|
        0 <= k < v@.len() ==> grid_wf(#[trigger] v@[k]@) && fixed_preserved(g, v@[k]@)
}

/// No solution of `g` is lost: each survives into some branch.
pub open spec fn branches_complete(g: Seq<CellValue>, v: Vec<Grid>) -> bool {
    forall|s: Seq<CellValue>|
        #[trigger] solution_of(s, g) ==> exists|k: int| 0 <= k < v@.len() && solution_of(s, v@[k]@)
}

/// On a grid with conservative masks no solution is invented: whatever
/// solves a branch solves `g`.
pub open spec fn branches_sound(g: Seq<CellValue>, v: Vec<Grid>) -> bool {
    cands_cover(g) ==> forall|k: int, s: Seq<CellValue>|
        0 <= k < v@.len() && #[trigger] solution_of(s, v@[k]@) ==> solution_of(s, g)
}

/// A fan-out makes progress: there are at most nine branches, and every
/// branch grid has strictly fewer undetermined cells than the grid it
/// came from, so repeated fan-out terminates.
pub open spec fn branches_progress(g: Seq<CellValue>, v: Vec<Grid>) -> bool {
    v@.len() <= 9 && forall|k: int|
        0 <= k < v@.len() ==> count_unfixed(#[trigger] v@[k]@) < count_unfixed(g)
}

/// What one search step guarantees about its outcome: a solved result is
/// a valid completion of the grid, a dead end means the grid has no
/// solution, and a fan-out loses no solution (and, on a grid with
/// conservative masks, invents none).
pub open spec fn search_step_ok(g: Seq<CellValue>, r: SearchStep) -> bool {
    match r {
        SearchStep::Solved(s) => solved(s@) && fixed_preserved(g, s@) && (cands_cover(g)
            ==> solution_of(s@, g)),
        SearchStep::Unsatisfiable => unsolvable(g),
        SearchStep::Branching(v) => branches_wf(g, v) && branches_complete(g, v) && branches_sound(
            g,
            v,
        ) && branches_progress(g, v),
    }
}

/// The root fan-out of the search, for exploring branches in parallel:
/// checks the given clues, runs one propagation pass, and either finishes
/// (solved or dead) or returns the branch grids of the most constrained
/// cell. Every solution of the input survives into some branch, so
/// searching the branches independently and keeping whichever solution
/// comes back first is complete.
#[verifier::rlimit(50)]
pub fn solve_grid_step(grid: Grid) -> (r: SearchStep)
    requires
        grid_wf(grid@),
    ensures
        search_step_ok(grid@, r),
{
    let ghost g0 = grid@;
    let mut i: usize = 0;
    while i < 81
        invariant
            i <= 81,
            grid_wf(grid@),
            forall|ii: int| 0 <= ii < i ==> #[trigger] crate::grid::units_ok_at(grid@, ii),
        decreases 81 - i,
    {
        if !crate::grid::check_grid_at(grid, i) {
            proof {
                crate::grid::lemma_units_not_ok_conflict(grid@, i as int);
                crate::grid::lemma_conflict_unsolvable(grid@);
            }
            proof {
                assert(search_step_ok(g0, SearchStep::Unsatisfiable));
            }
            return SearchStep::Unsatisfiable;
        }
        i = i + 1;
    }
    let mut grid1 = grid;
    if !build_possible_values_grid(&mut grid1) {
        proof {
            assert forall|s: Seq<CellValue>| !(#[trigger] solution_of(s, g0)) by {
                if solution_of(s, g0) {
                    assert(false);
                }
            }
            assert(search_step_ok(g0, SearchStep::Unsatisfiable));
        }
        return SearchStep::Unsatisfiable;
    }
    let ghost g1 = grid1@;
    let sel = select_most_constrained(&grid1);
    match sel {
        Option::None => {
            if is_grid_complete_full(grid1) {
                proof {
                    lemma_solved_self(g1);
                    if cands_cover(g0) {
                        assert(solution_of(g1, g1));
                    }
                }
                proof {
                    assert(search_step_ok(g0, SearchStep::Solved(grid1)));
                }
                SearchStep::Solved(grid1)
            } else {
                proof {
                    assert forall|s: Seq<CellValue>| !(#[trigger] solution_of(s, g0)) by {
                        if solution_of(s, g0) {
                            assert(solution_of(s, g1));
                            lemma_all_fixed_solution(g1, s);
                            assert(solved(g1));
                        }
                    }
                }
                proof {
                    assert(search_step_ok(g0, SearchStep::Unsatisfiable));
                }
                SearchStep::Unsatisfiable
            }
        },
        Option::Some(index) => {
            let branches = branch_candidates(grid1, index);
            proof {
                assert forall|k: int| 0 <= k < branches@.len() implies fixed_preserved(
                    g0,
                    #[trigger] branches@[k]@,
                ) by {
                    assert forall|i2: int|
                        0 <= i2 < 81 && is_fixed(#[trigger] g0[i2]) implies branches@[k]@[i2]
                        == g0[i2] by {
                        assert(g1[i2] == g0[i2]);
                        assert(is_fixed(g1[i2]));
                    }
                }
                assert forall|s: Seq<CellValue>| #[trigger] solution_of(s, g0) implies exists|
                    k: int,
                | 0 <= k < branches@.len() && solution_of(s, branches@[k]@) by {
                    assert(solution_of(s, g1));
                }
            }
            proof {
                if cands_cover(g0) {
                    assert(cands_cover(g1));
                    assert forall|k: int, s: Seq<CellValue>|
                        0 <= k < branches@.len() && #[trigger] solution_of(
                            s,
                            branches@[k]@,
                        ) implies solution_of(s, g0) by {
                        assert(solution_of(s, g1));
                    }
                }
                assert(branches_wf(g0, branches));
                assert(branches_complete(g0, branches));
                assert(branches_sound(g0, branches));
                assert(branches_progress(g0, branches)) by {
                    assert(count_unfixed(g1) <= count_unfixed(g0));
                    assert forall|k: int| 0 <= k < branches@.len() implies count_unfixed(
                        #[trigger] branches@[k]@,
                    ) < count_unfixed(g0) by {
                        assert(count_unfixed(branches@[k]@) < count_unfixed(g1));
                    }
                }
            }
            SearchStep::Branching(branches)
        },
    }
}

/// Solves the grid: one propagation pass to a fixpoint, then recursive
/// most-constrained-first search. Returns a completed, conflict-free grid
/// that extends the given clues, or nothing when the puzzle admits no
/// solution. A grid whose fixed clues already conflict always yields
/// nothing.
pub fn solve_grid(grid: Grid) -> (r: Option<Grid>)
    requires
        grid_wf(grid@),
    ensures
        r matches Some(s) ==> solved(s@) && fixed_preserved(grid@, s@),
        r matches Some(s) ==> (cands_cover(grid@) ==> solution_of(s@, grid@)),
        r is None ==> unsolvable(grid@),
        (exists|s: Seq<CellValue>| solution_of(s, grid@)) ==> r is Some,
        !no_conflicts(grid@) ==> r is None,
{
    let ghost g0 = grid@;
    // reject a grid whose given clues already conflict: no completion can
    // repair a repeated digit among fixed peers
    let mut i: usize = 0;
    while i < 81
        invariant
            i <= 81,
            grid_wf(grid@),
            forall|ii: int| 0 <= ii < i ==> #[trigger] crate::grid::units_ok_at(grid@, ii),
        decreases 81 - i,
    {
        if !crate::grid::check_grid_at(grid, i) {
            proof {
                crate::grid::lemma_units_not_ok_conflict(grid@, i as int);
                crate::grid::lemma_conflict_unsolvable(grid@);
            }
            return Option::None;
        }
        i = i + 1;
    }
    proof {
        crate::grid::lemma_units_ok_implies_no_conflicts(grid@);
    }
    let mut grid = grid;
    if !build_possible_values_grid(&mut grid) {
        return Option::None;
    }
    let r = solve_grid_recurse(grid);
    proof {
        if r is Some {
            let s = r->0;
            assert forall|i2: int|
                0 <= i2 < 81 && is_fixed(#[trigger] g0[i2]) implies s@[i2] == g0[i2] by {
                assert(grid@[i2] == g0[i2]);
                assert(is_fixed(grid@[i2]));
            }
            if cands_cover(g0) {
                assert(solution_of(s@, grid@));
            }
            if !no_conflicts(g0) {
                let (i, j) = choose|i: int, j: int|
                    #[trigger] is_peer(i, j) && is_fixed(g0[i]) && is_fixed(g0[j]) && digit_of(
                        g0[i],
                    ) == digit_of(g0[j]);
                assert(s@[i] == g0[i] && s@[j] == g0[j]);
                assert(!no_conflicts(s@));
                assert(false);
            }
        } else {
            assert forall|s: Seq<CellValue>| !(#[trigger] solution_of(s, g0)) by {
                if solution_of(s, g0) {
                    assert(solution_of(s, grid@));
                }
            }
        }
    }
    r
}

} // verus!
