use vstd::prelude::*;
use crate::cell::{CellValue, cell_wf, digit_of, has_candidate, is_fixed};
use crate::peers::{
    box_col_of, box_row_of, col_of, is_peer, lemma_box_compose, lemma_cell_compose,
    lemma_cell_decomp, row_of, same_box, same_col, same_row,
};

verus! {

/// A Sudoku grid: 81 cells in row-major order.
pub type Grid = [CellValue; 81];

/// Every fixed cell of the grid holds a digit in range.
pub open spec fn grid_wf(g: Seq<CellValue>) -> bool {
    g.len() == 81 && forall|i: int| 0 <= i < 81 ==> cell_wf(#[trigger] g[i])
}

/// Every cell of the grid is fixed.
pub open spec fn all_fixed(g: Seq<CellValue>) -> bool {
    forall|i: int| 0 <= i < 81 ==> is_fixed(#[trigger] g[i])
}

/// No two fixed peer cells hold the same digit.
pub open spec fn no_conflicts(g: Seq<CellValue>) -> bool {
    forall|i: int, j: int|
        #[trigger] is_peer(i, j) && is_fixed(g[i]) && is_fixed(g[j]) ==> digit_of(g[i])
            != digit_of(g[j])
}

/// A completely solved grid: well formed, every cell fixed, and no row,
/// column or box holds a digit twice.
pub open spec fn solved(g: Seq<CellValue>) -> bool {
    grid_wf(g) && all_fixed(g) && no_conflicts(g)
}

/// `s` is a solution of the grid `g`: it is solved and every one of its
/// digits is still allowed by the corresponding cell of `g`.
pub open spec fn solution_of(s: Seq<CellValue>, g: Seq<CellValue>) -> bool {
    solved(s) && g.len() == 81 && s.len() == 81 && forall|i: int|
        0 <= i < 81 ==> #[trigger] has_candidate(g[i], digit_of(s[i]))
}

/// The grid admits no solution at all.
pub open spec fn unsolvable(g: Seq<CellValue>) -> bool {
    forall|s: Seq<CellValue>| !(#[trigger] solution_of(s, g))
}

/// Every cell fixed in `g0` is still there, unchanged, in `g`.
pub open spec fn fixed_preserved(g0: Seq<CellValue>, g: Seq<CellValue>) -> bool {
    g0.len() == 81 && g.len() == 81 && forall|i: int|
        0 <= i < 81 && is_fixed(#[trigger] g0[i]) ==> g[i] == g0[i]
}

/// No fixed peer of cell `i` holds digit `d`.
pub open spec fn free_digit(g: Seq<CellValue>, i: int, d: int) -> bool {
    forall|j: int| #[trigger] is_peer(i, j) ==> !(is_fixed(g[j]) && digit_of(g[j]) == d)
}

/// The possibility masks only over-approximate: every digit that no fixed
/// peer rules out is still allowed by the mask of an undetermined cell.
pub open spec fn cands_cover(g: Seq<CellValue>) -> bool {
    forall|i: int, d: int|
        0 <= i < 81 && 0 <= d < 9 && !is_fixed(g[i]) && #[trigger] free_digit(g, i, d)
            ==> has_candidate(g[i], d)
}

/// The mask of an undetermined cell holds exactly the digits that none of
/// its fixed peers rules out: the derived candidate set.
pub open spec fn mask_exact_at(g: Seq<CellValue>, k: int) -> bool {
    !is_fixed(g[k]) ==> forall|d: int|
        0 <= d < 9 ==> (has_candidate(g[k], d) <==> #[trigger] free_digit(g, k, d))
}

/// The cell is settled: fixed, or at least two digits are still left open
/// by its fixed peers. Propagation leaves no cell with none (a dead
/// branch) or exactly one (a forced assignment it would have committed).
pub open spec fn settled_at(g: Seq<CellValue>, k: int) -> bool {
    is_fixed(g[k]) || (exists|d1: int, d2: int|
        #![trigger free_digit(g, k, d1), free_digit(g, k, d2)]
        0 <= d1 < d2 < 9 && free_digit(g, k, d1) && free_digit(g, k, d2))
}

/// Undetermined cells only ever lose candidates: no mask bit of a cell
/// still undetermined in `g` is set unless it was set in `g0`.
pub open spec fn masks_narrowed(g0: Seq<CellValue>, g: Seq<CellValue>) -> bool {
    forall|i: int, d: int|
        0 <= i < 81 && 0 <= d < 9 && !is_fixed(g[i]) && #[trigger] has_candidate(g[i], d)
            ==> has_candidate(g0[i], d)
}

/// Narrowing composes, as long as the middle grid's fixed cells survive
/// into the last.
pub proof fn lemma_masks_narrowed_trans(a: Seq<CellValue>, b: Seq<CellValue>, c: Seq<CellValue>)
    requires
        masks_narrowed(a, b),
        masks_narrowed(b, c),
        forall|i: int| 0 <= i < 81 && is_fixed(#[trigger] b[i]) ==> is_fixed(c[i]),
    ensures
        masks_narrowed(a, c),
{
    assert forall|i: int, d: int|
        0 <= i < 81 && 0 <= d < 9 && !is_fixed(c[i]) && #[trigger] has_candidate(
            c[i],
            d,
        ) implies has_candidate(a[i], d) by {
        assert(!is_fixed(b[i]));
        assert(has_candidate(b[i], d));
    }
}

/// Any conflict between fixed peers of `g` was already present in `g0`:
/// later assignments never place a digit next to a fixed copy of itself.
pub open spec fn no_new_conflicts(g0: Seq<CellValue>, g: Seq<CellValue>) -> bool {
    forall|i: int, j: int|
        #[trigger] is_peer(i, j) && is_fixed(g[i]) && is_fixed(g[j]) && digit_of(g[i]) == digit_of(
            g[j],
        ) ==> is_fixed(g0[i]) && is_fixed(g0[j])
}

/// How many of the first `n` cells are still undetermined.
pub open spec fn count_unfixed_up_to(g: Seq<CellValue>, n: int) -> int
    decreases n,
{
    if n <= 0 {
        0
    } else {
        count_unfixed_up_to(g, n - 1) + if !is_fixed(g[n - 1]) {
            1int
        } else {
            0int
        }
    }
}

/// How many cells of the grid are still undetermined.
pub open spec fn count_unfixed(g: Seq<CellValue>) -> int {
    count_unfixed_up_to(g, 81)
}

pub proof fn lemma_count_unfixed_bounds(g: Seq<CellValue>, n: int)
    ensures
        0 <= count_unfixed_up_to(g, n) <= if n >= 0 {
            n
        } else {
            0
        },
    decreases n,
{
    if n > 0 {
        lemma_count_unfixed_bounds(g, n - 1);
    }
}

/// Fixing one undetermined cell lowers the count by one.
pub proof fn lemma_count_unfixed_update(g: Seq<CellValue>, i: int, c: CellValue, n: int)
    requires
        0 <= i < g.len(),
        !is_fixed(g[i]),
        is_fixed(c),
    ensures
        i < n <= g.len() ==> count_unfixed_up_to(g.update(i, c), n) == count_unfixed_up_to(g, n)
            - 1,
        n <= i ==> count_unfixed_up_to(g.update(i, c), n) == count_unfixed_up_to(g, n),
    decreases n,
{
    if n > 0 {
        lemma_count_unfixed_update(g, i, c, n - 1);
    }
}

/// A grid that fixes at least the cells of another has at most as many
/// undetermined cells.
pub proof fn lemma_count_unfixed_pointwise(g1: Seq<CellValue>, g2: Seq<CellValue>, n: int)
    requires
        forall|i: int| 0 <= i < n && is_fixed(#[trigger] g1[i]) ==> is_fixed(g2[i]),
    ensures
        count_unfixed_up_to(g2, n) <= count_unfixed_up_to(g1, n),
    decreases n,
{
    if n > 0 {
        lemma_count_unfixed_pointwise(g1, g2, n - 1);
    }
}

/// The count is zero exactly when every cell is fixed.
pub proof fn lemma_count_unfixed_zero(g: Seq<CellValue>, n: int)
    ensures
        (count_unfixed_up_to(g, n) == 0) <==> (forall|i: int|
            0 <= i < n ==> is_fixed(#[trigger] g[i])),
    decreases n,
{
    if n > 0 {
        lemma_count_unfixed_zero(g, n - 1);
        lemma_count_unfixed_bounds(g, n - 1);
    }
}

/// Fixed cells appear among the first `n` positions of a list of cell
/// indices without a repeated digit.
pub open spec fn no_duplicate_in(g: Seq<CellValue>, val: Seq<usize>) -> bool {
    forall|k: int, l: int|
        #![trigger val[k], val[l]]
        0 <= k < l < val.len() && is_fixed(g[val[k] as int]) && is_fixed(g[val[l] as int])
            ==> digit_of(g[val[k] as int]) != digit_of(g[val[l] as int])
}

/// No two of the listed cells hold the same fixed digit. The scan keeps a
/// mask of digits already seen and fails on the first repeat.
pub fn check_no_redundant_value(grid: Grid, val: [usize; 8]) -> (r: bool)
    requires
        grid_wf(grid@),
        forall|k: int| 0 <= k < 8 ==> #[trigger] (val[k] as int) < 81,
    ensures
        r == no_duplicate_in(grid@, val@),
{
    let mut checked: [bool; 9] = [false; 9];
    let mut k: usize = 0;
    while k < 8
        invariant
            k <= 8,
            grid_wf(grid@),
            forall|kk: int| 0 <= kk < 8 ==> #[trigger] (val[kk] as int) < 81,
            forall|d: int|
                0 <= d < 9 ==> (#[trigger] checked[d] <==> exists|kk: int|
                    0 <= kk < k && is_fixed(grid@[val[kk] as int]) && digit_of(
                        grid@[val[kk] as int],
                    ) == d),
            forall|a: int, b: int|
                #![trigger val[a], val[b]]
                0 <= a < b < k && is_fixed(grid@[val[a] as int]) && is_fixed(grid@[val[b] as int])
                    ==> digit_of(grid@[val[a] as int]) != digit_of(grid@[val[b] as int]),
        decreases 8 - k,
    {
        let v = val[k];
        if let CellValue::Value(cell_value) = grid[v] {
            if checked[cell_value] {
                proof {
                    let kk = choose|kk: int|
                        0 <= kk < k && is_fixed(grid@[val[kk] as int]) && digit_of(
                            grid@[val[kk] as int],
                        ) == cell_value as int;
                    assert(!no_duplicate_in(grid@, val@));
                }
                return false;
            }
            checked[cell_value] = true;
        }
        k = k + 1;
    }
    true
}

/// No two fixed cells of the row of `i`, the cell `i` itself left aside,
/// hold the same digit.
pub open spec fn peers_in_row_ok(g: Seq<CellValue>, i: int) -> bool {
    forall|j: int, k: int|
        #![trigger g[j], g[k]]
        0 <= j < 81 && 0 <= k < 81 && j != k && j != i && k != i && same_row(i, j) && same_row(i, k)
            && is_fixed(g[j]) && is_fixed(g[k]) ==> digit_of(g[j]) != digit_of(g[k])
}

/// The same for the column of `i`.
pub open spec fn peers_in_col_ok(g: Seq<CellValue>, i: int) -> bool {
    forall|j: int, k: int|
        #![trigger g[j], g[k]]
        0 <= j < 81 && 0 <= k < 81 && j != k && j != i && k != i && same_col(i, j) && same_col(i, k)
            && is_fixed(g[j]) && is_fixed(g[k]) ==> digit_of(g[j]) != digit_of(g[k])
}

/// The same for the 3 x 3 box of `i`.
pub open spec fn peers_in_box_ok(g: Seq<CellValue>, i: int) -> bool {
    forall|j: int, k: int|
        #![trigger g[j], g[k]]
        0 <= j < 81 && 0 <= k < 81 && j != k && j != i && k != i && same_box(i, j) && same_box(i, k)
            && is_fixed(g[j]) && is_fixed(g[k]) ==> digit_of(g[j]) != digit_of(g[k])
}

/// All three peer groups of `i` are free of repeated fixed digits.
pub open spec fn units_ok_at(g: Seq<CellValue>, i: int) -> bool {
    peers_in_row_ok(g, i) && peers_in_col_ok(g, i) && peers_in_box_ok(g, i)
}

/// One peer group of `index`, exposing only what the duplicate scan
/// needs: each member is a peer of the group's kind, none repeats, and
/// every peer of that kind is listed.
fn get_group_cells(index: usize, which: usize) -> (out: [usize; 8])
    requires
        index < 81,
        which < 3,
    ensures
        forall|k: int| 0 <= k < 8 ==> is_peer(index as int, #[trigger] (out[k] as int)),
        forall|k: int, l: int| 0 <= k < l < 8 ==> out[k] != out[l],
        which == 0 ==> (forall|k: int| 0 <= k < 8 ==> same_row(index as int, #[trigger] (out[k] as int)))
            && (forall|j: int|
            0 <= j < 81 && j != index as int && same_row(index as int, j) ==> exists|k: int|
                0 <= k < 8 && out[k] == j),
        which == 1 ==> (forall|k: int| 0 <= k < 8 ==> same_col(index as int, #[trigger] (out[k] as int)))
            && (forall|j: int|
            0 <= j < 81 && j != index as int && same_col(index as int, j) ==> exists|k: int|
                0 <= k < 8 && out[k] == j),
        which == 2 ==> (forall|k: int| 0 <= k < 8 ==> same_box(index as int, #[trigger] (out[k] as int)))
            && (forall|j: int|
            0 <= j < 81 && j != index as int && same_box(index as int, j) ==> exists|k: int|
                0 <= k < 8 && out[k] == j),
{
    crate::peers::get_peer_group(index, which)
}

/// Checks the row peer group of `index` for a repeated fixed digit.
fn check_row_group_at(g: Grid, index: usize) -> (r: bool)
    requires
        grid_wf(g@),
        index < 81,
    ensures
        r == peers_in_row_ok(g@, index as int),
{
    let peers = get_group_cells(index, 0);
    let ok = check_no_redundant_value(g, peers);
    proof {
        lemma_group_check_meaning(g@, index as int, peers@, 0);
    }
    ok
}

/// Checks the column peer group of `index` for a repeated fixed digit.
fn check_col_group_at(g: Grid, index: usize) -> (r: bool)
    requires
        grid_wf(g@),
        index < 81,
    ensures
        r == peers_in_col_ok(g@, index as int),
{
    let peers = get_group_cells(index, 1);
    let ok = check_no_redundant_value(g, peers);
    proof {
        lemma_group_check_meaning(g@, index as int, peers@, 1);
    }
    ok
}

/// Checks the box peer group of `index` for a repeated fixed digit.
fn check_box_group_at(g: Grid, index: usize) -> (r: bool)
    requires
        grid_wf(g@),
        index < 81,
    ensures
        r == peers_in_box_ok(g@, index as int),
{
    let peers = get_group_cells(index, 2);
    let ok = check_no_redundant_value(g, peers);
    proof {
        lemma_group_check_meaning(g@, index as int, peers@, 2);
    }
    ok
}

/// Checks the three peer groups of `index` for a repeated fixed digit.
pub fn check_grid_at(g: Grid, index: usize) -> (r: bool)
    requires
        grid_wf(g@),
        index < 81,
    ensures
        r == units_ok_at(g@, index as int),
{
    let ok0 = check_row_group_at(g, index);
    let ok1 = check_col_group_at(g, index);
    let ok2 = check_box_group_at(g, index);
    ok0 && ok1 && ok2
}

/// A scan of one peer group finds a repeated digit exactly when the
/// corresponding unit of the grid has one.
proof fn lemma_group_check_meaning(g: Seq<CellValue>, i: int, val: Seq<usize>, which: int)
    requires
        g.len() == 81,
        0 <= i < 81,
        0 <= which < 3,
        val.len() == 8,
        forall|k: int| 0 <= k < 8 ==> is_peer(i, #[trigger] (val[k] as int)),
        forall|k: int, l: int| 0 <= k < l < 8 ==> val[k] != val[l],
        which == 0 ==> (forall|k: int| 0 <= k < 8 ==> same_row(i, #[trigger] (val[k] as int)))
            && (forall|j: int|
            0 <= j < 81 && j != i && same_row(i, j) ==> exists|k: int| 0 <= k < 8 && val[k] == j),
        which == 1 ==> (forall|k: int| 0 <= k < 8 ==> same_col(i, #[trigger] (val[k] as int)))
            && (forall|j: int|
            0 <= j < 81 && j != i && same_col(i, j) ==> exists|k: int| 0 <= k < 8 && val[k] == j),
        which == 2 ==> (forall|k: int| 0 <= k < 8 ==> same_box(i, #[trigger] (val[k] as int)))
            && (forall|j: int|
            0 <= j < 81 && j != i && same_box(i, j) ==> exists|k: int| 0 <= k < 8 && val[k] == j),
    ensures
        which == 0 ==> (no_duplicate_in(g, val) <==> peers_in_row_ok(g, i)),
        which == 1 ==> (no_duplicate_in(g, val) <==> peers_in_col_ok(g, i)),
        which == 2 ==> (no_duplicate_in(g, val) <==> peers_in_box_ok(g, i)),
{
    if no_duplicate_in(g, val) {
        assert forall|j: int, k: int|
            0 <= j < 81 && 0 <= k < 81 && j != k && j != i && k != i && (if which == 0 {
                same_row(i, j) && same_row(i, k)
            } else if which == 1 {
                same_col(i, j) && same_col(i, k)
            } else {
                same_box(i, j) && same_box(i, k)
            }) && is_fixed(#[trigger] g[j]) && is_fixed(#[trigger] g[k]) implies digit_of(g[j])
            != digit_of(g[k]) by {
            let a = choose|a: int| 0 <= a < 8 && val[a] == j;
            let b = choose|b: int| 0 <= b < 8 && val[b] == k;
            assert(val[a] == j && val[b] == k);
            assert(a != b);
            if a < b {
                assert(no_duplicate_in(g, val));
                assert(val[a] == j && val[b] == k);
            } else {
                assert(val[b] == k && val[a] == j);
            }
        }
    } else {
        let (k, l) = choose|k: int, l: int|
            0 <= k < l < val.len() && is_fixed(g[val[k] as int]) && is_fixed(g[val[l] as int])
                && digit_of(g[val[k] as int]) == digit_of(g[val[l] as int]);
        assert(is_peer(i, val[k] as int) && is_peer(i, val[l] as int));
        assert(val[k] as int != val[l] as int);
        if which == 0 {
            assert(!peers_in_row_ok(g, i));
        } else if which == 1 {
            assert(!peers_in_col_ok(g, i));
        } else {
            assert(!peers_in_box_ok(g, i));
        }
    }
}

/// If every cell's three units are clean, the whole grid is free of
/// conflicts: any conflicting pair of peers would show up in the units of
/// a third cell of their shared row, column or box.
pub proof fn lemma_units_ok_implies_no_conflicts(g: Seq<CellValue>)
    requires
        g.len() == 81,
        forall|i: int| 0 <= i < 81 ==> #[trigger] units_ok_at(g, i),
    ensures
        no_conflicts(g),
{
    assert forall|i: int, j: int|
        #[trigger] is_peer(i, j) && is_fixed(g[i]) && is_fixed(g[j]) implies digit_of(g[i])
        != digit_of(g[j]) by {
        lemma_cell_decomp(i);
        lemma_cell_decomp(j);
        if digit_of(g[i]) == digit_of(g[j]) {
            if same_row(i, j) {
                let base = 9 * row_of(i);
                lemma_cell_compose(row_of(i), 0);
                lemma_cell_compose(row_of(i), 1);
                lemma_cell_compose(row_of(i), 2);
                let w = if base != i && base != j {
                    base
                } else if base + 1 != i && base + 1 != j {
                    base + 1
                } else {
                    base + 2
                };
                assert(units_ok_at(g, w));
                assert(peers_in_row_ok(g, w));
                assert(same_row(w, i) && same_row(w, j));
                assert(false);
            } else if same_col(i, j) {
                let c = col_of(i);
                lemma_cell_compose(0, c);
                lemma_cell_compose(1, c);
                lemma_cell_compose(2, c);
                let w = if c != i && c != j {
                    c
                } else if c + 9 != i && c + 9 != j {
                    c + 9
                } else {
                    c + 18
                };
                assert(units_ok_at(g, w));
                assert(peers_in_col_ok(g, w));
                assert(same_col(w, i) && same_col(w, j));
                assert(false);
            } else {
                let br = box_row_of(i);
                let bc = box_col_of(i);
                let head = 27 * br + 3 * bc;
                lemma_box_compose(br, bc, 0, 0);
                lemma_box_compose(br, bc, 0, 1);
                lemma_box_compose(br, bc, 1, 0);
                let w = if head != i && head != j {
                    head
                } else if head + 1 != i && head + 1 != j {
                    head + 1
                } else {
                    head + 9
                };
                assert(units_ok_at(g, w));
                assert(peers_in_box_ok(g, w));
                assert(same_box(w, i) && same_box(w, j));
                assert(false);
            }
        }
    }
}

/// A failing unit check at some cell exposes a conflicting pair of peers.
pub proof fn lemma_units_not_ok_conflict(g: Seq<CellValue>, i: int)
    requires
        g.len() == 81,
        0 <= i < 81,
        !units_ok_at(g, i),
    ensures
        !no_conflicts(g),
{
    if !peers_in_row_ok(g, i) {
        let (j, k) = choose|j: int, k: int|
            #![trigger g[j], g[k]]
            0 <= j < 81 && 0 <= k < 81 && j != k && j != i && k != i && same_row(i, j) && same_row(
                i,
                k,
            ) && is_fixed(g[j]) && is_fixed(g[k]) && digit_of(g[j]) == digit_of(g[k]);
        assert(is_peer(j, k));
        assert(!no_conflicts(g));
    } else if !peers_in_col_ok(g, i) {
        let (j, k) = choose|j: int, k: int|
            #![trigger g[j], g[k]]
            0 <= j < 81 && 0 <= k < 81 && j != k && j != i && k != i && same_col(i, j) && same_col(
                i,
                k,
            ) && is_fixed(g[j]) && is_fixed(g[k]) && digit_of(g[j]) == digit_of(g[k]);
        assert(is_peer(j, k));
        assert(!no_conflicts(g));
    } else {
        let (j, k) = choose|j: int, k: int|
            #![trigger g[j], g[k]]
            0 <= j < 81 && 0 <= k < 81 && j != k && j != i && k != i && same_box(i, j) && same_box(
                i,
                k,
            ) && is_fixed(g[j]) && is_fixed(g[k]) && digit_of(g[j]) == digit_of(g[k]);
        assert(is_peer(j, k));
        assert(!no_conflicts(g));
    }
}

/// A grid whose fixed cells already conflict admits no solution.
pub proof fn lemma_conflict_unsolvable(g: Seq<CellValue>)
    requires
        g.len() == 81,
        !no_conflicts(g),
    ensures
        unsolvable(g),
{
    let (i, j) = choose|i: int, j: int|
        #[trigger] is_peer(i, j) && is_fixed(g[i]) && is_fixed(g[j]) && digit_of(g[i]) == digit_of(
            g[j],
        );
    assert forall|s: Seq<CellValue>| !(#[trigger] solution_of(s, g)) by {
        if solution_of(s, g) {
            assert(has_candidate(g[i], digit_of(s[i])));
            assert(has_candidate(g[j], digit_of(s[j])));
            assert(digit_of(s[i]) == digit_of(g[i]) && digit_of(s[j]) == digit_of(g[j]));
            assert(is_fixed(s[i]) && is_fixed(s[j]));
            assert(false);
        }
    }
}

/// The full grid validator: every cell is fixed and no row, column or box
/// holds a digit twice.
pub fn is_grid_complete_full(g: Grid) -> (r: bool)
    requires
        grid_wf(g@),
    ensures
        r == (all_fixed(g@) && no_conflicts(g@)),
        r == solved(g@),
{
    let mut i: usize = 0;
    while i < 81
        invariant
            i <= 81,
            grid_wf(g@),
            forall|ii: int| 0 <= ii < i ==> is_fixed(#[trigger] g@[ii]),
            forall|ii: int| 0 <= ii < i ==> #[trigger] units_ok_at(g@, ii),
        decreases 81 - i,
    {
        if !g[i].is_value() {
            return false;
        }
        if !check_grid_at(g, i) {
            proof {
                lemma_units_not_ok_conflict(g@, i as int);
            }
            return false;
        }
        i = i + 1;
    }
    proof {
        lemma_units_ok_implies_no_conflicts(g@);
    }
    true
}

} // verus!
