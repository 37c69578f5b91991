use vstd::prelude::*;
use crate::cell::{
    CellValue, count_candidates, digit_of, get_last_value_possible, has_candidate, is_fixed,
    lemma_count_two, lemma_count_two_exists, lemma_count_zero,
};
use crate::grid::{
    Grid, all_fixed, cands_cover, count_unfixed, fixed_preserved, free_digit, grid_wf,
    lemma_count_unfixed_bounds, lemma_count_unfixed_pointwise, lemma_count_unfixed_update,
    lemma_masks_narrowed_trans, mask_exact_at, masks_narrowed, no_new_conflicts, settled_at,
    solution_of, unsolvable,
};
use crate::peers::{get_adjacent_cells, is_peer};

verus! {

/// The digit a solution puts in any cell is ruled out by no fixed peer.
pub proof fn lemma_solution_free(s: Seq<CellValue>, g: Seq<CellValue>, i: int)
    requires
        solution_of(s, g),
        0 <= i < 81,
    ensures
        0 <= digit_of(s[i]) < 9,
        free_digit(g, i, digit_of(s[i])),
        has_candidate(g[i], digit_of(s[i])),
{
    assert(is_fixed(s[i]) && crate::cell::cell_wf(s[i]));
    assert forall|j: int| #[trigger] is_peer(i, j) implies !(is_fixed(g[j]) && digit_of(g[j])
        == digit_of(s[i])) by {
        if is_fixed(g[j]) {
            assert(has_candidate(g[j], digit_of(s[j])));
            assert(digit_of(s[j]) == digit_of(g[j]));
            assert(digit_of(s[i]) != digit_of(s[j]));
        }
    }
}

/// Fixing a cell to the digit the solution already uses there keeps the
/// solution.
pub proof fn lemma_update_fix_keeps(s: Seq<CellValue>, g: Seq<CellValue>, i: int, d: usize)
    requires
        solution_of(s, g),
        0 <= i < 81,
        digit_of(s[i]) == d as int,
    ensures
        solution_of(s, g.update(i, CellValue::Value(d))),
{
    let gu = g.update(i, CellValue::Value(d));
    assert forall|k: int| 0 <= k < 81 implies #[trigger] has_candidate(gu[k], digit_of(s[k])) by {
        if k != i {
            assert(gu[k] == g[k]);
            assert(has_candidate(g[k], digit_of(s[k])));
        }
    }
}

/// A solution of the grid with a cell fixed to a digit that the cell still
/// allowed is a solution of the grid itself.
pub proof fn lemma_update_fix_back(s: Seq<CellValue>, g: Seq<CellValue>, i: int, d: usize)
    requires
        solution_of(s, g.update(i, CellValue::Value(d))),
        g.len() == 81,
        0 <= i < 81,
        has_candidate(g[i], d as int),
    ensures
        solution_of(s, g),
{
    let gu = g.update(i, CellValue::Value(d));
    assert forall|k: int| 0 <= k < 81 implies #[trigger] has_candidate(g[k], digit_of(s[k])) by {
        if k == i {
            assert(has_candidate(gu[i], digit_of(s[i])));
            assert(digit_of(s[i]) == d as int);
        } else {
            assert(has_candidate(gu[k], digit_of(s[k])) && gu[k] == g[k]);
        }
    }
}

/// Replacing a cell's mask keeps a solution whose digit the new mask still
/// allows.
pub proof fn lemma_mask_update_keeps(s: Seq<CellValue>, g: Seq<CellValue>, i: int, p2: [bool; 9])
    requires
        solution_of(s, g),
        0 <= i < 81,
        p2[digit_of(s[i])],
    ensures
        solution_of(s, g.update(i, CellValue::Possibilities(p2))),
{
    let gu = g.update(i, CellValue::Possibilities(p2));
    lemma_solution_free(s, g, i);
    assert forall|k: int| 0 <= k < 81 implies #[trigger] has_candidate(gu[k], digit_of(s[k])) by {
        if k != i {
            assert(gu[k] == g[k]);
            assert(has_candidate(g[k], digit_of(s[k])));
        }
    }
}

/// A solution of the grid with a cell's mask replaced by one the cell
/// already covered is a solution of the grid itself.
pub proof fn lemma_mask_update_back(s: Seq<CellValue>, g: Seq<CellValue>, i: int, p2: [bool; 9])
    requires
        solution_of(s, g.update(i, CellValue::Possibilities(p2))),
        g.len() == 81,
        0 <= i < 81,
        forall|e: int| 0 <= e < 9 && p2[e] ==> has_candidate(g[i], e),
    ensures
        solution_of(s, g),
{
    let gu = g.update(i, CellValue::Possibilities(p2));
    assert forall|k: int| 0 <= k < 81 implies #[trigger] has_candidate(g[k], digit_of(s[k])) by {
        if k == i {
            assert(has_candidate(gu[i], digit_of(s[i])));
        } else {
            assert(has_candidate(gu[k], digit_of(s[k])) && gu[k] == g[k]);
        }
    }
}

/// A cell with every digit ruled out by a fixed peer admits no solution.
pub proof fn lemma_no_free_unsolvable(g: Seq<CellValue>, i: int)
    requires
        g.len() == 81,
        0 <= i < 81,
        forall|d: int| 0 <= d < 9 ==> !(#[trigger] free_digit(g, i, d)),
    ensures
        unsolvable(g),
{
    assert forall|s: Seq<CellValue>| !(#[trigger] solution_of(s, g)) by {
        if solution_of(s, g) {
            lemma_solution_free(s, g, i);
        }
    }
}

/// Fixing an undetermined cell keeps the masks conservative.
pub proof fn lemma_cover_fix(g: Seq<CellValue>, i: int, d: usize)
    requires
        cands_cover(g),
        g.len() == 81,
        0 <= i < 81,
        !is_fixed(g[i]),
    ensures
        cands_cover(g.update(i, CellValue::Value(d))),
{
    let gu = g.update(i, CellValue::Value(d));
    assert forall|j: int, e: int|
        0 <= j < 81 && 0 <= e < 9 && !is_fixed(gu[j]) && #[trigger] free_digit(gu, j, e)
            implies has_candidate(gu[j], e) by {
        assert(j != i);
        assert forall|p: int| #[trigger] is_peer(j, p) implies !(is_fixed(g[p]) && digit_of(g[p])
            == e) by {
            if is_fixed(g[p]) {
                assert(p != i);
                assert(gu[p] == g[p]);
            }
        }
        assert(free_digit(g, j, e));
        assert(has_candidate(g[j], e));
        assert(gu[j] == g[j]);
    }
}

/// Two steps that never place a digit next to a fixed copy of itself
/// compose, as long as the middle step keeps the fixed cells of the first.
pub proof fn lemma_nnc_trans(a: Seq<CellValue>, b: Seq<CellValue>, c: Seq<CellValue>)
    requires
        no_new_conflicts(a, b),
        no_new_conflicts(b, c),
        fixed_preserved(b, c),
    ensures
        no_new_conflicts(a, c),
{
    assert forall|i: int, j: int|
        #[trigger] is_peer(i, j) && is_fixed(c[i]) && is_fixed(c[j]) && digit_of(c[i]) == digit_of(
            c[j],
        ) implies is_fixed(a[i]) && is_fixed(a[j]) by {
        assert(is_fixed(b[i]) && is_fixed(b[j]));
        assert(c[i] == b[i] && c[j] == b[j]);
    }
}

/// The mask of digits no fixed peer of `index` rules out.
pub fn get_cell_value(grid: Grid, index: usize) -> (r: CellValue)
    requires
        grid_wf(grid@),
        index < 81,
    ensures
        !is_fixed(r),
        forall|d: int|
            0 <= d < 9 ==> ((r->Possibilities_0)[d] <==> #[trigger] free_digit(
                grid@,
                index as int,
                d,
            )),
{
    let ghost gi = index as int;
    let adjs = get_adjacent_cells(index);
    let mut possible_values: [bool; 9] = [true; 9];
    let mut k: usize = 0;
    while k < 20
        invariant
            k <= 20,
            grid_wf(grid@),
            index < 81,
            forall|kk: int| 0 <= kk < 20 ==> is_peer(gi, #[trigger] (adjs[kk] as int)),
            forall|j: int| is_peer(gi, j) ==> exists|kk: int| 0 <= kk < 20 && adjs[kk] == j,
            forall|d: int|
                0 <= d < 9 ==> (#[trigger] possible_values[d] <==> (forall|kk: int|
                    0 <= kk < k ==> !(is_fixed(grid@[#[trigger] (adjs[kk] as int)]) && digit_of(
                        grid@[adjs[kk] as int],
                    ) == d))),
        decreases 20 - k,
    {
        let a = adjs[k];
        if let CellValue::Value(num) = grid[a] {
            possible_values[num] = false;
        }
        k = k + 1;
    }
    proof {
        assert forall|d: int| 0 <= d < 9 implies (possible_values[d] <==> #[trigger] free_digit(
            grid@,
            gi,
            d,
        )) by {
            if possible_values[d] {
                assert forall|j: int| #[trigger] is_peer(gi, j) implies !(is_fixed(grid@[j])
                    && digit_of(grid@[j]) == d) by {
                    let kk = choose|kk: int| 0 <= kk < 20 && adjs[kk] == j;
                    assert(!(is_fixed(grid@[adjs[kk] as int]) && digit_of(grid@[adjs[kk] as int])
                        == d));
                }
            } else {
                let kk = choose|kk: int|
                    0 <= kk < 20 && is_fixed(grid@[#[trigger] (adjs[kk] as int)]) && digit_of(
                        grid@[adjs[kk] as int],
                    ) == d;
                assert(is_peer(gi, adjs[kk] as int));
                assert(!free_digit(grid@, gi, d));
            }
        }
    }
    CellValue::Possibilities(possible_values)
}

/// The mask of an undetermined cell holds exactly the digits no fixed
/// peer rules out, except possibly the one digit `cv`: the state of a
/// peer in the middle of a removal sweep.
spec fn mask_exact_except(g: Seq<CellValue>, k: int, cv: int) -> bool {
    !is_fixed(g[k]) ==> forall|d: int|
        0 <= d < 9 && d != cv ==> (has_candidate(g[k], d) <==> #[trigger] free_digit(g, k, d))
}

/// Which digits a cell's fixed peers leave open depends only on the fixed
/// cells, so two grids with the same fixed cells agree on it.
proof fn lemma_free_same_fixed(ga: Seq<CellValue>, gb: Seq<CellValue>, c: int, d: int)
    requires
        ga.len() == 81,
        gb.len() == 81,
        forall|p: int| 0 <= p < 81 && is_fixed(#[trigger] ga[p]) ==> gb[p] == ga[p],
        forall|p: int| 0 <= p < 81 && is_fixed(#[trigger] gb[p]) ==> is_fixed(ga[p]),
    ensures
        free_digit(ga, c, d) == free_digit(gb, c, d),
{
    if free_digit(ga, c, d) {
        assert forall|j: int| #[trigger] is_peer(c, j) implies !(is_fixed(gb[j]) && digit_of(
            gb[j],
        ) == d) by {
            if is_fixed(gb[j]) {
                assert(is_fixed(ga[j]) && gb[j] == ga[j]);
            }
        }
    }
    if free_digit(gb, c, d) {
        assert forall|j: int| #[trigger] is_peer(c, j) implies !(is_fixed(ga[j]) && digit_of(
            ga[j],
        ) == d) by {
            if is_fixed(ga[j]) {
                assert(gb[j] == ga[j]);
            }
        }
    }
}

/// Fixing one undetermined cell shrinks each cell's open digits by
/// exactly that digit, and only for the peers of the fixed cell.
proof fn lemma_free_after_fix(g: Seq<CellValue>, i: int, cv: usize, c: int, d: int)
    requires
        g.len() == 81,
        0 <= i < 81,
        0 <= c < 81,
        !is_fixed(g[i]),
    ensures
        free_digit(g.update(i, CellValue::Value(cv)), c, d) <==> (free_digit(g, c, d) && !(is_peer(
            c,
            i,
        ) && d == cv as int)),
{
    let gn = g.update(i, CellValue::Value(cv));
    if free_digit(g, c, d) && !(is_peer(c, i) && d == cv as int) {
        assert forall|j: int| #[trigger] is_peer(c, j) implies !(is_fixed(gn[j]) && digit_of(
            gn[j],
        ) == d) by {
            if j != i {
                assert(gn[j] == g[j]);
            }
        }
    }
    if free_digit(gn, c, d) {
        assert forall|j: int| #[trigger] is_peer(c, j) implies !(is_fixed(g[j]) && digit_of(g[j])
            == d) by {
            if is_fixed(g[j]) {
                assert(j != i);
                assert(gn[j] == g[j]);
            }
        }
        if is_peer(c, i) && d == cv as int {
            assert(is_fixed(gn[i]) && digit_of(gn[i]) == d);
            assert(false);
        }
    }
}

/// One step of the removal sweep: taking the just-fixed digit out of a
/// peer's mask changes no solution, no fixed cell, and keeps the masks
/// conservative.
proof fn lemma_removal_step(
    gu: Seq<CellValue>,
    go: Seq<CellValue>,
    gn: Seq<CellValue>,
    index: int,
    a: int,
    cv: usize,
    p: [bool; 9],
    p2: [bool; 9],
)
    requires
        gu.len() == 81,
        go.len() == 81,
        0 <= index < 81,
        0 <= a < 81,
        is_peer(index, a),
        is_fixed(gu[index]) && digit_of(gu[index]) == cv as int,
        cv < 9,
        forall|i: int| 0 <= i < 81 && is_fixed(#[trigger] gu[i]) ==> go[i] == gu[i],
        forall|i: int| 0 <= i < 81 && is_fixed(#[trigger] go[i]) ==> is_fixed(gu[i]),
        go[a] == CellValue::Possibilities(p),
        forall|e: int| 0 <= e < 9 ==> #[trigger] p2[e] == (p[e] && e != cv as int),
        gn == go.update(a, CellValue::Possibilities(p2)),
    ensures
        forall|i: int| 0 <= i < 81 && is_fixed(#[trigger] gu[i]) ==> gn[i] == gu[i],
        forall|i: int| 0 <= i < 81 && is_fixed(#[trigger] gn[i]) ==> is_fixed(gu[i]),
        forall|s: Seq<CellValue>| #[trigger] solution_of(s, go) ==> solution_of(s, gn),
        forall|s: Seq<CellValue>| #[trigger] solution_of(s, gn) ==> solution_of(s, go),
        cands_cover(go) ==> cands_cover(gn),
        forall|c: int, d: int|
            0 <= c < 81 ==> #[trigger] free_digit(gn, c, d) == free_digit(go, c, d),
{
    assert(!is_fixed(go[a]));
    assert forall|c: int, d: int| 0 <= c < 81 implies #[trigger] free_digit(gn, c, d)
        == free_digit(go, c, d) by {
        lemma_free_same_fixed(go, gn, c, d);
    }
    assert(a != index);
    assert(go[index] == gu[index]);
    assert(is_peer(a, index));
    assert forall|s: Seq<CellValue>| #[trigger] solution_of(s, go) implies solution_of(s, gn) by {
        lemma_solution_free(s, go, a);
        assert(digit_of(s[a]) != cv as int);
        assert(has_candidate(go[a], digit_of(s[a])));
        assert(p2[digit_of(s[a])]);
        lemma_mask_update_keeps(s, go, a, p2);
    }
    assert forall|s: Seq<CellValue>| #[trigger] solution_of(s, gn) implies solution_of(s, go) by {
        assert forall|e: int| 0 <= e < 9 && p2[e] implies has_candidate(go[a], e) by {}
        lemma_mask_update_back(s, go, a, p2);
    }
    if cands_cover(go) {
        assert forall|j: int, e: int|
            0 <= j < 81 && 0 <= e < 9 && !is_fixed(gn[j]) && #[trigger] free_digit(gn, j, e)
                implies has_candidate(gn[j], e) by {
            assert forall|q: int| #[trigger] is_peer(j, q) implies !(is_fixed(go[q]) && digit_of(
                go[q],
            ) == e) by {
                if is_fixed(go[q]) {
                    assert(q != a);
                    assert(gn[q] == go[q]);
                }
            }
            assert(free_digit(go, j, e));
            if j != a {
                assert(gn[j] == go[j]);
                assert(has_candidate(go[j], e));
            } else {
                assert(!is_fixed(go[a]));
                assert(has_candidate(go[a], e));
                assert(p[e]);
                assert(is_peer(a, index) && is_fixed(go[index]) && digit_of(go[index])
                    == cv as int);
                assert(e != cv as int);
                assert(p2[e]);
            }
        }
    }
}

/// Fixes `index` to `cell_value`, removes that digit from the masks of the
/// 20 peers, and cascades over them. Returns false when a contradiction
/// appears; the first component of the result reports that, the second is
/// the new grid.
fn set_cell_rec(g: Grid, index: usize, cell_value: usize) -> (res: (bool, Grid))
    requires
        grid_wf(g@),
        index < 81,
        cell_value < 9,
        !is_fixed(g@[index as int]),
    ensures
        grid_wf(res.1@),
        fixed_preserved(g@, res.1@),
        masks_narrowed(g@, res.1@),
        res.0 ==> fixed_preserved(
            g@.update(index as int, CellValue::Value(cell_value)),
            res.1@,
        ),
        res.0 ==> count_unfixed(res.1@) < count_unfixed(g@),
        res.0 ==> (forall|s: Seq<CellValue>|
            #[trigger] solution_of(s, g@.update(index as int, CellValue::Value(cell_value)))
                ==> solution_of(s, res.1@)),
        res.0 && cands_cover(g@) ==> cands_cover(res.1@) && (forall|s: Seq<CellValue>|
            #[trigger] solution_of(s, res.1@) ==> solution_of(
                s,
                g@.update(index as int, CellValue::Value(cell_value)),
            )),
        res.0 ==> no_new_conflicts(g@, res.1@),
        res.0 ==> (forall|c: int|
            0 <= c < 81 && #[trigger] mask_exact_at(g@, c) ==> mask_exact_at(res.1@, c)),
        res.0 ==> (forall|c: int|
            0 <= c < 81 && #[trigger] settled_at(g@, c) ==> settled_at(res.1@, c)),
        res.0 ==> (forall|j: int| #[trigger] is_peer(index as int, j) ==> settled_at(res.1@, j)),
        res.0 ==> (forall|j: int|
            #[trigger] is_peer(index as int, j) && !is_fixed(res.1@[j]) ==> !has_candidate(
                res.1@[j],
                cell_value as int,
            )),
        !res.0 ==> unsolvable(g@.update(index as int, CellValue::Value(cell_value))),
    decreases count_unfixed(g@), 0int,
{
    let ghost g0 = g@;
    let ghost gi = index as int;
    let ghost gu = g@.update(gi, CellValue::Value(cell_value));
    let adjs = get_adjacent_cells(index);
    let mut k: usize = 0;
    while k < 20
        invariant
            k <= 20,
            grid_wf(g@),
            index < 81,
            cell_value < 9,
            forall|kk: int| 0 <= kk < 20 ==> is_peer(gi, #[trigger] (adjs[kk] as int)),
            forall|j: int| is_peer(gi, j) ==> exists|kk: int| 0 <= kk < 20 && adjs[kk] == j,
            forall|kk: int|
                0 <= kk < k ==> !(is_fixed(g@[#[trigger] (adjs[kk] as int)]) && digit_of(
                    g@[adjs[kk] as int],
                ) == cell_value as int),
        decreases 20 - k,
    {
        let a = adjs[k];
        if let CellValue::Value(v) = g[a] {
            if v == cell_value {
                proof {
                    let ga = a as int;
                    assert forall|s: Seq<CellValue>| !(#[trigger] solution_of(s, gu)) by {
                        if solution_of(s, gu) {
                            assert(is_peer(gi, ga));
                            assert(ga != gi);
                            assert(gu[ga] == g0[ga]);
                            assert(has_candidate(gu[ga], digit_of(s[ga])));
                            assert(digit_of(s[ga]) == cell_value as int);
                            assert(has_candidate(gu[gi], digit_of(s[gi])));
                            assert(digit_of(s[gi]) == cell_value as int);
                            assert(is_fixed(s[ga]) && is_fixed(s[gi]));
                            assert(false);
                        }
                    }
                }
                return (false, g);
            }
        }
        k = k + 1;
    }
    proof {
        assert forall|j: int| #[trigger] is_peer(gi, j) implies !(is_fixed(g0[j]) && digit_of(
            g0[j],
        ) == cell_value as int) by {
            let kk = choose|kk: int| 0 <= kk < 20 && adjs[kk] == j;
            assert(!(is_fixed(g0[adjs[kk] as int]) && digit_of(g0[adjs[kk] as int])
                == cell_value as int));
        }
        assert(free_digit(g0, gi, cell_value as int));
        lemma_count_unfixed_update(g0, gi, CellValue::Value(cell_value), 81);
        assert forall|c: int|
            0 <= c < 81 && !is_peer(gi, c) && #[trigger] mask_exact_at(g0, c) implies mask_exact_at(
            gu,
            c,
        ) by {
            if !is_fixed(gu[c]) {
                assert(c != gi);
                assert(gu[c] == g0[c]);
                assert forall|d: int| 0 <= d < 9 implies (has_candidate(gu[c], d)
                    <==> #[trigger] free_digit(gu, c, d)) by {
                    lemma_free_after_fix(g0, gi, cell_value, c, d);
                    assert(!is_peer(c, gi));
                }
            }
        }
        assert forall|kk: int|
            0 <= kk < 20 && mask_exact_at(g0, #[trigger] (adjs[kk] as int)) implies
            mask_exact_except(gu, adjs[kk] as int, cell_value as int) by {
            let c = adjs[kk] as int;
            if !is_fixed(gu[c]) {
                assert(c != gi);
                assert(gu[c] == g0[c]);
                assert forall|d: int| 0 <= d < 9 && d != cell_value as int implies (has_candidate(
                    gu[c],
                    d,
                ) <==> #[trigger] free_digit(gu, c, d)) by {
                    lemma_free_after_fix(g0, gi, cell_value, c, d);
                }
            }
        }
    }
    let mut g2 = g;
    g2[index] = CellValue::Value(cell_value);
    proof {
        assert(g2@ == gu);
    }
    k = 0;
    while k < 20
        invariant
            k <= 20,
            grid_wf(g2@),
            index < 81,
            cell_value < 9,
            gu == g0.update(gi, CellValue::Value(cell_value)),
            gu.len() == 81,
            is_fixed(gu[gi]) && digit_of(gu[gi]) == cell_value as int,
            forall|kk: int| 0 <= kk < 20 ==> is_peer(gi, #[trigger] (adjs[kk] as int)),
            forall|i: int| 0 <= i < 81 && is_fixed(#[trigger] gu[i]) ==> g2@[i] == gu[i],
            forall|i: int| 0 <= i < 81 && is_fixed(#[trigger] g2@[i]) ==> is_fixed(gu[i]),
            forall|s: Seq<CellValue>|
                #[trigger] solution_of(s, gu) ==> solution_of(s, g2@),
            forall|s: Seq<CellValue>|
                #[trigger] solution_of(s, g2@) ==> solution_of(s, gu),
            cands_cover(gu) ==> cands_cover(g2@),
            forall|c: int|
                0 <= c < 81 && !is_peer(gi, c) && #[trigger] mask_exact_at(g0, c)
                    ==> mask_exact_at(g2@, c),
            forall|kk: int|
                0 <= kk < k && mask_exact_at(g0, #[trigger] (adjs[kk] as int)) ==> mask_exact_at(
                    g2@,
                    adjs[kk] as int,
                ),
            forall|kk: int|
                k <= kk < 20 && mask_exact_at(g0, #[trigger] (adjs[kk] as int))
                    ==> mask_exact_except(g2@, adjs[kk] as int, cell_value as int),
            masks_narrowed(gu, g2@),
            forall|kk: int|
                0 <= kk < k && !is_fixed(g2@[#[trigger] (adjs[kk] as int)]) ==> !has_candidate(
                    g2@[adjs[kk] as int],
                    cell_value as int,
                ),
        decreases 20 - k,
    {
        let a = adjs[k];
        let ghost ga = a as int;
        if let CellValue::Possibilities(p) = g2[a] {
            if p[cell_value] {
                let ghost go = g2@;
                let mut p2 = p;
                p2[cell_value] = false;
                g2[a] = CellValue::Possibilities(p2);
                proof {
                    lemma_removal_step(gu, go, g2@, gi, ga, cell_value, p, p2);
                    assert forall|i2: int, d: int|
                        0 <= i2 < 81 && 0 <= d < 9 && !is_fixed(g2@[i2]) && #[trigger]
                        has_candidate(g2@[i2], d) implies has_candidate(gu[i2], d) by {
                        if i2 == ga {
                            assert(p2[d] && p[d]);
                            assert(has_candidate(go[ga], d));
                        } else {
                            assert(g2@[i2] == go[i2]);
                        }
                    }
                    assert forall|c: int|
                        0 <= c < 81 && c != ga && !is_fixed(go[c]) && mask_exact_at(
                            go,
                            c,
                        ) implies mask_exact_at(g2@, c) by {
                        assert(g2@[c] == go[c]);
                    }
                    if mask_exact_at(g0, ga) {
                        assert(mask_exact_except(go, ga, cell_value as int));
                        assert forall|d: int| 0 <= d < 9 implies (has_candidate(g2@[ga], d)
                            <==> #[trigger] free_digit(g2@, ga, d)) by {
                            assert(free_digit(g2@, ga, d) == free_digit(go, ga, d));
                            if d == cell_value as int {
                                assert(is_peer(ga, gi));
                                assert(g2@[gi] == gu[gi]);
                                assert(!free_digit(g2@, ga, d));
                                assert(!p2[d]);
                            } else {
                                assert(p2[d] == p[d]);
                                assert(has_candidate(go[ga], d) <==> free_digit(go, ga, d));
                            }
                        }
                        assert(mask_exact_at(g2@, ga));
                    }
                }
            } else {
                proof {
                    if mask_exact_at(g0, ga) {
                        assert(mask_exact_except(g2@, ga, cell_value as int));
                        assert forall|d: int| 0 <= d < 9 implies (has_candidate(g2@[ga], d)
                            <==> #[trigger] free_digit(g2@, ga, d)) by {
                            if d == cell_value as int {
                                assert(is_peer(ga, gi));
                                assert(g2@[gi] == gu[gi]);
                                assert(!free_digit(g2@, ga, d));
                                assert(!has_candidate(g2@[ga], d));
                            }
                        }
                        assert(mask_exact_at(g2@, ga));
                    }
                }
            }
        }
        k = k + 1;
    }
    proof {
        assert(count_unfixed(g2@) <= count_unfixed(gu) && count_unfixed(gu) <= count_unfixed(
            g2@,
        )) by {
            lemma_count_unfixed_pointwise(g2@, gu, 81);
            lemma_count_unfixed_pointwise(gu, g2@, 81);
        }
        lemma_count_unfixed_bounds(g2@, 81);
        assert forall|c: int|
            0 <= c < 81 && #[trigger] mask_exact_at(g0, c) implies mask_exact_at(g2@, c) by {
            if is_peer(gi, c) {
                let kk = choose|kk: int| 0 <= kk < 20 && adjs[kk] == c;
                assert(mask_exact_at(g2@, adjs[kk] as int));
            }
        }
        // after the sweep no undetermined peer still allows the digit
        assert forall|j: int|
            #[trigger] is_peer(gi, j) && !is_fixed(g2@[j]) implies !has_candidate(
            g2@[j],
            cell_value as int,
        ) by {
            let kk = choose|kk: int| 0 <= kk < 20 && adjs[kk] == j;
            assert(!has_candidate(g2@[adjs[kk] as int], cell_value as int));
        }
        // the whole step only narrows masks and keeps fixed cells
        assert forall|i2: int, d: int|
            0 <= i2 < 81 && 0 <= d < 9 && !is_fixed(g2@[i2]) && #[trigger] has_candidate(
                g2@[i2],
                d,
            ) implies has_candidate(g0[i2], d) by {
            assert(has_candidate(gu[i2], d));
            assert(i2 != gi);
            assert(gu[i2] == g0[i2]);
        }
        assert(masks_narrowed(g0, g2@));
        assert forall|i2: int|
            0 <= i2 < 81 && is_fixed(#[trigger] g0[i2]) implies g2@[i2] == g0[i2] by {
            assert(i2 != gi);
            assert(gu[i2] == g0[i2]);
            assert(is_fixed(gu[i2]));
        }
    }
    let res = fill_rec(g2, adjs, 0);
    let ok = res.0;
    let g3 = res.1;
    if !ok {
        proof {
            assert forall|s: Seq<CellValue>| !(#[trigger] solution_of(s, gu)) by {
                if solution_of(s, gu) {
                    assert(solution_of(s, g2@));
                }
            }
            assert forall|i2: int|
                0 <= i2 < 81 && is_fixed(#[trigger] g0[i2]) implies g3@[i2] == g0[i2] by {
                assert(g2@[i2] == g0[i2]);
                assert(is_fixed(g2@[i2]));
            }
            lemma_masks_narrowed_trans(g0, g2@, g3@);
        }
        return (false, g3);
    }
    proof {
        // fixed cells of `gu` survive into `g3`
        assert forall|i: int| 0 <= i < 81 && is_fixed(#[trigger] gu[i]) implies g3@[i] == gu[i] by {
            assert(g2@[i] == gu[i]);
            assert(is_fixed(g2@[i]));
        }
        // no new conflicts against the starting grid
        assert forall|i: int, j: int|
            #[trigger] is_peer(i, j) && is_fixed(g3@[i]) && is_fixed(g3@[j]) && digit_of(g3@[i])
                == digit_of(g3@[j]) implies is_fixed(g0[i]) && is_fixed(g0[j]) by {
            assert(is_fixed(g2@[i]) && is_fixed(g2@[j]));
            assert(g3@[i] == g2@[i] && g3@[j] == g2@[j]);
            assert(is_fixed(gu[i]) && is_fixed(gu[j]));
            assert(g2@[i] == gu[i] && g2@[j] == gu[j]);
            if i == gi || j == gi {
                let other = if i == gi {
                    j
                } else {
                    i
                };
                assert(is_peer(gi, other));
                assert(other != gi);
                assert(gu[other] == g0[other]);
                assert(is_fixed(g0[other]) && digit_of(g0[other]) == cell_value as int);
                assert(false);
            } else {
                assert(gu[i] == g0[i] && gu[j] == g0[j]);
            }
        }
        // solutions chain through the removal sweep and the cascade
        assert forall|s: Seq<CellValue>| #[trigger] solution_of(s, gu) implies solution_of(
            s,
            g3@,
        ) by {
            assert(solution_of(s, g2@));
        }
        if cands_cover(g0) {
            lemma_cover_fix(g0, gi, cell_value);
            assert(cands_cover(gu));
            assert(cands_cover(g2@));
            assert forall|s: Seq<CellValue>| #[trigger] solution_of(s, g3@) implies solution_of(
                s,
                gu,
            ) by {
                assert(solution_of(s, g2@));
            }
        }
        assert forall|c: int|
            0 <= c < 81 && #[trigger] mask_exact_at(g0, c) implies mask_exact_at(g3@, c) by {
            assert(mask_exact_at(g2@, c));
        }
        assert forall|i2: int|
            0 <= i2 < 81 && is_fixed(#[trigger] g0[i2]) implies g3@[i2] == g0[i2] by {
            assert(g2@[i2] == g0[i2]);
            assert(is_fixed(g2@[i2]));
        }
        lemma_masks_narrowed_trans(g0, g2@, g3@);
        // every peer ends settled by the cascade, and none still allows
        // the digit just placed
        assert forall|j: int| #[trigger] is_peer(gi, j) implies settled_at(g3@, j) by {
            let kk = choose|kk: int| 0 <= kk < 20 && adjs[kk] == j;
            assert(settled_at(g3@, adjs[kk] as int));
        }
        assert forall|j: int|
            #[trigger] is_peer(gi, j) && !is_fixed(g3@[j]) implies !has_candidate(
            g3@[j],
            cell_value as int,
        ) by {
            assert(!is_fixed(g2@[j]));
            assert(!has_candidate(g2@[j], cell_value as int));
        }
        // cells settled before stay settled
        assert forall|c: int|
            0 <= c < 81 && #[trigger] settled_at(g0, c) implies settled_at(g3@, c) by {
            if c == gi {
                assert(is_fixed(g2@[c]));
            } else if is_fixed(g0[c]) {
                assert(g2@[c] == g0[c]);
            } else if is_peer(gi, c) {
                assert(settled_at(g3@, c));
            } else {
                let (d1, d2) = choose|d1: int, d2: int|
                    #![trigger free_digit(g0, c, d1), free_digit(g0, c, d2)]
                    0 <= d1 < d2 < 9 && free_digit(g0, c, d1) && free_digit(g0, c, d2);
                lemma_free_after_fix(g0, gi, cell_value, c, d1);
                lemma_free_after_fix(g0, gi, cell_value, c, d2);
                assert(!is_peer(c, gi));
                assert(free_digit(gu, c, d1) && free_digit(gu, c, d2));
                lemma_free_same_fixed(gu, g2@, c, d1);
                lemma_free_same_fixed(gu, g2@, c, d2);
                assert(free_digit(g2@, c, d1) && free_digit(g2@, c, d2));
                assert(settled_at(g2@, c));
            }
        }
    }
    (true, g3)
}

/// Walks the 20 listed cells; any whose remaining candidates collapse to
/// none makes the branch dead, any that collapse to one digit is fixed at
/// once, cascading further.
fn fill_rec(g: Grid, values: [usize; 20], pos: usize) -> (res: (bool, Grid))
    requires
        grid_wf(g@),
        pos <= 20,
        forall|k: int| 0 <= k < 20 ==> #[trigger] (values[k] as int) < 81,
    ensures
        grid_wf(res.1@),
        fixed_preserved(g@, res.1@),
        masks_narrowed(g@, res.1@),
        res.0 ==> count_unfixed(res.1@) <= count_unfixed(g@),
        res.0 ==> (forall|s: Seq<CellValue>|
            #[trigger] solution_of(s, g@) ==> solution_of(s, res.1@)),
        res.0 && cands_cover(g@) ==> cands_cover(res.1@) && (forall|s: Seq<CellValue>|
            #[trigger] solution_of(s, res.1@) ==> solution_of(s, g@)),
        res.0 ==> no_new_conflicts(g@, res.1@),
        res.0 ==> (forall|c: int|
            0 <= c < 81 && #[trigger] mask_exact_at(g@, c) ==> mask_exact_at(res.1@, c)),
        res.0 ==> (forall|c: int|
            0 <= c < 81 && #[trigger] settled_at(g@, c) ==> settled_at(res.1@, c)),
        res.0 ==> (forall|k: int|
            pos <= k < 20 ==> settled_at(res.1@, #[trigger] (values[k] as int))),
        !res.0 ==> unsolvable(g@),
    decreases count_unfixed(g@), 21 - pos,
{
    proof {
        lemma_count_unfixed_bounds(g@, 81);
    }
    if pos == 20 {
        return (true, g);
    }
    let a = values[pos];
    let ghost ga = a as int;
    if g[a].is_value() {
        let r2 = fill_rec(g, values, pos + 1);
        proof {
            if r2.0 {
                assert(is_fixed(r2.1@[ga]));
                assert(settled_at(r2.1@, ga));
            }
        }
        return r2;
    }
    let cv = get_cell_value(g, a);
    let n = cv.get_nb_possibility();
    let ghost pf = cv->Possibilities_0;
    if n == 0 {
        proof {
            lemma_count_zero(pf@, 9);
            assert forall|d: int| 0 <= d < 9 implies !(#[trigger] free_digit(g@, ga, d)) by {
                assert(!pf@[d]);
                assert(!pf[d]);
            }
            lemma_no_free_unsolvable(g@, ga);
        }
        return (false, g);
    }
    if n == 1 {
        let p = match cv {
            CellValue::Possibilities(p) => p,
            CellValue::Value(_) => {
                proof {
                    assert(false);
                }
                return (false, g);
            },
        };
        let d = get_last_value_possible(p);
        proof {
            assert(count_candidates(p@) == 1);
            assert(exists|e: int| 0 <= e < 9 && p[e]) by {
                lemma_count_zero(p@, 9);
            }
            assert(d < 9 && p[d as int]);
            assert forall|e: int| 0 <= e < 9 && p[e] implies e == d as int by {
                if e != d as int {
                    if e < d as int {
                        lemma_count_two(p@, 9, e, d as int);
                    } else {
                        lemma_count_two(p@, 9, d as int, e);
                    }
                }
            }
        }
        let ghost gud = g@.update(ga, CellValue::Value(d));
        let sres = set_cell_rec(g, a, d);
        let ok = sres.0;
        let g2 = sres.1;
        proof {
            // every solution of `g` puts `d` in cell `a`
            assert forall|s: Seq<CellValue>| #[trigger] solution_of(s, g@) implies solution_of(
                s,
                gud,
            ) by {
                lemma_solution_free(s, g@, ga);
                assert(p[digit_of(s[ga])]);
                assert(digit_of(s[ga]) == d as int);
                lemma_update_fix_keeps(s, g@, ga, d);
            }
        }
        if !ok {
            proof {
                assert forall|s: Seq<CellValue>| !(#[trigger] solution_of(s, g@)) by {
                    if solution_of(s, g@) {
                        assert(solution_of(s, gud));
                    }
                }
            }
            return (false, g2);
        }
        proof {
            lemma_count_unfixed_bounds(g2@, 81);
            if cands_cover(g@) {
                assert(free_digit(g@, ga, d as int));
                assert(has_candidate(g@[ga], d as int));
                assert forall|s: Seq<CellValue>| #[trigger] solution_of(s, g2@) implies solution_of(
                    s,
                    g@,
                ) by {
                    assert(solution_of(s, gud));
                    lemma_update_fix_back(s, g@, ga, d);
                }
            }
        }
        let rres = fill_rec(g2, values, pos + 1);
        let ok2 = rres.0;
        let g3 = rres.1;
        if !ok2 {
            proof {
                assert forall|s: Seq<CellValue>| !(#[trigger] solution_of(s, g@)) by {
                    if solution_of(s, g@) {
                        assert(solution_of(s, gud));
                        assert(solution_of(s, g2@));
                    }
                }
                lemma_masks_narrowed_trans(g@, g2@, g3@);
            }
            return (false, g3);
        }
        proof {
            // fixed cells, counts and conflicts chain across the two steps
            assert forall|i: int| 0 <= i < 81 && is_fixed(#[trigger] g@[i]) implies g3@[i]
                == g@[i] by {
                assert(gud[i] == g@[i]);
                assert(g2@[i] == gud[i]);
                assert(is_fixed(g2@[i]));
            }
            assert(fixed_preserved(gud, g2@));
            lemma_nnc_trans(g@, g2@, g3@);
            assert forall|s: Seq<CellValue>| #[trigger] solution_of(s, g@) implies solution_of(
                s,
                g3@,
            ) by {
                assert(solution_of(s, gud));
                assert(solution_of(s, g2@));
            }
            if cands_cover(g@) {
                assert(cands_cover(g2@));
                assert forall|s: Seq<CellValue>| #[trigger] solution_of(s, g3@) implies solution_of(
                    s,
                    g@,
                ) by {
                    assert(solution_of(s, g2@));
                }
            }
            assert forall|c: int|
                0 <= c < 81 && #[trigger] mask_exact_at(g@, c) implies mask_exact_at(g3@, c) by {
                assert(mask_exact_at(g2@, c));
            }
            assert forall|c: int|
                0 <= c < 81 && #[trigger] settled_at(g@, c) implies settled_at(g3@, c) by {
                assert(settled_at(g2@, c));
            }
            assert(gud[ga] == CellValue::Value(d));
            assert(g2@[ga] == gud[ga]);
            assert(is_fixed(g2@[ga]));
            assert(settled_at(g3@, ga));
            lemma_masks_narrowed_trans(g@, g2@, g3@);
        }
        return (true, g3);
    }
    proof {
        let pf2 = cv->Possibilities_0;
        assert(count_candidates(pf2@) >= 2);
        lemma_count_two_exists(pf2@, 9);
        let (d1, d2) = choose|d1: int, d2: int|
            #![trigger pf2@[d1], pf2@[d2]]
            0 <= d1 < d2 < 9 && pf2@[d1] && pf2@[d2];
        assert(pf2[d1] && pf2[d2]);
        assert(free_digit(g@, ga, d1) && free_digit(g@, ga, d2));
        assert(settled_at(g@, ga));
    }
    let r3 = fill_rec(g, values, pos + 1);
    proof {
        if r3.0 {
            assert(settled_at(r3.1@, ga));
        }
    }
    r3
}

/// Fixes `index` to `cell_value`, removes that digit from the masks of all
/// 20 peers, and cascades: any peer left with a single candidate is fixed
/// in turn. False means a contradiction was found and the branch is dead.
pub fn set_cell_value_at(grid: &mut Grid, index: usize, cell_value: usize) -> (r: bool)
    requires
        grid_wf(old(grid)@),
        index < 81,
        cell_value < 9,
        !is_fixed(old(grid)@[index as int]),
    ensures
        grid_wf(final(grid)@),
        fixed_preserved(old(grid)@, final(grid)@),
        masks_narrowed(old(grid)@, final(grid)@),
        r ==> fixed_preserved(
            old(grid)@.update(index as int, CellValue::Value(cell_value)),
            final(grid)@,
        ),
        r ==> count_unfixed(final(grid)@) < count_unfixed(old(grid)@),
        r ==> (forall|s: Seq<CellValue>|
            #[trigger] solution_of(
                s,
                old(grid)@.update(index as int, CellValue::Value(cell_value)),
            ) ==> solution_of(s, final(grid)@)),
        r && cands_cover(old(grid)@) ==> cands_cover(final(grid)@) && (forall|s: Seq<CellValue>|
            #[trigger] solution_of(s, final(grid)@) ==> solution_of(
                s,
                old(grid)@.update(index as int, CellValue::Value(cell_value)),
            )),
        r ==> no_new_conflicts(old(grid)@, final(grid)@),
        r ==> (forall|c: int|
            0 <= c < 81 && #[trigger] mask_exact_at(old(grid)@, c) ==> mask_exact_at(
                final(grid)@,
                c,
            )),
        r ==> (forall|c: int|
            0 <= c < 81 && #[trigger] settled_at(old(grid)@, c) ==> settled_at(final(grid)@, c)),
        r ==> (forall|j: int|
            #[trigger] is_peer(index as int, j) ==> settled_at(final(grid)@, j)),
        r ==> (forall|j: int|
            #[trigger] is_peer(index as int, j) && !is_fixed(final(grid)@[j]) ==> !has_candidate(
                final(grid)@[j],
                cell_value as int,
            )),
        !r ==> unsolvable(old(grid)@.update(index as int, CellValue::Value(cell_value))),
{
    let res = set_cell_rec(*grid, index, cell_value);
    *grid = res.1;
    res.0
}

/// Scans the listed cells for ones whose candidates collapse to none (dead
/// branch) or to a single digit (fixed at once, cascading further).
pub fn fill_one_possibility_cells(grid: &mut Grid, values: [usize; 20]) -> (r: bool)
    requires
        grid_wf(old(grid)@),
        forall|k: int| 0 <= k < 20 ==> #[trigger] (values[k] as int) < 81,
    ensures
        grid_wf(final(grid)@),
        fixed_preserved(old(grid)@, final(grid)@),
        masks_narrowed(old(grid)@, final(grid)@),
        r ==> count_unfixed(final(grid)@) <= count_unfixed(old(grid)@),
        r ==> (forall|s: Seq<CellValue>|
            #[trigger] solution_of(s, old(grid)@) ==> solution_of(s, final(grid)@)),
        r && cands_cover(old(grid)@) ==> cands_cover(final(grid)@) && (forall|s: Seq<CellValue>|
            #[trigger] solution_of(s, final(grid)@) ==> solution_of(s, old(grid)@)),
        r ==> no_new_conflicts(old(grid)@, final(grid)@),
        r ==> (forall|c: int|
            0 <= c < 81 && #[trigger] mask_exact_at(old(grid)@, c) ==> mask_exact_at(
                final(grid)@,
                c,
            )),
        r ==> (forall|c: int|
            0 <= c < 81 && #[trigger] settled_at(old(grid)@, c) ==> settled_at(final(grid)@, c)),
        r ==> (forall|k: int|
            0 <= k < 20 ==> settled_at(final(grid)@, #[trigger] (values[k] as int))),
        !r ==> unsolvable(old(grid)@),
{
    let res = fill_rec(*grid, values, 0);
    *grid = res.1;
    res.0
}

/// Replacing an undetermined cell's mask by the digits its fixed peers
/// leave open changes no solution, no fixed cell, and keeps the masks
/// conservative.
proof fn lemma_refresh_step(go: Seq<CellValue>, gn: Seq<CellValue>, i: int, pf: [bool; 9])
    requires
        go.len() == 81,
        0 <= i < 81,
        !is_fixed(go[i]),
        forall|d: int| 0 <= d < 9 ==> (pf[d] <==> #[trigger] free_digit(go, i, d)),
        gn == go.update(i, CellValue::Possibilities(pf)),
    ensures
        forall|i2: int| 0 <= i2 < 81 && is_fixed(#[trigger] go[i2]) ==> gn[i2] == go[i2],
        forall|i2: int| 0 <= i2 < 81 && is_fixed(#[trigger] gn[i2]) ==> is_fixed(go[i2]),
        forall|s: Seq<CellValue>| #[trigger] solution_of(s, go) ==> solution_of(s, gn),
        cands_cover(go) ==> cands_cover(gn) && (forall|s: Seq<CellValue>|
            #[trigger] solution_of(s, gn) ==> solution_of(s, go)),
{
    assert forall|s: Seq<CellValue>| #[trigger] solution_of(s, go) implies solution_of(s, gn) by {
        lemma_solution_free(s, go, i);
        assert(pf[digit_of(s[i])]);
        lemma_mask_update_keeps(s, go, i, pf);
    }
    if cands_cover(go) {
        assert forall|s: Seq<CellValue>| #[trigger] solution_of(s, gn) implies solution_of(
            s,
            go,
        ) by {
            assert forall|e: int| 0 <= e < 9 && pf[e] implies has_candidate(go[i], e) by {
                assert(free_digit(go, i, e));
            }
            lemma_mask_update_back(s, go, i, pf);
        }
        assert forall|j: int, e: int|
            0 <= j < 81 && 0 <= e < 9 && !is_fixed(gn[j]) && #[trigger] free_digit(gn, j, e)
                implies has_candidate(gn[j], e) by {
            assert forall|q: int| #[trigger] is_peer(j, q) implies !(is_fixed(go[q]) && digit_of(
                go[q],
            ) == e) by {
                if is_fixed(go[q]) {
                    assert(q != i);
                    assert(gn[q] == go[q]);
                }
            }
            assert(free_digit(go, j, e));
            if j != i {
                assert(gn[j] == go[j]);
                assert(has_candidate(go[j], e));
            } else {
                assert(pf[e]);
            }
        }
    }
}

/// Propagation soundness: when a sweep (or a cascade) fixes a previously
/// undetermined cell to a digit, no peer of that cell holds the same
/// digit as a fixed value in the resulting grid. The premise
/// `no_new_conflicts` is exactly what `build_possible_values_grid` and
/// `set_cell_value_at` ensure of their result.
pub proof fn lemma_propagation_soundness(
    g0: Seq<CellValue>,
    g: Seq<CellValue>,
    i: int,
    j: int,
)
    requires
        no_new_conflicts(g0, g),
        0 <= i < 81,
        !is_fixed(g0[i]),
        is_fixed(g[i]),
        is_peer(i, j),
        is_fixed(g[j]),
    ensures
        digit_of(g[i]) != digit_of(g[j]),
{
}

/// One propagation sweep: derives for every undetermined cell the digits
/// its fixed peers leave open, fixes any cell left with a single
/// candidate at once (cascading over that cell's peers), and fails as
/// soon as some cell is left with no candidate at all.
pub fn build_possible_values_grid(grid: &mut Grid) -> (r: bool)
    requires
        grid_wf(old(grid)@),
    ensures
        grid_wf(final(grid)@),
        fixed_preserved(old(grid)@, final(grid)@),
        r ==> count_unfixed(final(grid)@) <= count_unfixed(old(grid)@),
        r ==> (forall|s: Seq<CellValue>|
            #[trigger] solution_of(s, old(grid)@) ==> solution_of(s, final(grid)@)),
        r && cands_cover(old(grid)@) ==> cands_cover(final(grid)@) && (forall|s: Seq<CellValue>|
            #[trigger] solution_of(s, final(grid)@) ==> solution_of(s, old(grid)@)),
        r ==> no_new_conflicts(old(grid)@, final(grid)@),
        r ==> (forall|k: int| 0 <= k < 81 ==> #[trigger] mask_exact_at(final(grid)@, k)),
        r ==> (forall|k: int| 0 <= k < 81 ==> #[trigger] settled_at(final(grid)@, k)),
        !r ==> unsolvable(old(grid)@),
        all_fixed(old(grid)@) ==> r && final(grid)@ == old(grid)@,
{
    let ghost g0 = old(grid)@;
    let mut index: usize = 0;
    while index < 81
        invariant
            index <= 81,
            grid_wf(grid@),
            forall|k: int| 0 <= k < index ==> #[trigger] mask_exact_at(grid@, k),
            forall|k: int| 0 <= k < index ==> #[trigger] settled_at(grid@, k),
            fixed_preserved(g0, grid@),
            forall|s: Seq<CellValue>| #[trigger] solution_of(s, g0) ==> solution_of(s, grid@),
            cands_cover(g0) ==> cands_cover(grid@) && (forall|s: Seq<CellValue>|
                #[trigger] solution_of(s, grid@) ==> solution_of(s, g0)),
            no_new_conflicts(g0, grid@),
            all_fixed(g0) ==> grid@ == g0,
        decreases 81 - index,
    {
        if !grid[index].is_value() {
            let possible_value = get_cell_value(*grid, index);
            let n = possible_value.get_nb_possibility();
            let ghost gc = grid@;
            if n == 0 {
                proof {
                    let pf = possible_value->Possibilities_0;
                    lemma_count_zero(pf@, 9);
                    assert forall|d: int| 0 <= d < 9 implies !(#[trigger] free_digit(
                        gc,
                        index as int,
                        d,
                    )) by {
                        assert(!pf[d]);
                    }
                    lemma_no_free_unsolvable(gc, index as int);
                    assert forall|s: Seq<CellValue>| !(#[trigger] solution_of(s, g0)) by {
                        if solution_of(s, g0) {
                            assert(solution_of(s, gc));
                        }
                    }
                }
                return false;
            } else if n == 1 {
                let p = match possible_value {
                    CellValue::Possibilities(p) => p,
                    CellValue::Value(_) => {
                        proof {
                            assert(false);
                        }
                        return false;
                    },
                };
                let d = get_last_value_possible(p);
                proof {
                    assert(count_candidates(p@) == 1);
                    assert(exists|e: int| 0 <= e < 9 && p[e]) by {
                        lemma_count_zero(p@, 9);
                    }
                    assert(d < 9 && p[d as int]);
                    assert forall|e: int| 0 <= e < 9 && p[e] implies e == d as int by {
                        if e != d as int {
                            if e < d as int {
                                lemma_count_two(p@, 9, e, d as int);
                            } else {
                                lemma_count_two(p@, 9, d as int, e);
                            }
                        }
                    }
                }
                let ghost gud = gc.update(index as int, CellValue::Value(d));
                proof {
                    assert forall|s: Seq<CellValue>| #[trigger] solution_of(
                        s,
                        gc,
                    ) implies solution_of(s, gud) by {
                        lemma_solution_free(s, gc, index as int);
                        assert(p[digit_of(s[index as int])]);
                        assert(digit_of(s[index as int]) == d as int);
                        lemma_update_fix_keeps(s, gc, index as int, d);
                    }
                }
                let ok = set_cell_value_at(grid, index, d);
                if !ok {
                    proof {
                        assert forall|s: Seq<CellValue>| !(#[trigger] solution_of(s, g0)) by {
                            if solution_of(s, g0) {
                                assert(solution_of(s, gc));
                                assert(solution_of(s, gud));
                            }
                        }
                    }
                    return false;
                }
                proof {
                    assert forall|i2: int|
                        0 <= i2 < 81 && is_fixed(#[trigger] g0[i2]) implies grid@[i2] == g0[i2] by {
                        assert(gc[i2] == g0[i2]);
                        assert(gud[i2] == gc[i2]);
                        assert(grid@[i2] == gud[i2]);
                    }
                    assert(fixed_preserved(gud, grid@));
                    assert forall|i2: int|
                        0 <= i2 < 81 && is_fixed(#[trigger] gc[i2]) implies grid@[i2] == gc[i2] by {
                        assert(gud[i2] == gc[i2]);
                    }
                    assert(fixed_preserved(gc, grid@));
                    lemma_nnc_trans(g0, gc, grid@);
                    assert forall|s: Seq<CellValue>| #[trigger] solution_of(
                        s,
                        g0,
                    ) implies solution_of(s, grid@) by {
                        assert(solution_of(s, gc));
                        assert(solution_of(s, gud));
                    }
                    if cands_cover(g0) {
                        assert(cands_cover(gc));
                        assert(free_digit(gc, index as int, d as int));
                        assert(has_candidate(gc[index as int], d as int));
                        assert forall|s: Seq<CellValue>| #[trigger] solution_of(
                            s,
                            grid@,
                        ) implies solution_of(s, g0) by {
                            assert(solution_of(s, gud));
                            lemma_update_fix_back(s, gc, index as int, d);
                            assert(solution_of(s, gc));
                        }
                    }
                    assert forall|k: int| 0 <= k < index + 1 implies #[trigger] mask_exact_at(
                        grid@,
                        k,
                    ) by {
                        if k < index {
                            assert(mask_exact_at(gc, k));
                        } else {
                            assert(grid@[k] == gud[k]);
                            assert(is_fixed(grid@[k]));
                        }
                    }
                    assert forall|k: int| 0 <= k < index + 1 implies #[trigger] settled_at(
                        grid@,
                        k,
                    ) by {
                        if k < index {
                            assert(settled_at(gc, k));
                        } else {
                            assert(grid@[k] == gud[k]);
                            assert(is_fixed(grid@[k]));
                        }
                    }
                }
            } else {
                let ghost go = grid@;
                grid[index] = possible_value;
                proof {
                    let pf = possible_value->Possibilities_0;
                    assert(grid@ == go.update(index as int, CellValue::Possibilities(pf)));
                    lemma_refresh_step(go, grid@, index as int, pf);
                    assert forall|i2: int|
                        0 <= i2 < 81 && is_fixed(#[trigger] g0[i2]) implies grid@[i2] == g0[i2] by {
                        assert(go[i2] == g0[i2]);
                        assert(is_fixed(go[i2]));
                    }
                    assert forall|s: Seq<CellValue>| #[trigger] solution_of(
                        s,
                        g0,
                    ) implies solution_of(s, grid@) by {
                        assert(solution_of(s, go));
                    }
                    assert forall|i: int, j: int|
                        #[trigger] is_peer(i, j) && is_fixed(grid@[i]) && is_fixed(grid@[j])
                            && digit_of(grid@[i]) == digit_of(grid@[j]) implies is_fixed(g0[i])
                        && is_fixed(g0[j]) by {
                        assert(is_fixed(go[i]) && is_fixed(go[j]));
                        assert(grid@[i] == go[i] && grid@[j] == go[j]);
                    }
                    if cands_cover(g0) {
                        assert(cands_cover(go));
                        assert forall|s: Seq<CellValue>| #[trigger] solution_of(
                            s,
                            grid@,
                        ) implies solution_of(s, g0) by {
                            assert(solution_of(s, go));
                        }
                    }
                    assert forall|k: int, e: int| 0 <= k < 81 && 0 <= e < 9 implies #[trigger]
                        free_digit(grid@, k, e) == free_digit(go, k, e) by {
                        lemma_free_same_fixed(go, grid@, k, e);
                    }
                    assert forall|k: int| 0 <= k < index + 1 implies #[trigger] mask_exact_at(
                        grid@,
                        k,
                    ) by {
                        if k < index {
                            assert(mask_exact_at(go, k));
                            assert(grid@[k] == go[k]);
                        } else {
                            assert(!is_fixed(grid@[k]));
                            assert forall|e: int| 0 <= e < 9 implies (has_candidate(grid@[k], e)
                                <==> #[trigger] free_digit(grid@, k, e)) by {
                                assert(pf[e] <==> free_digit(go, k, e));
                            }
                        }
                    }
                    assert forall|k: int| 0 <= k < index + 1 implies #[trigger] settled_at(
                        grid@,
                        k,
                    ) by {
                        if k < index {
                            if !is_fixed(grid@[k]) {
                                assert(grid@[k] == go[k]);
                                assert(settled_at(go, k));
                                let (d1, d2) = choose|d1: int, d2: int|
                                    #![trigger free_digit(go, k, d1), free_digit(go, k, d2)]
                                    0 <= d1 < d2 < 9 && free_digit(go, k, d1) && free_digit(
                                        go,
                                        k,
                                        d2,
                                    );
                                assert(free_digit(grid@, k, d1) && free_digit(grid@, k, d2));
                            }
                        } else {
                            lemma_count_two_exists(pf@, 9);
                            let (d1, d2) = choose|d1: int, d2: int|
                                #![trigger pf@[d1], pf@[d2]]
                                0 <= d1 < d2 < 9 && pf@[d1] && pf@[d2];
                            assert(pf[d1] && pf[d2]);
                            assert(free_digit(go, k, d1) && free_digit(go, k, d2));
                            assert(free_digit(grid@, k, d1) && free_digit(grid@, k, d2));
                        }
                    }
                }
            }
        }
        index = index + 1;
    }
    proof {
        if all_fixed(g0) {
            assert(grid@ == g0);
        }
        lemma_count_unfixed_pointwise(g0, grid@, 81);
    }
    true
}

} // verus!
