use vstd::prelude::*;
use vstd::arithmetic::div_mod::lemma_fundamental_div_mod_converse;

verus! {

/// Row of a cell index; cells are numbered row-major on the 9 x 9 grid.
pub open spec fn row_of(i: int) -> int {
    i / 9
}

/// Column of a cell index.
pub open spec fn col_of(i: int) -> int {
    i % 9
}

/// Vertical position (0, 1 or 2) of the 3 x 3 box that holds the cell.
pub open spec fn box_row_of(i: int) -> int {
    (i / 9) / 3
}

/// Horizontal position (0, 1 or 2) of the 3 x 3 box that holds the cell.
pub open spec fn box_col_of(i: int) -> int {
    (i % 9) / 3
}

pub open spec fn same_row(i: int, j: int) -> bool {
    row_of(i) == row_of(j)
}

pub open spec fn same_col(i: int, j: int) -> bool {
    col_of(i) == col_of(j)
}

pub open spec fn same_box(i: int, j: int) -> bool {
    box_row_of(i) == box_row_of(j) && box_col_of(i) == box_col_of(j)
}

/// Two distinct cells are peers when they share a row, a column or a 3 x 3 box.
pub open spec fn is_peer(i: int, j: int) -> bool {
    0 <= i < 81 && 0 <= j < 81 && i != j && (same_row(i, j) || same_col(i, j) || same_box(
        i,
        j,
    ))
}

/// The peer relation is symmetric, and no cell is a peer of itself.
pub proof fn lemma_peer_symmetry(i: int, j: int)
    ensures
        is_peer(i, j) ==> is_peer(j, i),
        !is_peer(i, i),
{
}

/// A cell index splits into its row and column, each in range.
pub proof fn lemma_cell_decomp(i: int)
    requires
        0 <= i < 81,
    ensures
        i == 9 * row_of(i) + col_of(i),
        0 <= row_of(i) < 9,
        0 <= col_of(i) < 9,
        row_of(i) == 3 * box_row_of(i) + row_of(i) % 3,
        col_of(i) == 3 * box_col_of(i) + col_of(i) % 3,
        0 <= box_row_of(i) < 3,
        0 <= box_col_of(i) < 3,
        0 <= row_of(i) % 3 < 3,
        0 <= col_of(i) % 3 < 3,
{
    assert(i == 9 * (i / 9) + i % 9) by (nonlinear_arith)
        requires 0 <= i < 81;
    assert(0 <= i % 9 < 9) by (nonlinear_arith)
        requires 0 <= i;
    assert(0 <= i / 9 < 9) by (nonlinear_arith)
        requires 0 <= i < 81;
    let r = row_of(i);
    let c = col_of(i);
    assert(r == 3 * (r / 3) + r % 3 && 0 <= r % 3 < 3 && 0 <= r / 3 < 3) by (nonlinear_arith)
        requires 0 <= r < 9;
    assert(c == 3 * (c / 3) + c % 3 && 0 <= c % 3 < 3 && 0 <= c / 3 < 3) by (nonlinear_arith)
        requires 0 <= c < 9;
}

/// Composing a row and a column in range gives back that row and column.
pub proof fn lemma_cell_compose(r: int, c: int)
    requires
        0 <= r < 9,
        0 <= c < 9,
    ensures
        row_of(9 * r + c) == r,
        col_of(9 * r + c) == c,
        0 <= 9 * r + c < 81,
{
    lemma_fundamental_div_mod_converse(9 * r + c, 9, r, c);
}

/// Composing box coordinates with offsets inside the box.
pub proof fn lemma_box_compose(br: int, bc: int, dr: int, dc: int)
    requires
        0 <= br < 3,
        0 <= bc < 3,
        0 <= dr < 3,
        0 <= dc < 3,
    ensures
        row_of(27 * br + 3 * bc + 9 * dr + dc) == 3 * br + dr,
        col_of(27 * br + 3 * bc + 9 * dr + dc) == 3 * bc + dc,
        box_row_of(27 * br + 3 * bc + 9 * dr + dc) == br,
        box_col_of(27 * br + 3 * bc + 9 * dr + dc) == bc,
        0 <= 27 * br + 3 * bc + 9 * dr + dc < 81,
{
    let j = 27 * br + 3 * bc + 9 * dr + dc;
    lemma_fundamental_div_mod_converse(j, 9, 3 * br + dr, 3 * bc + dc);
    lemma_fundamental_div_mod_converse(3 * br + dr, 3, br, dr);
    lemma_fundamental_div_mod_converse(3 * bc + dc, 3, bc, dc);
}

/// First cell of the row that holds `index`.
pub fn get_line(index: usize) -> (r: usize)
    requires
        index < 81,
    ensures
        r == 9 * row_of(index as int),
{
    proof {
        lemma_cell_decomp(index as int);
    }
    (index / 9) * 9
}

/// Column of `index`, which is also the first cell of that column.
pub fn get_column(index: usize) -> (r: usize)
    requires
        index < 81,
    ensures
        r == col_of(index as int),
{
    proof {
        lemma_cell_decomp(index as int);
    }
    index % 9
}

/// First cell (top-left corner) of the 3 x 3 box that holds `index`.
pub fn get_head_of_block(index: usize) -> (r: usize)
    requires
        index < 81,
    ensures
        r == 27 * box_row_of(index as int) + 3 * box_col_of(index as int),
        forall|j: int|
            0 <= j < 81 ==> (same_box(index as int, j) <==> r == 27 * box_row_of(j) + 3
                * box_col_of(j)),
{
    proof {
        lemma_cell_decomp(index as int);
        vstd::arithmetic::div_mod::lemma_div_denominator(index as int, 9, 3);
        assert forall|j: int| 0 <= j < 81 implies (same_box(index as int, j) <==> 27 * box_row_of(
            index as int,
        ) + 3 * box_col_of(index as int) == 27 * box_row_of(j) + 3 * box_col_of(j)) by {
            lemma_cell_decomp(j);
        }
    }
    (index / 27) * 27 + ((index % 9) / 3) * 3
}

/// The `k`-th member of `0..9` (or of `0..3`) once `t` is left out.
pub open spec fn skip_index(k: int, t: int) -> int {
    if k < t {
        k
    } else {
        k + 1
    }
}

/// The `k`-th entry of the 20-cell peer table of cell `i`: first the 8 row
/// peers, then the 8 column peers, then the 4 box peers that share neither
/// the row nor the column.
pub open spec fn adj_cell_at(i: int, k: int) -> int {
    if k < 8 {
        9 * row_of(i) + skip_index(k, col_of(i))
    } else if k < 16 {
        9 * skip_index(k - 8, row_of(i)) + col_of(i)
    } else {
        27 * box_row_of(i) + 3 * box_col_of(i) + 9 * skip_index((k - 16) / 2, row_of(i) % 3)
            + skip_index((k - 16) % 2, col_of(i) % 3)
    }
}

/// Row and column of each entry of the peer table.
proof fn lemma_adj_props(i: int, k: int)
    requires
        0 <= i < 81,
        0 <= k < 20,
    ensures
        0 <= adj_cell_at(i, k) < 81,
        k < 8 ==> row_of(adj_cell_at(i, k)) == row_of(i) && col_of(adj_cell_at(i, k))
            == skip_index(k, col_of(i)) && col_of(adj_cell_at(i, k)) != col_of(i),
        8 <= k < 16 ==> col_of(adj_cell_at(i, k)) == col_of(i) && row_of(adj_cell_at(i, k))
            == skip_index(k - 8, row_of(i)) && row_of(adj_cell_at(i, k)) != row_of(i),
        16 <= k ==> box_row_of(adj_cell_at(i, k)) == box_row_of(i) && box_col_of(adj_cell_at(i, k))
            == box_col_of(i) && row_of(adj_cell_at(i, k)) == 3 * box_row_of(i) + skip_index(
            (k - 16) / 2,
            row_of(i) % 3,
        ) && col_of(adj_cell_at(i, k)) == 3 * box_col_of(i) + skip_index((k - 16) % 2, col_of(i) % 3)
            && row_of(adj_cell_at(i, k)) != row_of(i) && col_of(adj_cell_at(i, k)) != col_of(i),
        is_peer(i, adj_cell_at(i, k)),
{
    lemma_cell_decomp(i);
    if k < 8 {
        lemma_cell_compose(row_of(i), skip_index(k, col_of(i)));
    } else if k < 16 {
        lemma_cell_compose(skip_index(k - 8, row_of(i)), col_of(i));
    } else {
        lemma_box_compose(
            box_row_of(i),
            box_col_of(i),
            skip_index((k - 16) / 2, row_of(i) % 3),
            skip_index((k - 16) % 2, col_of(i) % 3),
        );
    }
}

/// No cell appears twice in the peer table.
proof fn lemma_adj_distinct(i: int, k: int, l: int)
    requires
        0 <= i < 81,
        0 <= k < l < 20,
    ensures
        adj_cell_at(i, k) != adj_cell_at(i, l),
{
    lemma_cell_decomp(i);
    lemma_adj_props(i, k);
    lemma_adj_props(i, l);
}

/// Every peer of `i` appears somewhere in the peer table of `i`.
proof fn lemma_adj_complete(i: int, j: int)
    requires
        is_peer(i, j),
    ensures
        exists|k: int| 0 <= k < 20 && adj_cell_at(i, k) == j,
{
    lemma_cell_decomp(i);
    lemma_cell_decomp(j);
    let row = row_of(i);
    let col = col_of(i);
    if same_row(i, j) {
        let cj = col_of(j);
        let k = if cj < col {
            cj
        } else {
            cj - 1
        };
        assert(adj_cell_at(i, k) == j);
    } else if same_col(i, j) {
        let rj = row_of(j);
        let k = 8 + if rj < row {
            rj
        } else {
            rj - 1
        };
        assert(adj_cell_at(i, k) == j);
    } else {
        let r0 = row % 3;
        let c0 = col % 3;
        let dr = row_of(j) % 3;
        let dc = col_of(j) % 3;
        let a = if dr < r0 {
            dr
        } else {
            dr - 1
        };
        let b = if dc < c0 {
            dc
        } else {
            dc - 1
        };
        let k = 16 + 2 * a + b;
        assert((k - 16) / 2 == a && (k - 16) % 2 == b) by {
            lemma_fundamental_div_mod_converse(2 * a + b, 2, a, b);
        }
        assert(adj_cell_at(i, k) == j);
    }
}

/// The 20 distinct peers of `index`: the union of its row, column and box
/// peers. Every listed cell is a peer, no cell is listed twice, and every
/// peer is listed.
pub fn get_adjacent_cells(index: usize) -> (out: [usize; 20])
    requires
        index < 81,
    ensures
        forall|k: int| 0 <= k < 20 ==> is_peer(index as int, #[trigger] (out[k] as int)),
        forall|k: int, l: int| 0 <= k < l < 20 ==> out[k] != out[l],
        forall|j: int|
            is_peer(index as int, j) ==> exists|k: int| 0 <= k < 20 && out[k] == j,
{
    let ghost gi = index as int;
    proof {
        lemma_cell_decomp(gi);
    }
    let row = index / 9;
    let col = index % 9;
    let br = row / 3;
    let bc = col / 3;
    let r0 = row % 3;
    let c0 = col % 3;
    let base = 27 * br + 3 * bc;
    let mut out: [usize; 20] = [0; 20];
    let mut k: usize = 0;
    while k < 8
        invariant
            0 <= k <= 8,
            forall|kk: int| 0 <= kk < k ==> out[kk] == adj_cell_at(gi, kk),
        decreases 8 - k,
    {
        let c = if k < col {
            k
        } else {
            k + 1
        };
        out[k] = row * 9 + c;
        k = k + 1;
    }
    k = 8;
    while k < 16
        invariant
            8 <= k <= 16,
            forall|kk: int| 0 <= kk < k ==> out[kk] == adj_cell_at(gi, kk),
        decreases 16 - k,
    {
        let r = if k - 8 < row {
            k - 8
        } else {
            k - 7
        };
        out[k] = r * 9 + col;
        k = k + 1;
    }
    let d0 = if r0 > 0 {
        0
    } else {
        1
    };
    let d1 = if r0 > 1 {
        1
    } else {
        2
    };
    let e0 = if c0 > 0 {
        0
    } else {
        1
    };
    let e1 = if c0 > 1 {
        1
    } else {
        2
    };
    out[16] = base + 9 * d0 + e0;
    out[17] = base + 9 * d0 + e1;
    out[18] = base + 9 * d1 + e0;
    out[19] = base + 9 * d1 + e1;
    proof {
        assert forall|kk: int| 0 <= kk < 20 implies out[kk] == adj_cell_at(gi, kk) by {}
        assert forall|kk: int| 0 <= kk < 20 implies is_peer(gi, #[trigger] (out[kk] as int)) by {
            lemma_adj_props(gi, kk);
        }
        assert forall|kk: int, ll: int| 0 <= kk < ll < 20 implies out[kk] != out[ll] by {
            lemma_adj_distinct(gi, kk, ll);
        }
        assert forall|j: int| is_peer(gi, j) implies exists|kk: int|
            0 <= kk < 20 && out[kk] == j by {
            lemma_adj_complete(gi, j);
            let kw = choose|kk: int| 0 <= kk < 20 && adj_cell_at(gi, kk) == j;
            assert(out[kw] == j);
        }
    }
    out
}

/// The `k`-th entry of peer group `g` of cell `i`: group 0 holds the 8 row
/// peers, group 1 the 8 column peers, group 2 the 8 box peers.
pub open spec fn group_cell_at(i: int, g: int, k: int) -> int {
    if g == 0 {
        9 * row_of(i) + skip_index(k, col_of(i))
    } else if g == 1 {
        9 * skip_index(k, row_of(i)) + col_of(i)
    } else {
        let p = skip_index(k, 3 * (row_of(i) % 3) + col_of(i) % 3);
        27 * box_row_of(i) + 3 * box_col_of(i) + 9 * (p / 3) + p % 3
    }
}

/// Each group entry is a peer of `i` of the group's kind.
proof fn lemma_group_props(i: int, g: int, k: int)
    requires
        0 <= i < 81,
        0 <= g < 3,
        0 <= k < 8,
    ensures
        0 <= group_cell_at(i, g, k) < 81,
        group_cell_at(i, g, k) != i,
        g == 0 ==> same_row(i, group_cell_at(i, g, k)) && col_of(group_cell_at(i, g, k))
            == skip_index(k, col_of(i)),
        g == 1 ==> same_col(i, group_cell_at(i, g, k)) && row_of(group_cell_at(i, g, k))
            == skip_index(k, row_of(i)),
        g == 2 ==> same_box(i, group_cell_at(i, g, k)) && 3 * (row_of(group_cell_at(i, g, k)) % 3)
            + col_of(group_cell_at(i, g, k)) % 3 == skip_index(
            k,
            3 * (row_of(i) % 3) + col_of(i) % 3,
        ),
        is_peer(i, group_cell_at(i, g, k)),
{
    lemma_cell_decomp(i);
    if g == 0 {
        lemma_cell_compose(row_of(i), skip_index(k, col_of(i)));
    } else if g == 1 {
        lemma_cell_compose(skip_index(k, row_of(i)), col_of(i));
    } else {
        let p = skip_index(k, 3 * (row_of(i) % 3) + col_of(i) % 3);
        assert(p == 3 * (p / 3) + p % 3 && 0 <= p % 3 < 3 && 0 <= p / 3 < 3) by (nonlinear_arith)
            requires 0 <= p < 9;
        lemma_box_compose(box_row_of(i), box_col_of(i), p / 3, p % 3);
        let e = group_cell_at(i, g, k);
        assert(3 * (row_of(e) % 3) + col_of(e) % 3 == p) by {
            lemma_fundamental_div_mod_converse(3 * box_row_of(i) + p / 3, 3, box_row_of(i), p / 3);
            lemma_fundamental_div_mod_converse(3 * box_col_of(i) + p % 3, 3, box_col_of(i), p % 3);
        }
    }
}

/// No cell appears twice in a peer group.
proof fn lemma_group_distinct(i: int, g: int, k: int, l: int)
    requires
        0 <= i < 81,
        0 <= g < 3,
        0 <= k < l < 8,
    ensures
        group_cell_at(i, g, k) != group_cell_at(i, g, l),
{
    lemma_group_props(i, g, k);
    lemma_group_props(i, g, l);
}

/// Every peer of the group's kind appears in the group.
proof fn lemma_group_complete(i: int, g: int, j: int)
    requires
        0 <= i < 81,
        0 <= j < 81,
        j != i,
        0 <= g < 3,
        g == 0 ==> same_row(i, j),
        g == 1 ==> same_col(i, j),
        g == 2 ==> same_box(i, j),
    ensures
        exists|k: int| 0 <= k < 8 && group_cell_at(i, g, k) == j,
{
    lemma_cell_decomp(i);
    lemma_cell_decomp(j);
    if g == 0 {
        let cj = col_of(j);
        let col = col_of(i);
        let k = if cj < col {
            cj
        } else {
            cj - 1
        };
        assert(group_cell_at(i, g, k) == j);
    } else if g == 1 {
        let rj = row_of(j);
        let row = row_of(i);
        let k = if rj < row {
            rj
        } else {
            rj - 1
        };
        assert(group_cell_at(i, g, k) == j);
    } else {
        let s0 = 3 * (row_of(i) % 3) + col_of(i) % 3;
        let pj = 3 * (row_of(j) % 3) + col_of(j) % 3;
        assert(pj != s0);
        let k = if pj < s0 {
            pj
        } else {
            pj - 1
        };
        assert(skip_index(k, s0) == pj);
        assert(pj / 3 == row_of(j) % 3 && pj % 3 == col_of(j) % 3) by {
            lemma_fundamental_div_mod_converse(pj, 3, row_of(j) % 3, col_of(j) % 3);
        }
        assert(group_cell_at(i, g, k) == j);
    }
}

/// One 8-cell peer group of `index`: its row peers (`which` 0), its column
/// peers (`which` 1) or its box peers (`which` 2). Every listed cell is a
/// peer of that kind, none is listed twice, and every such peer is listed.
pub fn get_peer_group(index: usize, which: usize) -> (out: [usize; 8])
    requires
        index < 81,
        which < 3,
    ensures
        forall|k: int| 0 <= k < 8 ==> #[trigger] (out[k] as int) == group_cell_at(
            index as int,
            which as int,
            k,
        ),
        forall|k: int| 0 <= k < 8 ==> is_peer(index as int, #[trigger] (out[k] as int)),
        forall|k: int, l: int| 0 <= k < l < 8 ==> out[k] != out[l],
        which == 0 ==> forall|j: int|
            0 <= j < 81 && j != index as int && same_row(index as int, j) ==> exists|k: int|
                0 <= k < 8 && out[k] == j,
        which == 1 ==> forall|j: int|
            0 <= j < 81 && j != index as int && same_col(index as int, j) ==> exists|k: int|
                0 <= k < 8 && out[k] == j,
        which == 2 ==> forall|j: int|
            0 <= j < 81 && j != index as int && same_box(index as int, j) ==> exists|k: int|
                0 <= k < 8 && out[k] == j,
{
    let ghost gi = index as int;
    proof {
        lemma_cell_decomp(gi);
    }
    let row = index / 9;
    let col = index % 9;
    let mut out: [usize; 8] = [0; 8];
    let mut k: usize = 0;
    if which == 0 {
        while k < 8
            invariant
                k <= 8,
                forall|kk: int| 0 <= kk < k ==> out[kk] == group_cell_at(gi, 0, kk),
            decreases 8 - k,
        {
            let c = if k < col {
                k
            } else {
                k + 1
            };
            out[k] = row * 9 + c;
            k = k + 1;
        }
    } else if which == 1 {
        while k < 8
            invariant
                k <= 8,
                forall|kk: int| 0 <= kk < k ==> out[kk] == group_cell_at(gi, 1, kk),
            decreases 8 - k,
        {
            let r = if k < row {
                k
            } else {
                k + 1
            };
            out[k] = r * 9 + col;
            k = k + 1;
        }
    } else {
        let base = 27 * (row / 3) + 3 * (col / 3);
        let s0 = 3 * (row % 3) + col % 3;
        while k < 8
            invariant
                k <= 8,
                base == 27 * box_row_of(gi) + 3 * box_col_of(gi),
                s0 == 3 * (row_of(gi) % 3) + col_of(gi) % 3,
                forall|kk: int| 0 <= kk < k ==> out[kk] == group_cell_at(gi, 2, kk),
            decreases 8 - k,
        {
            let p = if k < s0 {
                k
            } else {
                k + 1
            };
            out[k] = base + (p / 3) * 9 + p % 3;
            k = k + 1;
        }
    }
    proof {
        let gw = which as int;
        assert forall|kk: int| 0 <= kk < 8 implies #[trigger] (out[kk] as int) == group_cell_at(
            gi,
            gw,
            kk,
        ) by {}
        assert forall|kk: int| 0 <= kk < 8 implies is_peer(gi, #[trigger] (out[kk] as int)) by {
            lemma_group_props(gi, gw, kk);
        }
        assert forall|kk: int, ll: int| 0 <= kk < ll < 8 implies out[kk] != out[ll] by {
            lemma_group_distinct(gi, gw, kk, ll);
        }
        assert forall|j: int|
            0 <= j < 81 && j != gi && (gw == 0 ==> same_row(gi, j)) && (gw == 1 ==> same_col(gi, j))
                && (gw == 2 ==> same_box(gi, j)) && (gw == 0 || gw == 1 || gw == 2) implies exists|
            k2: int,
        | 0 <= k2 < 8 && out[k2] == j by {
            lemma_group_complete(gi, gw, j);
            let kw = choose|k2: int| 0 <= k2 < 8 && group_cell_at(gi, gw, k2) == j;
            assert(out[kw] == j);
        }
    }
    out
}

} // verus!
