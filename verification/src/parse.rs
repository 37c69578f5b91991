use vstd::prelude::*;
use vstd::string::StringSliceAdditionalSpecFns;
use crate::cell::{CellValue, has_candidate, is_fixed};
use crate::grid::{Grid, cands_cover, free_digit, grid_wf};
use crate::propagate::get_cell_value;

verus! {

/// Bytes that only separate tokens: ASCII whitespace.
pub open spec fn is_space_byte(c: u8) -> bool {
    c == 32 || c == 9 || c == 10 || c == 11 || c == 12 || c == 13
}

/// A token standing for a blank cell: `_` or `.`.
pub open spec fn is_blank_byte(c: u8) -> bool {
    c == 95 || c == 46
}

/// A token standing for a fixed cell: a digit `1` to `9`.
pub open spec fn is_digit_byte(c: u8) -> bool {
    49 <= c <= 57
}

/// A byte that stands for one cell of the grid.
pub open spec fn is_token_byte(c: u8) -> bool {
    is_blank_byte(c) || is_digit_byte(c)
}

/// The cell tokens among the first `n` bytes, in order.
pub open spec fn tokens_of(bs: Seq<u8>, n: int) -> Seq<u8>
    decreases n,
{
    if n <= 0 {
        Seq::empty()
    } else {
        let rest = tokens_of(bs, n - 1);
        if is_token_byte(bs[n - 1]) {
            rest.push(bs[n - 1])
        } else {
            rest
        }
    }
}

/// All cell tokens of the text.
pub open spec fn grid_tokens(bs: Seq<u8>) -> Seq<u8> {
    tokens_of(bs, bs.len() as int)
}

/// A text the parser accepts: every byte is a cell token or whitespace,
/// and there are exactly 81 cell tokens.
pub open spec fn well_formed_grid_string(bs: Seq<u8>) -> bool {
    (forall|i: int|
        0 <= i < bs.len() ==> is_token_byte(#[trigger] bs[i]) || is_space_byte(bs[i]))
        && grid_tokens(bs).len() == 81
}

/// There are at most as many tokens as bytes, and each is a token byte.
proof fn lemma_tokens_shape(bs: Seq<u8>, n: int)
    ensures
        tokens_of(bs, n).len() <= if n >= 0 {
            n
        } else {
            0
        },
        forall|k: int|
            0 <= k < tokens_of(bs, n).len() ==> is_token_byte(#[trigger] tokens_of(bs, n)[k]),
    decreases n,
{
    if n > 0 {
        lemma_tokens_shape(bs, n - 1);
    }
}

/// An earlier token scan is a prefix of a later one.
proof fn lemma_tokens_prefix(bs: Seq<u8>, n: int, m: int)
    requires
        n <= m,
    ensures
        tokens_of(bs, n).len() <= tokens_of(bs, m).len(),
        forall|k: int| 0 <= k < tokens_of(bs, n).len() ==> tokens_of(bs, m)[k] == tokens_of(bs, n)[k],
    decreases m - n,
{
    if n < m {
        lemma_tokens_prefix(bs, n, m - 1);
    }
}

/// Whether the text is one the parser accepts: 81 cell tokens (digits,
/// `_` or `.`) separated only by whitespace.
pub fn grid_string_well_formed(grid_string: &str) -> (r: bool)
    ensures
        r == well_formed_grid_string(grid_string.spec_bytes()),
{
    let b = grid_string.as_bytes();
    let ghost bs = grid_string.spec_bytes();
    let mut cnt: usize = 0;
    let mut i: usize = 0;
    while i < b.len()
        invariant
            i <= b.len(),
            b@ == bs,
            cnt == tokens_of(bs, i as int).len(),
            cnt <= i,
            forall|k: int| 0 <= k < i ==> is_token_byte(#[trigger] bs[k]) || is_space_byte(bs[k]),
        decreases b.len() - i,
    {
        let c = b[i];
        proof {
            lemma_tokens_shape(bs, i as int + 1);
        }
        if (49 <= c && c <= 57) || c == 95 || c == 46 {
            cnt = cnt + 1;
        } else if c == 32 || c == 9 || c == 10 || c == 11 || c == 12 || c == 13 {
        } else {
            proof {
                assert(!is_token_byte(bs[i as int]) && !is_space_byte(bs[i as int]));
            }
            return false;
        }
        i = i + 1;
    }
    cnt == 81
}

/// Reads 81 cell tokens into a grid: a digit gives a fixed cell, `_` or
/// `.` a blank one with all nine digits still possible; whitespace only
/// separates. The grid it returns is well formed and its masks are
/// conservative, as the solver's entry point expects.
pub fn parse_grid(grid_string: &str) -> (g: Grid)
    requires
        well_formed_grid_string(grid_string.spec_bytes()),
    ensures
        grid_wf(g@),
        cands_cover(g@),
        forall|k: int|
            0 <= k < 81 && is_digit_byte(#[trigger] grid_tokens(grid_string.spec_bytes())[k])
                ==> g@[k] == CellValue::Value(
                (grid_tokens(grid_string.spec_bytes())[k] - 49) as usize,
            ),
        forall|k: int|
            0 <= k < 81 && is_blank_byte(#[trigger] grid_tokens(grid_string.spec_bytes())[k])
                ==> !is_fixed(g@[k]) && forall|d: int| 0 <= d < 9 ==> has_candidate(g@[k], d),
{
    let b = grid_string.as_bytes();
    let ghost bs = grid_string.spec_bytes();
    let mut grid: Grid = [CellValue::Possibilities([true; 9]); 81];
    let mut idx: usize = 0;
    let mut i: usize = 0;
    proof {
        lemma_tokens_prefix(bs, 0, bs.len() as int);
    }
    while i < b.len()
        invariant
            i <= b.len(),
            b@ == bs,
            well_formed_grid_string(bs),
            idx == tokens_of(bs, i as int).len(),
            idx <= 81,
            forall|k: int|
                0 <= k < idx && is_digit_byte(#[trigger] grid_tokens(bs)[k]) ==> grid@[k]
                    == CellValue::Value((grid_tokens(bs)[k] - 49) as usize),
            forall|k: int|
                0 <= k < idx && is_blank_byte(#[trigger] grid_tokens(bs)[k]) ==> !is_fixed(grid@[k])
                    && (forall|d: int| 0 <= d < 9 ==> has_candidate(grid@[k], d)),
            forall|k: int|
                idx <= k < 81 ==> !is_fixed(#[trigger] grid@[k]) && (forall|d: int|
                    0 <= d < 9 ==> has_candidate(grid@[k], d)),
            grid_wf(grid@),
        decreases b.len() - i,
    {
        let c = b[i];
        proof {
            lemma_tokens_prefix(bs, i as int + 1, bs.len() as int);
            assert(is_token_byte(bs[i as int]) || is_space_byte(bs[i as int]));
        }
        if 49 <= c && c <= 57 {
            proof {
                assert(tokens_of(bs, i as int + 1).len() == idx + 1);
                assert(grid_tokens(bs)[idx as int] == bs[i as int]);
            }
            grid[idx] = CellValue::Value((c - 49) as usize);
            idx = idx + 1;
        } else if c == 95 || c == 46 {
            proof {
                assert(tokens_of(bs, i as int + 1).len() == idx + 1);
                assert(grid_tokens(bs)[idx as int] == bs[i as int]);
            }
            idx = idx + 1;
        }
        i = i + 1;
    }
    proof {
        assert(idx == 81);
        lemma_tokens_shape(bs, bs.len() as int);
        assert forall|k: int, d: int|
            0 <= k < 81 && 0 <= d < 9 && !is_fixed(grid@[k]) && #[trigger] free_digit(
                grid@,
                k,
                d,
            ) implies has_candidate(grid@[k], d) by {
            if is_digit_byte(grid_tokens(bs)[k]) {
                assert(is_fixed(grid@[k]));
            } else {
                assert(is_blank_byte(grid_tokens(bs)[k]));
            }
        }
    }
    grid
}

/// The digits, written 1 to 9 in increasing order, that the fixed peers
/// of `index` leave possible for that cell.
pub fn get_possible_values(grid: Grid, index: usize) -> (r: Vec<usize>)
    requires
        grid_wf(grid@),
        index < 81,
    ensures
        forall|k: int, l: int| 0 <= k < l < r@.len() ==> r@[k] < r@[l],
        forall|k: int|
            0 <= k < r@.len() ==> 1 <= #[trigger] r@[k] <= 9 && free_digit(
                grid@,
                index as int,
                r@[k] - 1,
            ),
        forall|d: int|
            0 <= d < 9 && free_digit(grid@, index as int, d) ==> r@.contains((d + 1) as usize),
{
    let cv = get_cell_value(grid, index);
    let p = match cv {
        CellValue::Possibilities(p) => p,
        CellValue::Value(_) => {
            proof {
                assert(false);
            }
            [false;9]
        },
    };
    let mut r: Vec<usize> = Vec::new();
    let mut d: usize = 0;
    while d < 9
        invariant
            d <= 9,
            forall|e: int| 0 <= e < 9 ==> (p[e] <==> free_digit(grid@, index as int, e)),
            forall|k: int, l: int| 0 <= k < l < r@.len() ==> r@[k] < r@[l],
            forall|k: int| 0 <= k < r@.len() ==> 1 <= #[trigger] r@[k] <= d && p[r@[k] - 1],
            forall|e: int| 0 <= e < d && p[e] ==> r@.contains((e + 1) as usize),
        decreases 9 - d,
    {
        if p[d] {
            let ghost rold = r@;
            r.push(d + 1);
            proof {
                assert forall|e: int| 0 <= e < d + 1 && p[e] implies r@.contains(
                    (e + 1) as usize,
                ) by {
                    if e < d {
                        assert(rold.contains((e + 1) as usize));
                        let k = choose|k: int| 0 <= k < rold.len() && rold[k] == (e + 1) as usize;
                        assert(r@[k] == (e + 1) as usize);
                    } else {
                        assert(r@[r@.len() - 1] == (e + 1) as usize);
                    }
                }
            }
        }
        d = d + 1;
    }
    r
}

} // verus!
