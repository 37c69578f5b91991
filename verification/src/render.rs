use vstd::prelude::*;
use crate::cell::CellValue;
use crate::grid::{Grid, grid_wf};

verus! {

/// The text of one cell: its digit, or `_` for an undetermined cell; with
/// annotations on, an undetermined cell is written as its remaining
/// digits between parentheses instead.
pub open spec fn render_cell_bytes(c: CellValue, with_possibilities: bool) -> Seq<u8> {
    match c {
        CellValue::Value(v) => seq![(v + 49) as u8],
        CellValue::Possibilities(p) => {
            if with_possibilities {
                seq![40u8] + mask_digit_bytes(p@, 9) + seq![41u8]
            } else {
                seq![95u8]
            }
        },
    }
}

/// The digits a mask allows among the first `n`, in increasing order.
pub open spec fn mask_digit_bytes(p: Seq<bool>, n: int) -> Seq<u8>
    decreases n,
{
    if n <= 0 {
        Seq::empty()
    } else {
        mask_digit_bytes(p, n - 1) + if p[n - 1] {
            seq![(n - 1 + 49) as u8]
        } else {
            Seq::<u8>::empty()
        }
    }
}

/// What follows the cell at position `k`: a newline at the end of a row
/// (doubled after every third row), a wide gap after each box column, a
/// single space otherwise.
pub open spec fn separator_bytes(k: int) -> Seq<u8> {
    if k % 9 == 8 {
        if k % 27 == 26 {
            seq![10u8, 10u8]
        } else {
            seq![10u8]
        }
    } else if k % 3 == 2 {
        seq![32u8, 32u8, 32u8]
    } else {
        seq![32u8]
    }
}

/// The text of the first `n` cells of the grid, separators included.
pub open spec fn render_up_to(g: Seq<CellValue>, with_possibilities: bool, n: int) -> Seq<u8>
    decreases n,
{
    if n <= 0 {
        Seq::empty()
    } else {
        render_up_to(g, with_possibilities, n - 1) + render_cell_bytes(g[n - 1], with_possibilities)
            + separator_bytes(n - 1)
    }
}

/// The full text of a grid.
pub open spec fn spec_render(g: Seq<CellValue>, with_possibilities: bool) -> Seq<u8> {
    render_up_to(g, with_possibilities, 81)
}

/// Relies on `String::from_utf8`: bytes below 128 decode to the string of
/// exactly those characters.
#[verifier::external_body]
fn ascii_string(bytes: Vec<u8>) -> (r: String)
    requires
        forall|i: int| 0 <= i < bytes@.len() ==> bytes@[i] < 128,
    ensures
        r@.len() == bytes@.len(),
        forall|i: int| 0 <= i < bytes@.len() ==> r@[i] == bytes@[i] as char,
{
    match String::from_utf8(bytes) {
        Ok(s) => s,
        Err(_) => String::new(),
    }
}

/// Formats the grid in the layout the solver prints: nine rows of nine
/// cells, spaced in threes, a blank line after every third row, digits
/// for fixed cells and `_` (or, with annotations on, the remaining
/// digits in parentheses) for undetermined ones.
pub fn render_grid_option(g: Grid, with_possibilities: bool) -> (r: String)
    requires
        grid_wf(g@),
    ensures
        r@.len() == spec_render(g@, with_possibilities).len(),
        forall|i: int|
            0 <= i < r@.len() ==> r@[i] == spec_render(g@, with_possibilities)[i] as char,
{
    let mut out: Vec<u8> = Vec::new();
    let mut i: usize = 0;
    while i < 81
        invariant
            i <= 81,
            grid_wf(g@),
            out@ == render_up_to(g@, with_possibilities, i as int),
            forall|k: int| 0 <= k < out@.len() ==> #[trigger] out@[k] < 128,
        decreases 81 - i,
    {
        match g[i] {
            CellValue::Value(v) => {
                out.push((v + 49) as u8);
            },
            CellValue::Possibilities(p) => {
                if with_possibilities {
                    out.push(40);
                    let ghost mid = out@;
                    let mut d: usize = 0;
                    while d < 9
                        invariant
                            d <= 9,
                            out@ == mid + mask_digit_bytes(p@, d as int),
                            forall|k: int| 0 <= k < out@.len() ==> #[trigger] out@[k] < 128,
                        decreases 9 - d,
                    {
                        if p[d] {
                            out.push((d + 49) as u8);
                        }
                        d = d + 1;
                    }
                    out.push(41);
                } else {
                    out.push(95);
                }
            },
        }
        if i % 9 == 8 {
            out.push(10);
            if i % 27 == 26 {
                out.push(10);
            }
        } else if i % 3 == 2 {
            out.push(32);
            out.push(32);
            out.push(32);
        } else {
            out.push(32);
        }
        proof {
            assert(out@ == render_up_to(g@, with_possibilities, i as int + 1));
        }
        i = i + 1;
    }
    ascii_string(out)
}

/// Formats the grid as nine rows of digits and `_` blanks.
pub fn render_grid(g: Grid) -> (r: String)
    requires
        grid_wf(g@),
    ensures
        r@.len() == spec_render(g@, false).len(),
        forall|i: int| 0 <= i < r@.len() ==> r@[i] == spec_render(g@, false)[i] as char,
{
    render_grid_option(g, false)
}

} // verus!
