use vstd::prelude::*;

verus! {

/// One cell of the grid: either a fixed digit (stored as `0..9`, standing
/// for the digits 1 to 9) or the set of digits still possible for the cell.
#[derive(Copy, Clone, PartialEq, Debug)]
pub enum CellValue {
    Value(usize),
    Possibilities([bool; 9]),
}

/// The cell holds a fixed digit.
pub open spec fn is_fixed(c: CellValue) -> bool {
    c is Value
}

/// The digit of a fixed cell.
pub open spec fn digit_of(c: CellValue) -> int {
    match c {
        CellValue::Value(v) => v as int,
        CellValue::Possibilities(_) => -1,
    }
}

/// A fixed cell holds a digit in range.
pub open spec fn cell_wf(c: CellValue) -> bool {
    match c {
        CellValue::Value(v) => v < 9,
        CellValue::Possibilities(_) => true,
    }
}

/// Digit `d` is still allowed by the cell: it is the digit of a fixed cell,
/// or a remaining possibility of an undetermined one.
pub open spec fn has_candidate(c: CellValue, d: int) -> bool {
    match c {
        CellValue::Value(v) => d == v as int,
        CellValue::Possibilities(p) => 0 <= d < 9 && p[d],
    }
}

/// How many of the first `n` possibility flags are set.
pub open spec fn count_candidates_up_to(p: Seq<bool>, n: int) -> int
    decreases n,
{
    if n <= 0 {
        0
    } else {
        count_candidates_up_to(p, n - 1) + if p[n - 1] {
            1int
        } else {
            0int
        }
    }
}

/// How many digits a possibility mask still allows.
pub open spec fn count_candidates(p: Seq<bool>) -> int {
    count_candidates_up_to(p, 9)
}

/// What `get_nb_possibility` returns: the number of remaining candidates,
/// or the sentinel 10 for a fixed cell.
pub open spec fn spec_nb_possibility(c: CellValue) -> int {
    match c {
        CellValue::Value(_) => 10,
        CellValue::Possibilities(p) => count_candidates(p@),
    }
}

pub proof fn lemma_count_nonneg(p: Seq<bool>, n: int)
    ensures
        0 <= count_candidates_up_to(p, n) <= if n >= 0 {
            n
        } else {
            0
        },
    decreases n,
{
    if n > 0 {
        lemma_count_nonneg(p, n - 1);
    }
}

/// A mask counts zero exactly when no flag among the first `n` is set.
pub proof fn lemma_count_zero(p: Seq<bool>, n: int)
    ensures
        (count_candidates_up_to(p, n) == 0) <==> (forall|d: int| 0 <= d < n ==> !p[d]),
    decreases n,
{
    if n > 0 {
        lemma_count_zero(p, n - 1);
        lemma_helper_nonneg(p, n - 1);
    }
}

proof fn lemma_helper_nonneg(p: Seq<bool>, n: int)
    ensures
        0 <= count_candidates_up_to(p, n),
{
    lemma_count_nonneg(p, n);
}

/// Two distinct set flags force a count of at least two.
pub proof fn lemma_count_two(p: Seq<bool>, n: int, a: int, b: int)
    requires
        0 <= a < b < n,
        p[a],
        p[b],
    ensures
        count_candidates_up_to(p, n) >= 2,
    decreases n,
{
    if b == n - 1 {
        lemma_count_pos(p, n - 1, a);
    } else {
        lemma_count_two(p, n - 1, a, b);
        lemma_helper_nonneg(p, n);
    }
}

/// A count of at least two exhibits two distinct set flags.
pub proof fn lemma_count_two_exists(p: Seq<bool>, n: int)
    requires
        count_candidates_up_to(p, n) >= 2,
    ensures
        exists|d1: int, d2: int|
            #![trigger p[d1], p[d2]]
            0 <= d1 < d2 < n && p[d1] && p[d2],
    decreases n,
{
    lemma_count_nonneg(p, n);
    if p[n - 1] {
        lemma_count_zero(p, n - 1);
        assert(count_candidates_up_to(p, n - 1) >= 1);
        let d = choose|d: int| 0 <= d < n - 1 && p[d];
        assert(0 <= d < n - 1 < n && p[d] && p[n - 1]);
    } else {
        lemma_count_two_exists(p, n - 1);
        let (d1, d2) = choose|d1: int, d2: int|
            #![trigger p[d1], p[d2]]
            0 <= d1 < d2 < n - 1 && p[d1] && p[d2];
        assert(0 <= d1 < d2 < n && p[d1] && p[d2]);
    }
}

/// A set flag forces a positive count.
pub proof fn lemma_count_pos(p: Seq<bool>, n: int, a: int)
    requires
        0 <= a < n,
        p[a],
    ensures
        count_candidates_up_to(p, n) >= 1,
    decreases n,
{
    if a < n - 1 {
        lemma_count_pos(p, n - 1, a);
    } else {
        lemma_helper_nonneg(p, n - 1);
    }
}

impl CellValue {
    /// The cell holds a fixed digit.
    pub fn is_value(&self) -> (r: bool)
        ensures
            r == is_fixed(*self),
    {
        match *self {
            CellValue::Value(_) => true,
            CellValue::Possibilities(_) => false,
        }
    }

    /// The number of digits still possible for the cell; a fixed cell
    /// reports the sentinel 10, so that it is never the most constrained.
    pub fn get_nb_possibility(&self) -> (r: usize)
        ensures
            r == spec_nb_possibility(*self),
    {
        match *self {
            CellValue::Value(_) => 10,
            CellValue::Possibilities(values) => {
                let mut acc: usize = 0;
                let mut d: usize = 0;
                while d < 9
                    invariant
                        d <= 9,
                        acc == count_candidates_up_to(values@, d as int),
                        acc <= d,
                    decreases 9 - d,
                {
                    if values[d] {
                        acc = acc + 1;
                    }
                    d = d + 1;
                }
                acc
            },
        }
    }
}

/// The lowest digit a mask still allows, or the sentinel 11 when it allows
/// none.
pub fn get_last_value_possible(possible_values: [bool; 9]) -> (r: usize)
    ensures
        (exists|d: int| 0 <= d < 9 && possible_values[d]) ==> r < 9 && possible_values[r as int]
            && (forall|d: int| 0 <= d < r ==> !possible_values[d]),
        !(exists|d: int| 0 <= d < 9 && possible_values[d]) ==> r == 11,
{
    let mut d: usize = 0;
    while d < 9
        invariant
            d <= 9,
            forall|e: int| 0 <= e < d ==> !possible_values[e],
        decreases 9 - d,
    {
        if possible_values[d] {
            return d;
        }
        d = d + 1;
    }
    11
}

} // verus!
