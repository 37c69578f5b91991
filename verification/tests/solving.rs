use sudoku_engine::{
    build_possible_values_grid, check_grid_at, check_no_redundant_value, fill_one_possibility_cells,
    get_adjacent_cells, get_cell_value, get_last_value_possible, get_peer_group, is_grid_complete_full,
    parse_grid, set_cell_value_at, solve_grid, solve_grid_recurse, solve_grid_step, CellValue,
    Grid, SearchStep,
};

const PATTERN: &str = "123456789456789123789123456234567891567891234891234567345678912678912345912345678";

const HARDEST: &str = "8..........36......7..9.2...5...7.......457.....1...3...1....68..85...1..9....4..";

fn digit_of(c: CellValue) -> Option<usize> {
    match c {
        CellValue::Value(v) => Some(v),
        CellValue::Possibilities(_) => None,
    }
}

#[test]
fn test_cell_value_queries() {
    assert!(CellValue::Value(3).is_value());
    assert_eq!(CellValue::Value(3).get_nb_possibility(), 10);
    let mask = [true; 9];
    assert!(!CellValue::Possibilities(mask).is_value());
    assert_eq!(CellValue::Possibilities(mask).get_nb_possibility(), 9);
    let mut two = [false; 9];
    two[2] = true;
    two[7] = true;
    assert_eq!(CellValue::Possibilities(two).get_nb_possibility(), 2);
    let mut one = [false; 9];
    one[4] = true;
    assert_eq!(get_last_value_possible(one), 4);
    assert_eq!(get_last_value_possible([false; 9]), 11);
}

#[test]
fn test_check_no_redundant_value() {
    // two 5s in the first row
    let g = parse_grid(&format!("55{}", ".".repeat(79)));
    let row_of_2 = get_peer_group(2, 0);
    assert!(!check_no_redundant_value(g, row_of_2));
    assert!(!check_grid_at(g, 2));
    let clean = parse_grid(PATTERN);
    for i in 0..81 {
        assert!(check_grid_at(clean, i));
    }
}

#[test]
fn test_get_cell_value_excludes_fixed_peers() {
    let g = parse_grid(&format!("123{}", ".".repeat(78)));
    match get_cell_value(g, 3) {
        CellValue::Possibilities(p) => {
            assert_eq!(p, [false, false, false, true, true, true, true, true, true]);
        },
        CellValue::Value(_) => panic!("expected possibilities"),
    }
}

#[test]
fn test_set_cell_value_at_removes_from_peers() {
    let mut g: Grid = parse_grid(&".".repeat(81));
    assert!(set_cell_value_at(&mut g, 0, 4));
    assert_eq!(g[0], CellValue::Value(4));
    for &j in get_adjacent_cells(0).iter() {
        match g[j] {
            CellValue::Possibilities(p) => assert!(!p[4]),
            CellValue::Value(_) => panic!("no peer should be fixed yet"),
        }
    }
}

#[test]
fn test_fill_one_possibility_cells_fixes_singleton() {
    // the first eight cells of row 0 are fixed, so cell 8 has one
    // candidate left once its mask is derived
    let mut g: Grid = parse_grid(&format!("12345678.{}", ".".repeat(72)));
    let listed = get_adjacent_cells(0);
    assert!(fill_one_possibility_cells(&mut g, listed));
    assert_eq!(g[8], CellValue::Value(8));
    // on success no listed cell is left with a pending forced digit:
    // each is fixed or still has at least two derived candidates
    for &j in listed.iter() {
        if !g[j].is_value() {
            assert!(get_cell_value(g, j).get_nb_possibility() >= 2);
        }
    }
}

#[test]
fn test_propagation_on_solved_grid_is_identity() {
    // an already solved grid: propagation reports success and changes
    // nothing
    let g = parse_grid(PATTERN);
    assert!(is_grid_complete_full(g));
    let mut g2 = g;
    assert!(build_possible_values_grid(&mut g2));
    assert!(g2 == g);
}

#[test]
fn test_propagation_reaches_fixpoint() {
    // after a successful sweep every undetermined cell keeps at least two
    // candidates, and its mask is exactly what its fixed peers leave open
    let g0 = parse_grid(HARDEST);
    let mut g = g0;
    assert!(build_possible_values_grid(&mut g));
    for i in 0..81 {
        match g[i] {
            CellValue::Value(_) => {},
            CellValue::Possibilities(p) => {
                assert!(CellValue::Possibilities(p).get_nb_possibility() >= 2);
                match get_cell_value(g, i) {
                    CellValue::Possibilities(derived) => assert_eq!(p, derived),
                    CellValue::Value(_) => unreachable!(),
                }
            },
        }
    }
}

#[test]
fn test_propagation_completes_pattern() {
    // with its first row blanked out, the pattern grid is restored by
    // propagation alone, with no branching
    let blanked = format!("{}{}", ".".repeat(9), &PATTERN[9..]);
    let mut g = parse_grid(&blanked);
    assert!(build_possible_values_grid(&mut g));
    assert!(g == parse_grid(PATTERN));
    assert!(is_grid_complete_full(g));
}

#[test]
fn test_propagation_soundness() {
    // whatever propagation fixes never collides with a fixed peer
    let blanked = format!("{}{}", ".".repeat(9), &PATTERN[9..]);
    let g0 = parse_grid(&blanked);
    let mut g = g0;
    assert!(build_possible_values_grid(&mut g));
    for i in 0..81 {
        if !g0[i].is_value() && g[i].is_value() {
            for &j in get_adjacent_cells(i).iter() {
                if g[j].is_value() {
                    assert_ne!(digit_of(g[i]), digit_of(g[j]));
                }
            }
        }
    }
}

#[test]
fn test_solve_empty_grid() {
    // the maximally under-constrained puzzle: some valid completion
    let g = parse_grid(&".".repeat(81));
    let solved = solve_grid(g).expect("an empty grid has solutions");
    assert!(is_grid_complete_full(solved));
}

#[test]
fn test_solve_hardest_puzzle() {
    let g = parse_grid(HARDEST);
    let solved = solve_grid(g).expect("this puzzle has a solution");
    assert!(is_grid_complete_full(solved));
    // the clues survive into the solution
    for i in 0..81 {
        if g[i].is_value() {
            assert_eq!(digit_of(g[i]), digit_of(solved[i]));
        }
    }
    // this puzzle has exactly one solution
    let expected =
        "812753649943682175675491283154237896369845721287169534521974368438526917796318452";
    assert!(solved == parse_grid(expected));
}

#[test]
fn test_solve_recurse_on_solved_grid() {
    let g = parse_grid(PATTERN);
    let r = solve_grid_recurse(g).expect("a solved grid solves trivially");
    assert!(r == g);
}

#[test]
fn test_unsolvable_duplicate_in_row() {
    // two 5s in the same row: no solution
    let g = parse_grid(&format!("5.5{}", ".".repeat(78)));
    assert!(solve_grid(g).is_none());
}

#[test]
fn test_unsolvable_duplicate_in_box() {
    // two 5s in the same box, different row and column: no solution
    let g = parse_grid(&format!("5{}5{}", ".".repeat(9), ".".repeat(70)));
    assert!(solve_grid(g).is_none());
}

#[test]
fn test_unsolvable_cell_without_candidates() {
    // a blank cell whose row and column fixed peers together rule out
    // all nine digits
    let mut s: Vec<u8> = ".".repeat(81).into_bytes();
    // row 0: digits 1..8 in cells 1..8; column 0: digit 9 at cell 9
    for k in 1..9 {
        s[k] = b'0' + k as u8;
    }
    s[9] = b'9';
    let text = String::from_utf8(s).unwrap();
    let g = parse_grid(&text);
    assert!(solve_grid(g).is_none());
}

#[test]
fn test_solve_grid_step_outcomes() {
    // an already solved grid finishes at once
    match solve_grid_step(parse_grid(PATTERN)) {
        SearchStep::Solved(s) => assert!(is_grid_complete_full(s)),
        _ => panic!("expected a solved grid"),
    }
    // conflicting clues are rejected at once
    match solve_grid_step(parse_grid(&format!("5.5{}", ".".repeat(78)))) {
        SearchStep::Unsatisfiable => {},
        _ => panic!("expected no solution"),
    }
    // a hard puzzle branches; there are at most nine branches, each with
    // strictly fewer undetermined cells, and searching them finds a
    // solution
    let before = parse_grid(HARDEST);
    let unfixed = |g: &Grid| (0..81).filter(|&i| !g[i].is_value()).count();
    match solve_grid_step(before) {
        SearchStep::Branching(branches) => {
            assert!(!branches.is_empty());
            assert!(branches.len() <= 9);
            for b in &branches {
                assert!(unfixed(b) < unfixed(&before));
            }
            let mut found = None;
            for b in &branches {
                if let Some(s) = solve_grid_recurse(*b) {
                    found = Some(s);
                    break;
                }
            }
            let s = found.expect("some branch must solve");
            assert!(is_grid_complete_full(s));
        },
        SearchStep::Solved(s) => assert!(is_grid_complete_full(s)),
        SearchStep::Unsatisfiable => panic!("this puzzle has a solution"),
    }
}
