use sudoku_engine::{
    get_possible_values, grid_string_well_formed, parse_grid, render_grid, render_grid_option,
    CellValue,
};

const PATTERN: &str = "123456789456789123789123456234567891567891234891234567345678912678912345912345678";

#[test]
fn test_get_possible_values() {
    let grid_string = r#"
            1 _ _   _ 3 _   _ _ 9
            _ _ _   _ 2 _   _ _ _
            3 _ 7   _ _ _   _ 5 _

            _ _ _   _ _ _   _ _ _
            _ _ 4   _ _ _   _ _ _
            7 _ _   _ _ _   _ _ _

            _ _ _   _ _ _   _ _ _
            _ _ _   _ _ _   _ _ _
            _ 8 _   _ _ _   _ _ _"#;

    let grid = parse_grid(grid_string);

    println!("{:?}", get_possible_values(grid, 1));
    assert_eq!(vec![2, 4, 5, 6], get_possible_values(grid, 1));
}

#[test]
fn test_grid_string_well_formed() {
    assert!(grid_string_well_formed(PATTERN));
    let dots: String = ".".repeat(81);
    assert!(grid_string_well_formed(&dots));
    let short: String = ".".repeat(80);
    assert!(!grid_string_well_formed(&short));
    let long: String = ".".repeat(82);
    assert!(!grid_string_well_formed(&long));
    let bad: String = "x".to_string() + &".".repeat(80);
    assert!(!grid_string_well_formed(&bad));
    // whitespace between tokens is fine
    let spaced = format!("{}\n\t {}", &PATTERN[..40], &PATTERN[40..]);
    assert!(grid_string_well_formed(&spaced));
}

#[test]
fn test_parse_grid_cells() {
    let g = parse_grid(PATTERN);
    // cell 0 holds digit 1 (stored as 0), cell 80 holds digit 8 (stored 7)
    assert_eq!(g[0], CellValue::Value(0));
    assert_eq!(g[8], CellValue::Value(8));
    assert_eq!(g[80], CellValue::Value(7));
    let dots: String = ".".repeat(81);
    let blank = parse_grid(&dots);
    for i in 0..81 {
        assert!(!blank[i].is_value());
        assert_eq!(blank[i].get_nb_possibility(), 9);
    }
}

/// The exact text layout: cells spaced in threes, a blank line after
/// every third row.
fn expected_text(cell_texts: &[String]) -> String {
    let mut out = String::new();
    for (k, t) in cell_texts.iter().enumerate() {
        out.push_str(t);
        if k % 9 == 8 {
            out.push('\n');
            if k % 27 == 26 {
                out.push('\n');
            }
        } else if k % 3 == 2 {
            out.push_str("   ");
        } else {
            out.push(' ');
        }
    }
    out
}

#[test]
fn test_render_grid_layout() {
    let g = parse_grid(PATTERN);
    let cells: Vec<String> = PATTERN.chars().map(|c| c.to_string()).collect();
    assert_eq!(render_grid(g), expected_text(&cells));
    let first_line = "1 2 3   4 5 6   7 8 9\n";
    assert!(render_grid(g).starts_with(first_line));
}

#[test]
fn test_render_grid_option_annotations() {
    let dots: String = ".".repeat(81);
    let blank = parse_grid(&dots);
    let cells: Vec<String> = (0..81).map(|_| "(123456789)".to_string()).collect();
    assert_eq!(render_grid_option(blank, true), expected_text(&cells));
    // on a grid with no undetermined cell the annotated and the plain
    // layout agree
    let full = parse_grid(PATTERN);
    assert_eq!(render_grid_option(full, true), render_grid(full));
    // blanks render as underscores without annotations
    assert!(render_grid(blank).starts_with("_ _ _   _ _ _   _ _ _\n"));
}

#[test]
fn test_parse_render_round_trip() {
    // the scattered-digit layout: digits 1 to 9 among blanks
    let s = "1.........2........3.........4........5.........6........7........8........9.....";
    assert!(grid_string_well_formed(s));
    let g = parse_grid(s);
    let text = render_grid(g);
    assert!(grid_string_well_formed(&text));
    let g2 = parse_grid(&text);
    assert!(g2 == g);
    // every fixed digit and every blank survived the round trip
    for i in 0..81 {
        match (g[i], g2[i]) {
            (CellValue::Value(a), CellValue::Value(b)) => assert_eq!(a, b),
            (CellValue::Possibilities(_), CellValue::Possibilities(_)) => {},
            _ => panic!("cell changed kind in round trip"),
        }
    }
}
