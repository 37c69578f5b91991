#![verifier::loop_isolation(false)]
pub mod cell;
pub mod grid;
pub mod parse;
pub mod peers;
pub mod propagate;
pub mod render;
pub mod solve;

pub use cell::CellValue;
pub use cell::get_last_value_possible;
pub use grid::Grid;
pub use grid::check_grid_at;
pub use grid::check_no_redundant_value;
pub use grid::is_grid_complete_full;
pub use parse::get_possible_values;
pub use parse::grid_string_well_formed;
pub use parse::parse_grid;
pub use peers::get_adjacent_cells;
pub use peers::get_column;
pub use peers::get_head_of_block;
pub use peers::get_line;
pub use peers::get_peer_group;
pub use propagate::build_possible_values_grid;
pub use propagate::fill_one_possibility_cells;
pub use propagate::get_cell_value;
pub use propagate::set_cell_value_at;
pub use render::render_grid;
pub use render::render_grid_option;
pub use solve::SearchStep;
pub use solve::solve_grid;
pub use solve::solve_grid_step;
pub use solve::solve_grid_recurse;
