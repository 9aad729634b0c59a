//! Solver for line-constraint grid puzzles: each row and each column
//! carries an ordered list of filled-run lengths, and the solver finds a
//! boolean grid meeting every line's constraint, or reports that none
//! exists.
//!
//! The pieces, leaf to root: `BlockSpec` with its enumerator produces every
//! placement of one line's blocks; `advance_row` is the per-row
//! compatibility automaton over a canonical row template; `solve_stacked`
//! drives a depth-first, explicit-stack search over column placements; and
//! `solve` builds the line specs and templates from a `Puzzle`, reporting
//! any malformed line before the search starts.

mod automaton;
mod engine;
mod line;
mod runs;
mod solve;

pub use automaton::advance_row;
pub use automaton::advance_spec;
pub use automaton::inv_row;
pub use engine::check_config;
pub use engine::grid_view;
pub use engine::row_of;
pub use engine::solve_stacked;
pub use engine::template_wf;
pub use engine::WorkItem;
pub use line::all_configs;
pub use line::make_row_config;
pub use line::BlockSpec;
pub use line::BlockSpecIterator;
pub use line::ColumnConfigPhase;
pub use runs::filled_runs;
pub use runs::ints_of;
pub use runs::sum_seq;
pub use solve::line_fits;
pub use solve::lines_positive;
pub use solve::puzzle_wf;
pub use solve::solution_ok;
pub use solve::solve;
pub use solve::MalformedLine;
pub use solve::Puzzle;
