use vstd::prelude::*;

use crate::engine::grid_view;
use crate::engine::row_of;
use crate::engine::solve_stacked;
use crate::engine::template_wf;
use crate::line::clone_usizes;
use crate::line::make_row_config;
use crate::line::BlockSpec;
use crate::runs::filled_runs;
use crate::runs::ints_of;
use crate::runs::sum_seq;

verus! {

/// A puzzle: ordered block-length lists for each row (`horizontal`, top to
/// bottom) and for each column (`vertical`, left to right).
pub struct Puzzle {
    pub horizontal: Vec<Vec<usize>>,
    pub vertical: Vec<Vec<usize>>,
}

/// Whether one line's blocks can fit its length at all: the blocks plus one
/// mandatory separator between neighbours need at most `size + 1` cells
/// counting one virtual separator, that is `|B| + sum(B) <= size + 1`.
pub open spec fn line_fits(blocks: Seq<usize>, size: int) -> bool {
    blocks.len() + sum_seq(blocks) <= size + 1
}

/// Every block length in every line is positive.
pub open spec fn lines_positive(lines: Seq<Vec<usize>>) -> bool {
    forall|i: int, j: int|
        #![trigger lines[i]@[j]]
        0 <= i < lines.len() && 0 <= j < lines[i]@.len() ==> lines[i]@[j] >= 1
}

/// What `solve` asks of its input, all of it part of the puzzle format:
/// positive block lengths, and dimensions below the machine's limit.
pub open spec fn puzzle_wf(p: Puzzle) -> bool {
    &&& lines_positive(p.horizontal@)
    &&& lines_positive(p.vertical@)
    &&& p.horizontal@.len() < usize::MAX
    &&& p.vertical@.len() < usize::MAX
}

/// The grid solves the puzzle: one column per vertical spec, each holding
/// one cell per row; run-length decoding every column gives `vertical`, and
/// every row `horizontal`.
pub open spec fn solution_ok(p: Puzzle, g: Seq<Seq<bool>>) -> bool {
    &&& g.len() == p.vertical@.len()
    &&& forall|c: int| 0 <= c < g.len() ==> (#[trigger] g[c]).len() == p.horizontal@.len()
    &&& forall|c: int| 0 <= c < g.len() ==> filled_runs(#[trigger] g[c]) == ints_of(p.vertical@[c]@)
    &&& forall|r: int|
        0 <= r < p.horizontal@.len() ==> #[trigger] filled_runs(row_of(g, r)) == ints_of(
            p.horizontal@[r]@,
        )
}

/// Which line of the puzzle is malformed: a row or a column, by index.
#[derive(Debug, PartialEq, Eq)]
pub enum MalformedLine {
    Row(usize),
    Column(usize),
}

/// Solves the puzzle.  A malformed line (blocks that cannot fit their line
/// even with zero slack) is reported as an error before any search, columns
/// first; otherwise the result is a column-major grid satisfying every line
/// spec, or `None` once the search has exhausted every branch.  The
/// contract pins the error case exactly and proves any returned grid
/// correct; that `None` is only returned on unsatisfiable puzzles is not
/// stated here.
#[verifier::loop_isolation(false)]
pub fn solve(puzzle: Puzzle) -> (r: Result<Option<Vec<Vec<bool>>>, MalformedLine>)
    requires
        puzzle_wf(puzzle),
    ensures
        match r {
            Ok(res) => {
                &&& forall|c: int|
                    0 <= c < puzzle.vertical@.len() ==> line_fits(
                        (#[trigger] puzzle.vertical@[c])@,
                        puzzle.horizontal@.len() as int,
                    )
                &&& forall|rr: int|
                    0 <= rr < puzzle.horizontal@.len() ==> line_fits(
                        (#[trigger] puzzle.horizontal@[rr])@,
                        puzzle.vertical@.len() as int,
                    )
                &&& match res {
                    Some(g) => solution_ok(puzzle, grid_view(g@)),
                    None => true,
                }
                &&& (puzzle.vertical@.len() == 0 ==> res is Some)
            },
            Err(e) => match e {
                MalformedLine::Column(c) => {
                    &&& 0 <= c < puzzle.vertical@.len()
                    &&& !line_fits(puzzle.vertical@[c as int]@, puzzle.horizontal@.len() as int)
                    &&& forall|j: int|
                        0 <= j < c ==> line_fits(
                            (#[trigger] puzzle.vertical@[j])@,
                            puzzle.horizontal@.len() as int,
                        )
                },
                MalformedLine::Row(rr) => {
                    &&& 0 <= rr < puzzle.horizontal@.len()
                    &&& !line_fits(puzzle.horizontal@[rr as int]@, puzzle.vertical@.len() as int)
                    &&& forall|c: int|
                        0 <= c < puzzle.vertical@.len() ==> line_fits(
                            (#[trigger] puzzle.vertical@[c])@,
                            puzzle.horizontal@.len() as int,
                        )
                    &&& forall|j: int|
                        0 <= j < rr ==> line_fits(
                            (#[trigger] puzzle.horizontal@[j])@,
                            puzzle.vertical@.len() as int,
                        )
                },
            },
        },
{
    let n_col = puzzle.vertical.len();
    let n_row = puzzle.horizontal.len();
    let mut cols: Vec<BlockSpec> = Vec::new();
    let mut c: usize = 0;
    while c < n_col
        invariant
            0 <= c <= n_col,
            cols@.len() == c,
            forall|j: int|
                0 <= j < c ==> (#[trigger] cols@[j]).wf() && cols@[j].size == n_row
                    && cols@[j].block_sizes@ == puzzle.vertical@[j]@,
            forall|j: int|
                0 <= j < c ==> line_fits((#[trigger] puzzle.vertical@[j])@, n_row as int),
        decreases n_col - c,
    {
        let blocks = clone_usizes(&puzzle.vertical[c]);
        match BlockSpec::new(blocks, n_row) {
            Some(bs) => {
                cols.push(bs);
            },
            None => {
                return Err(MalformedLine::Column(c));
            },
        }
        c = c + 1;
    }
    let mut templates: Vec<Vec<bool>> = Vec::new();
    let mut rr: usize = 0;
    while rr < n_row
        invariant
            0 <= rr <= n_row,
            templates@.len() == rr,
            forall|j: int|
                0 <= j < rr ==> template_wf((#[trigger] templates@[j])@, n_col as int)
                    && filled_runs(templates@[j]@.subrange(1, templates@[j]@.len() - 1)) == ints_of(
                    puzzle.horizontal@[j]@,
                ),
            forall|j: int|
                0 <= j < rr ==> line_fits((#[trigger] puzzle.horizontal@[j])@, n_col as int),
        decreases n_row - rr,
    {
        let blocks = clone_usizes(&puzzle.horizontal[rr]);
        match BlockSpec::new(blocks, n_col) {
            Some(bs) => {
                let t = make_row_config(&bs);
                templates.push(t);
            },
            None => {
                return Err(MalformedLine::Row(rr));
            },
        }
        rr = rr + 1;
    }
    let res = solve_stacked(&templates, &cols);
    match res {
        Some(g) => {
            proof {
                let gv = grid_view(g@);
                assert forall|cc: int| 0 <= cc < gv.len() implies (#[trigger] gv[cc]).len()
                    == puzzle.horizontal@.len() && filled_runs(gv[cc]) == ints_of(
                    puzzle.vertical@[cc]@,
                ) by {
                    assert(gv[cc] == g@[cc]@);
                    assert(filled_runs(g@[cc]@) == ints_of(cols@[cc].block_sizes@));
                }
                assert forall|r2: int| 0 <= r2 < puzzle.horizontal@.len() implies #[trigger]
                filled_runs(row_of(gv, r2)) == ints_of(puzzle.horizontal@[r2]@) by {
                    assert(filled_runs(row_of(grid_view(g@), r2)) == filled_runs(
                        templates@[r2]@.subrange(1, templates@[r2]@.len() - 1),
                    ));
                }
                assert(solution_ok(puzzle, gv));
            }
            Ok(Some(g))
        },
        None => Ok(None),
    }
}

} // verus!
