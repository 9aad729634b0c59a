use vstd::prelude::*;

use crate::automaton::advance_row;
use crate::automaton::advance_spec;
use crate::automaton::inv_row;
use crate::automaton::lemma_accept_inv;
use crate::automaton::lemma_advance_inv;
use crate::line::BlockSpec;
use crate::line::BlockSpecIterator;
use crate::line::ColumnConfigPhase;
use crate::runs::filled_runs;
use crate::runs::ints_of;
use crate::runs::lemma_pow_int_pos;
use crate::runs::pow_int;

verus! {

/// A column-major grid of placements, seen as sequences of cells.
pub open spec fn grid_view(g: Seq<Vec<bool>>) -> Seq<Seq<bool>> {
    Seq::new(g.len(), |i: int| g[i]@)
}

/// The cells of row `r` across the assigned columns, in column order.
pub open spec fn row_of(g: Seq<Seq<bool>>, r: int) -> Seq<bool> {
    Seq::new(g.len(), |c: int| g[c][r])
}

/// Shape of a row template as the search relies on it: one sentinel empty
/// cell on each side, and not longer than the row plus the two sentinels.
pub open spec fn template_wf(t: Seq<bool>, n_col: int) -> bool {
    &&& 2 <= t.len() <= n_col + 2
    &&& t[0] == false
    &&& t[t.len() - 1] == false
}

/// One search-frontier node: per-row template offsets and the column
/// placements committed so far, in column order.
pub struct WorkItem {
    pub row_configs: Vec<usize>,
    pub sol: Vec<Vec<bool>>,
}

/// The frontier invariant for one node: every committed column is a valid
/// placement of its column spec, and every row's offset stands in the row
/// invariant against the cells that row has seen, still close enough to the
/// template's end to finish in the columns left.
pub open spec fn item_inv(w: WorkItem, templates: Seq<Vec<bool>>, cols: Seq<BlockSpec>) -> bool {
    &&& w.row_configs@.len() == templates.len()
    &&& w.sol@.len() <= cols.len()
    &&& forall|c: int|
        0 <= c < w.sol@.len() ==> (#[trigger] w.sol@[c])@.len() == templates.len() && filled_runs(
            w.sol@[c]@,
        ) == ints_of(cols[c].block_sizes@)
    &&& forall|r: int|
        0 <= r < templates.len() ==> inv_row(
            (#[trigger] templates[r])@,
            w.row_configs@[r] as int,
            row_of(grid_view(w.sol@), r),
        )
    &&& forall|r: int|
        0 <= r < templates.len() ==> (#[trigger] templates[r])@.len() - w.row_configs@[r]
            <= cols.len() - w.sol@.len() + 2
}

/// Bound on how many placements one column's enumerator can yield.
pub open spec fn col_cap(c: BlockSpec) -> int {
    pow_int(c.n_space + 1, c.block_sizes@.len() as nat)
}

/// Weight of a frontier node with `d` columns committed: enough to pay for
/// every node the search can still spawn under it.
pub open spec fn depth_weight(cols: Seq<BlockSpec>, d: int) -> int
    decreases cols.len() - d,
{
    if d < 0 || d >= cols.len() {
        1
    } else {
        1 + col_cap(cols[d]) * depth_weight(cols, d + 1)
    }
}

pub proof fn lemma_depth_weight_pos(cols: Seq<BlockSpec>, d: int)
    ensures
        depth_weight(cols, d) >= 1,
    decreases cols.len() - d,
{
    if 0 <= d < cols.len() {
        lemma_depth_weight_pos(cols, d + 1);
        lemma_pow_int_pos(cols[d].n_space + 1, cols[d].block_sizes@.len() as nat);
        assert(col_cap(cols[d]) * depth_weight(cols, d + 1) >= 0) by (nonlinear_arith)
            requires
                col_cap(cols[d]) >= 1,
                depth_weight(cols, d + 1) >= 1,
        ;
    }
}

/// Total weight of the frontier: every search step strictly decreases it.
pub open spec fn stack_measure(stack: Seq<WorkItem>, cols: Seq<BlockSpec>) -> int
    decreases stack.len(),
{
    if stack.len() == 0 {
        0
    } else {
        stack_measure(stack.drop_last(), cols) + depth_weight(
            cols,
            stack.last().sol@.len() as int,
        )
    }
}

pub proof fn lemma_stack_measure_nonneg(stack: Seq<WorkItem>, cols: Seq<BlockSpec>)
    ensures
        stack_measure(stack, cols) >= 0,
    decreases stack.len(),
{
    if stack.len() > 0 {
        lemma_stack_measure_nonneg(stack.drop_last(), cols);
        lemma_depth_weight_pos(cols, stack.last().sol@.len() as int);
    }
}

fn clone_bools(v: &Vec<bool>) -> (r: Vec<bool>)
    ensures
        r@ == v@,
{
    let mut r: Vec<bool> = Vec::new();
    let mut i: usize = 0;
    while i < v.len()
        invariant
            0 <= i <= v@.len(),
            r@ == v@.take(i as int),
        decreases v@.len() - i,
    {
        proof {
            assert(v@.take(i as int + 1) =~= v@.take(i as int).push(v@[i as int]));
        }
        r.push(v[i]);
        i = i + 1;
    }
    proof {
        assert(v@.take(v@.len() as int) =~= v@);
    }
    r
}

fn clone_grid(g: &Vec<Vec<bool>>) -> (r: Vec<Vec<bool>>)
    ensures
        r@.len() == g@.len(),
        forall|i: int| 0 <= i < g@.len() ==> (#[trigger] r@[i])@ == g@[i]@,
{
    let mut r: Vec<Vec<bool>> = Vec::new();
    let mut i: usize = 0;
    while i < g.len()
        invariant
            0 <= i <= g@.len(),
            r@.len() == i,
            forall|j: int| 0 <= j < i ==> (#[trigger] r@[j])@ == g@[j]@,
        decreases g@.len() - i,
    {
        let row = clone_bools(&g[i]);
        r.push(row);
        i = i + 1;
    }
    r
}

/// Advances every row's automaton state for one candidate column placement;
/// `None` exactly when some row rejects it.
#[verifier::loop_isolation(false)]
pub fn check_config(
    cfg: &Vec<bool>,
    templates: &Vec<Vec<bool>>,
    row_configs: &Vec<usize>,
    remaining_column_count: usize,
) -> (r: Option<Vec<usize>>)
    requires
        cfg@.len() == templates@.len(),
        row_configs@.len() == templates@.len(),
        forall|i: int|
            0 <= i < templates@.len() ==> row_configs@[i] < (#[trigger] templates@[i])@.len(),
    ensures
        match r {
            Some(np) => np@.len() == templates@.len() && forall|i: int|
                0 <= i < np@.len() ==> advance_spec(
                    (#[trigger] templates@[i])@,
                    row_configs@[i] as int,
                    cfg@[i],
                    remaining_column_count as int,
                ) == Some(np@[i] as int) && np@[i] < templates@[i]@.len(),
            None => exists|i: int|
                0 <= i < templates@.len() && advance_spec(
                    (#[trigger] templates@[i])@,
                    row_configs@[i] as int,
                    cfg@[i],
                    remaining_column_count as int,
                ) is None,
        },
{
    let n = templates.len();
    let mut np: Vec<usize> = Vec::new();
    let mut i: usize = 0;
    while i < n
        invariant
            0 <= i <= n,
            np@.len() == i,
            forall|j: int|
                0 <= j < i ==> advance_spec(
                    (#[trigger] templates@[j])@,
                    row_configs@[j] as int,
                    cfg@[j],
                    remaining_column_count as int,
                ) == Some(np@[j] as int) && np@[j] < templates@[j]@.len(),
        decreases n - i,
    {
        let res = advance_row(&templates[i], row_configs[i], cfg[i], remaining_column_count);
        match res {
            Ok(p) => {
                np.push(p);
            },
            Err(_) => {
                return None;
            },
        }
        i = i + 1;
    }
    Some(np)
}

/// Depth-first search over column placements with an explicit stack of
/// frontier nodes.  Any grid it returns has one placement per column, each
/// satisfying its column spec, and every row's cells carry exactly the runs
/// of that row's template interior; once the frontier empties it reports
/// `None`, a case this contract leaves open except for the trivial puzzle
/// with no columns at all.
#[verifier::loop_isolation(false)]
pub fn solve_stacked(templates: &Vec<Vec<bool>>, cols: &Vec<BlockSpec>) -> (r: Option<
    Vec<Vec<bool>>,
>)
    requires
        forall|c: int|
            0 <= c < cols@.len() ==> (#[trigger] cols@[c]).wf() && cols@[c].size
                == templates@.len(),
        forall|rr: int|
            0 <= rr < templates@.len() ==> template_wf(
                (#[trigger] templates@[rr])@,
                cols@.len() as int,
            ),
    ensures
        match r {
            Some(g) => {
                &&& g@.len() == cols@.len()
                &&& forall|c: int|
                    0 <= c < g@.len() ==> (#[trigger] g@[c])@.len() == templates@.len()
                        && filled_runs(g@[c]@) == ints_of(cols@[c].block_sizes@)
                &&& forall|rr: int|
                    0 <= rr < templates@.len() ==> filled_runs(row_of(grid_view(g@), rr))
                        == filled_runs(
                        (#[trigger] templates@[rr])@.subrange(1, templates@[rr]@.len() - 1),
                    )
            },
            None => true,
        },
        cols@.len() == 0 ==> r is Some,
{
    let n_row = templates.len();
    let n_col = cols.len();
    let mut row_configs: Vec<usize> = Vec::new();
    let mut i: usize = 0;
    while i < n_row
        invariant
            0 <= i <= n_row,
            row_configs@.len() == i,
            forall|j: int| 0 <= j < i ==> row_configs@[j] == 0,
        decreases n_row - i,
    {
        row_configs.push(0usize);
        i = i + 1;
    }
    let first = WorkItem { row_configs, sol: Vec::new() };
    proof {
        assert forall|rr: int| 0 <= rr < templates@.len() implies inv_row(
            (#[trigger] templates@[rr])@,
            first.row_configs@[rr] as int,
            row_of(grid_view(first.sol@), rr),
        ) by {
            let t = templates@[rr]@;
            assert(t.subrange(1, 1) =~= Seq::<bool>::empty());
            assert(row_of(grid_view(first.sol@), rr) =~= Seq::<bool>::empty());
            assert(filled_runs(Seq::<bool>::empty()) == Seq::<int>::empty());
        }
        assert(item_inv(first, templates@, cols@));
    }
    let mut work: Vec<WorkItem> = Vec::new();
    work.push(first);
    loop
        invariant
            forall|ii: int|
                0 <= ii < work@.len() ==> item_inv(#[trigger] work@[ii], templates@, cols@),
            cols@.len() == 0 ==> work@.len() == 1,
        decreases stack_measure(work@, cols@),
    {
        let ghost stack0 = work@;
        proof {
            lemma_stack_measure_nonneg(stack0, cols@);
        }
        let popped = work.pop();
        match popped {
            None => {
                return None;
            },
            Some(w) => {
                proof {
                    assert(work@ =~= stack0.drop_last());
                    assert(item_inv(w, templates@, cols@));
                }
                let d = w.sol.len();
                if d == n_col {
                    proof {
                        assert forall|rr: int| 0 <= rr < templates@.len() implies filled_runs(
                            row_of(grid_view(w.sol@), rr),
                        ) == filled_runs(
                            (#[trigger] templates@[rr])@.subrange(1, templates@[rr]@.len() - 1),
                        ) by {
                            lemma_accept_inv(
                                templates@[rr]@,
                                w.row_configs@[rr] as int,
                                row_of(grid_view(w.sol@), rr),
                            );
                        }
                    }
                    return Some(w.sol);
                }
                let remaining_column_count = n_col - d - 1;
                let ghost m0 = stack_measure(work@, cols@);
                let ghost wcap = col_cap(cols@[d as int]);
                let ghost wnext = depth_weight(cols@, d as int + 1);
                proof {
                    lemma_stack_measure_nonneg(work@, cols@);
                    lemma_depth_weight_pos(cols@, d as int + 1);
                    assert(stack_measure(stack0, cols@) == m0 + depth_weight(cols@, d as int));
                }
                let mut it = BlockSpecIterator::new(&cols[d]);
                proof {
                    it.lemma_rank_bounds();
                }
                let ghost mut pushed: int = 0;
                loop
                    invariant
                        it.wf(),
                        it.block_sizes@ == cols@[d as int].block_sizes@,
                        it.size == n_row,
                        it.n_space == cols@[d as int].n_space,
                        forall|ii: int|
                            0 <= ii < work@.len() ==> item_inv(
                                #[trigger] work@[ii],
                                templates@,
                                cols@,
                            ),
                        pushed >= 0,
                        it.phase == ColumnConfigPhase::Starting ==> pushed == 0,
                        pushed <= it.rank() + 1,
                        stack_measure(work@, cols@) <= m0 + pushed * wnext,
                    decreases it.phase_rank(), it.cap() - it.rank(),
                {
                    let nxt = it.next();
                    match nxt {
                        None => {
                            break ;
                        },
                        Some(cfg) => {
                            proof {
                                assert forall|rr: int|
                                    0 <= rr < templates@.len() implies w.row_configs@[rr] < (
                                #[trigger] templates@[rr])@.len() by {
                                    assert(inv_row(
                                        templates@[rr]@,
                                        w.row_configs@[rr] as int,
                                        row_of(grid_view(w.sol@), rr),
                                    ));
                                }
                            }
                            let chk = check_config(
                                &cfg,
                                templates,
                                &w.row_configs,
                                remaining_column_count,
                            );
                            match chk {
                                Some(new_pos) => {
                                    let mut new_sol = clone_grid(&w.sol);
                                    new_sol.push(cfg);
                                    let item = WorkItem { row_configs: new_pos, sol: new_sol };
                                    proof {
                                        let gv_old = grid_view(w.sol@);
                                        let gv_new = grid_view(item.sol@);
                                        assert forall|c: int|
                                            0 <= c < item.sol@.len() implies (
                                        #[trigger] item.sol@[c])@.len() == templates@.len()
                                            && filled_runs(item.sol@[c]@) == ints_of(
                                            cols@[c].block_sizes@,
                                        ) by {
                                            if c < d {
                                                assert(item.sol@[c]@ == w.sol@[c]@);
                                                assert(item_inv(w, templates@, cols@));
                                            } else {
                                                assert(item.sol@[c]@ == cfg@);
                                            }
                                        }
                                        assert forall|rr: int|
                                            0 <= rr < templates@.len() implies inv_row(
                                            (#[trigger] templates@[rr])@,
                                            item.row_configs@[rr] as int,
                                            row_of(gv_new, rr),
                                        ) && templates@[rr]@.len() - item.row_configs@[rr]
                                            <= cols@.len() - item.sol@.len() + 2 by {
                                            assert(row_of(gv_new, rr) =~= row_of(
                                                gv_old,
                                                rr,
                                            ).push(cfg@[rr]));
                                            lemma_advance_inv(
                                                templates@[rr]@,
                                                w.row_configs@[rr] as int,
                                                row_of(gv_old, rr),
                                                cfg@[rr],
                                                remaining_column_count as int,
                                                item.row_configs@[rr] as int,
                                            );
                                        }
                                        assert(item_inv(item, templates@, cols@));
                                    }
                                    let ghost workpre = work@;
                                    let ghost mpre = stack_measure(work@, cols@);
                                    work.push(item);
                                    proof {
                                        pushed = pushed + 1;
                                        assert(work@.drop_last() =~= workpre);
                                        assert(work@.last() == item);
                                        assert(item.sol@.len() == d + 1);
                                        assert(stack_measure(work@, cols@) == mpre + wnext);
                                        assert((pushed - 1) * wnext + wnext == pushed * wnext)
                                            by (nonlinear_arith);
                                    }
                                },
                                None => {},
                            }
                            proof {
                                it.lemma_rank_bounds();
                            }
                        },
                    }
                }
                proof {
                    it.lemma_rank_bounds();
                    assert(it.cap() == wcap);
                    assert(pushed <= wcap);
                    assert(pushed * wnext <= wcap * wnext) by (nonlinear_arith)
                        requires
                            pushed <= wcap,
                            wnext >= 1,
                    ;
                    lemma_depth_weight_pos(cols@, d as int);
                    lemma_stack_measure_nonneg(work@, cols@);
                    assert(depth_weight(cols@, d as int) == 1 + wcap * wnext);
                    assert(stack_measure(work@, cols@) < stack_measure(stack0, cols@));
                }
            },
        }
    }
}

} // verus!
