use vstd::prelude::*;

use crate::runs::filled_runs;
use crate::runs::last_filled;
use crate::runs::lemma_runs_last;
use crate::runs::lemma_runs_push;

verus! {

/// What one automaton step yields: the next offset into the row template,
/// or `None` when the proposed cell is inconsistent with every completion
/// of the row.
pub open spec fn advance_spec(tmpl: Seq<bool>, pos: int, col: bool, remaining: int) -> Option<
    int,
> {
    if tmpl[pos] {
        if pos + 1 < tmpl.len() && tmpl[pos + 1] == col {
            Some(pos + 1)
        } else {
            None
        }
    } else if col {
        if pos + 1 < tmpl.len() && tmpl[pos + 1] {
            Some(pos + 1)
        } else {
            None
        }
    } else {
        if tmpl.len() - pos <= remaining + 2 {
            Some(pos)
        } else {
            None
        }
    }
}

/// One step of the row compatibility automaton.  `row` is the row's
/// template, `pos` the offset of its head cell (the most recently consumed
/// one), `col` the cell value the current column proposes for this row, and
/// `remaining_column_count` the number of columns still to assign after the
/// current one.
///
/// A filled head forces the next template cell; a filled proposal on an
/// empty head starts the next run, which must stand in the template; an
/// empty proposal on an empty head leaves the offset alone, unless the
/// unconsumed template can no longer fit in the columns left.
pub fn advance_row(row: &Vec<bool>, pos: usize, col: bool, remaining_column_count: usize) -> (r:
    Result<usize, ()>)
    requires
        pos < row@.len(),
    ensures
        match r {
            Ok(p) => advance_spec(row@, pos as int, col, remaining_column_count as int) == Some(
                p as int,
            ) && p < row@.len(),
            Err(_) => advance_spec(row@, pos as int, col, remaining_column_count as int) is None,
        },
{
    if row[pos] {
        if pos < row.len() - 1 && row[pos + 1] == col {
            Ok(pos + 1)
        } else {
            Err(())
        }
    } else if col {
        if pos < row.len() - 1 && row[pos + 1] {
            Ok(pos + 1)
        } else {
            Err(())
        }
    } else {
        let d = row.len() - pos;
        if d <= 2 || d - 2 <= remaining_column_count {
            Ok(pos)
        } else {
            Err(())
        }
    }
}

/// The search invariant tying one row's emitted cells to its template
/// offset: the runs emitted so far are exactly the runs of the consumed
/// template prefix, and the head cell mirrors the last emitted cell (an
/// empty cell before the start, thanks to the leading sentinel).
pub open spec fn inv_row(tmpl: Seq<bool>, pos: int, emitted: Seq<bool>) -> bool {
    &&& 0 <= pos < tmpl.len()
    &&& filled_runs(emitted) == filled_runs(tmpl.subrange(1, pos + 1))
    &&& (if emitted.len() == 0 {
        tmpl[pos] == false
    } else {
        tmpl[pos] == emitted.last()
    })
}

/// A successful automaton step preserves the row invariant and the bound
/// that ties the unconsumed template to the columns left.
pub proof fn lemma_advance_inv(
    tmpl: Seq<bool>,
    pos: int,
    emitted: Seq<bool>,
    col: bool,
    remaining: int,
    new_pos: int,
)
    requires
        inv_row(tmpl, pos, emitted),
        advance_spec(tmpl, pos, col, remaining) == Some(new_pos),
        tmpl.len() - pos <= remaining + 3,
    ensures
        inv_row(tmpl, new_pos, emitted.push(col)),
        tmpl.len() - new_pos <= remaining + 2,
{
    let e2 = emitted.push(col);
    let pre = tmpl.subrange(1, pos + 1);
    lemma_runs_push(emitted, col);
    if tmpl[pos] {
        if pos == 0 {
            assert(pre =~= Seq::<bool>::empty());
            assert(filled_runs(Seq::<bool>::empty()) == Seq::<int>::empty());
            lemma_runs_last(emitted);
            assert(false);
        }
        assert(pre.last() == tmpl[pos]);
        assert(last_filled(pre));
        assert(last_filled(emitted));
        lemma_runs_push(pre, col);
        assert(tmpl.subrange(1, new_pos + 1) =~= pre.push(col));
    } else if col {
        assert(!last_filled(emitted));
        if pos == 0 {
            assert(pre =~= Seq::<bool>::empty());
        } else {
            assert(pre.last() == tmpl[pos]);
        }
        assert(!last_filled(pre));
        lemma_runs_push(pre, col);
        assert(tmpl.subrange(1, new_pos + 1) =~= pre.push(col));
    } else {
    }
}

/// At the end of the scan a surviving offset has consumed the whole
/// template except at most the trailing sentinel, so the emitted cells
/// carry exactly the runs of the template's interior.
pub proof fn lemma_accept_inv(tmpl: Seq<bool>, pos: int, emitted: Seq<bool>)
    requires
        inv_row(tmpl, pos, emitted),
        tmpl.len() >= 2,
        tmpl[tmpl.len() - 1] == false,
        tmpl.len() - pos <= 2,
    ensures
        filled_runs(emitted) == filled_runs(tmpl.subrange(1, tmpl.len() - 1)),
{
    let inner = tmpl.subrange(1, tmpl.len() - 1);
    if pos == tmpl.len() - 1 {
        lemma_runs_push(inner, false);
        assert(tmpl.subrange(1, pos + 1) =~= inner.push(false));
    } else {
        assert(tmpl.subrange(1, pos + 1) =~= inner);
    }
}

} // verus!
