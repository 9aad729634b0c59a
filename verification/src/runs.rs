use vstd::prelude::*;

verus! {

/// Total number of cells in a sequence of counts.
pub open spec fn sum_seq(s: Seq<usize>) -> int
    decreases s.len(),
{
    if s.len() == 0 {
        0
    } else {
        s[0] + sum_seq(s.drop_first())
    }
}

pub proof fn lemma_sum_nonneg(s: Seq<usize>)
    ensures
        sum_seq(s) >= 0,
    decreases s.len(),
{
    if s.len() > 0 {
        lemma_sum_nonneg(s.drop_first());
    }
}

pub proof fn lemma_sum_elem(s: Seq<usize>, i: int)
    requires
        0 <= i < s.len(),
    ensures
        s[i] <= sum_seq(s),
    decreases i,
{
    if i == 0 {
        lemma_sum_nonneg(s.drop_first());
    } else {
        lemma_sum_elem(s.drop_first(), i - 1);
    }
}

pub proof fn lemma_sum_pair(s: Seq<usize>, i: int, j: int)
    requires
        0 <= i < j < s.len(),
    ensures
        s[i] + s[j] <= sum_seq(s),
    decreases i,
{
    if i == 0 {
        lemma_sum_elem(s.drop_first(), j - 1);
    } else {
        lemma_sum_pair(s.drop_first(), i - 1, j - 1);
    }
}

pub proof fn lemma_sum_update(s: Seq<usize>, i: int, v: usize)
    requires
        0 <= i < s.len(),
    ensures
        sum_seq(s.update(i, v)) == sum_seq(s) - s[i] + v,
    decreases i,
{
    if i == 0 {
        assert(s.update(0, v).drop_first() =~= s.drop_first());
    } else {
        assert(s.update(i, v).drop_first() =~= s.drop_first().update(i - 1, v));
        lemma_sum_update(s.drop_first(), i - 1, v);
    }
}

pub proof fn lemma_sum_split(s: Seq<usize>, i: int)
    requires
        0 <= i <= s.len(),
    ensures
        sum_seq(s) == sum_seq(s.take(i)) + sum_seq(s.skip(i)),
    decreases i,
{
    if i == 0 {
        assert(s.take(0) =~= Seq::empty());
        assert(s.skip(0) =~= s);
    } else {
        assert(s.take(i).drop_first() =~= s.drop_first().take(i - 1));
        assert(s.skip(i) =~= s.drop_first().skip(i - 1));
        lemma_sum_split(s.drop_first(), i - 1);
    }
}

pub proof fn lemma_sum_take_step(s: Seq<usize>, i: int)
    requires
        0 <= i < s.len(),
    ensures
        sum_seq(s.take(i + 1)) == sum_seq(s.take(i)) + s[i],
    decreases i,
{
    if i == 0 {
        assert(s.take(1).drop_first() =~= Seq::empty());
        assert(s.take(0) =~= Seq::empty());
    } else {
        assert(s.take(i + 1).drop_first() =~= s.drop_first().take(i));
        assert(s.take(i).drop_first() =~= s.drop_first().take(i - 1));
        lemma_sum_take_step(s.drop_first(), i - 1);
    }
}

pub proof fn lemma_sum_push(s: Seq<usize>, v: usize)
    ensures
        sum_seq(s.push(v)) == sum_seq(s) + v,
    decreases s.len(),
{
    if s.len() == 0 {
        assert(s.push(v).drop_first() =~= Seq::<usize>::empty());
        assert(sum_seq(Seq::<usize>::empty()) == 0);
        assert(s.push(v)[0] == v);
    } else {
        assert(s.push(v).drop_first() =~= s.drop_first().push(v));
        lemma_sum_push(s.drop_first(), v);
    }
}

/// The counts of a line, seen as mathematical integers.
pub open spec fn ints_of(s: Seq<usize>) -> Seq<int> {
    Seq::new(s.len(), |i: int| s[i] as int)
}

/// Run-length decomposition of a line: the lengths of the maximal runs of
/// filled (`true`) cells, in order.
pub open spec fn filled_runs(s: Seq<bool>) -> Seq<int>
    decreases s.len(),
{
    if s.len() == 0 {
        Seq::empty()
    } else {
        let r = filled_runs(s.drop_last());
        if !s.last() {
            r
        } else if s.len() >= 2 && s[s.len() - 2] {
            r.update(r.len() - 1, r[r.len() - 1] + 1)
        } else {
            r.push(1)
        }
    }
}

/// Whether the line ends in a filled cell, i.e. its last run is still open.
pub open spec fn last_filled(s: Seq<bool>) -> bool {
    s.len() > 0 && s.last()
}

/// A line ending in a filled cell has a last run, of positive length.
pub proof fn lemma_runs_last(s: Seq<bool>)
    requires
        last_filled(s),
    ensures
        filled_runs(s).len() >= 1,
        filled_runs(s).last() >= 1,
    decreases s.len(),
{
    if s.len() >= 2 && s[s.len() - 2] {
        lemma_runs_last(s.drop_last());
    }
}

/// How one appended cell changes the run decomposition: an empty cell
/// changes nothing, a filled cell extends the open run or starts a new one.
pub proof fn lemma_runs_push(s: Seq<bool>, c: bool)
    ensures
        !c ==> filled_runs(s.push(c)) == filled_runs(s),
        c && last_filled(s) ==> filled_runs(s.push(c)) == filled_runs(s).update(
            filled_runs(s).len() - 1,
            filled_runs(s).last() + 1,
        ),
        c && !last_filled(s) ==> filled_runs(s.push(c)) == filled_runs(s).push(1),
{
    let t = s.push(c);
    assert(t.drop_last() =~= s);
    assert(t.last() == c);
    if s.len() > 0 {
        assert(t[t.len() - 2] == s.last());
    }
}

/// Index of the first nonzero entry, or the length if every entry is zero.
pub open spec fn first_nonzero(s: Seq<usize>) -> int
    decreases s.len(),
{
    if s.len() == 0 {
        0
    } else if s[0] > 0 {
        0
    } else {
        1 + first_nonzero(s.drop_first())
    }
}

pub proof fn lemma_first_nonzero_at(s: Seq<usize>, i: int)
    requires
        0 <= i <= s.len(),
        forall|j: int| 0 <= j < i ==> #[trigger] s[j] == 0,
        i < s.len() ==> s[i] > 0,
    ensures
        first_nonzero(s) == i,
    decreases i,
{
    if i > 0 {
        lemma_first_nonzero_at(s.drop_first(), i - 1);
    }
}

/// The successor of a space distribution under the enumerator's step, or
/// `None` when the enumeration is exhausted: while uncommitted slack
/// remains, one more unit is parked in front of the first block; otherwise
/// the first committed unit is carried one block to the right, and when
/// even that is impossible the enumeration ends.
pub open spec fn successor_spaces(s: Seq<usize>, n_space: int) -> Option<Seq<usize>> {
    if s.len() == 0 {
        None
    } else if sum_seq(s) < n_space {
        Some(s.update(0, (s[0] + 1) as usize))
    } else if first_nonzero(s) + 1 < s.len() {
        Some(
            s.update(first_nonzero(s), 0usize).update(
                first_nonzero(s) + 1,
                (s[first_nonzero(s) + 1] + 1) as usize,
            ),
        )
    } else {
        None
    }
}

/// A leading empty cell does not contribute to the run decomposition.
pub proof fn lemma_runs_skip_first_false(s: Seq<bool>)
    requires
        s.len() >= 1,
        !s[0],
    ensures
        filled_runs(s) == filled_runs(s.drop_first()),
    decreases s.len(),
{
    if s.len() == 1 {
        assert(s.drop_first() =~= Seq::<bool>::empty());
        assert(s.drop_last() =~= Seq::<bool>::empty());
        assert(filled_runs(Seq::<bool>::empty()) == Seq::<int>::empty());
    } else {
        let t = s.drop_first();
        assert(t.drop_last() =~= s.drop_last().drop_first());
        lemma_runs_skip_first_false(s.drop_last());
        assert(t.last() == s.last());
        if t.len() >= 2 {
            assert(t[t.len() - 2] == s[s.len() - 2]);
        } else {
            assert(s.drop_last().drop_first() =~= Seq::<bool>::empty());
            assert(filled_runs(Seq::<bool>::empty()) == Seq::<int>::empty());
            assert(!s[s.len() - 2]);
            assert(filled_runs(s.drop_last()) == Seq::<int>::empty());
            assert(t.drop_last() =~= Seq::<bool>::empty());
        }
    }
}

/// `n` copies of one cell value (none for a negative count).
pub open spec fn repeat_cell(c: bool, n: int) -> Seq<bool> {
    Seq::new(
        if n >= 0 {
            n as nat
        } else {
            0
        },
        |i: int| c,
    )
}

/// The placement a space distribution stands for, from block `i` on: each
/// block's optional gap (plus the mandatory separator for every block but
/// the first), then its filled run.
pub open spec fn materialize_from(blocks: Seq<usize>, spaces: Seq<usize>, i: int) -> Seq<bool>
    decreases blocks.len() - i,
{
    if i < 0 || i >= blocks.len() {
        Seq::empty()
    } else {
        repeat_cell(
            false,
            spaces[i] + if i == 0 {
                0int
            } else {
                1int
            },
        ) + repeat_cell(true, blocks[i] as int) + materialize_from(blocks, spaces, i + 1)
    }
}

/// The whole placement: every block with its gap, then the uncommitted
/// slack as trailing empty cells.
pub open spec fn materialize(blocks: Seq<usize>, spaces: Seq<usize>, n_remain: int) -> Seq<bool> {
    materialize_from(blocks, spaces, 0) + repeat_cell(false, n_remain)
}

/// Past the first block, materialization does not care which block is
/// which: dropping the first block and its space count shifts the index.
pub proof fn lemma_materialize_from_shift(blocks: Seq<usize>, spaces: Seq<usize>, i: int)
    requires
        2 <= i,
        spaces.len() == blocks.len(),
        blocks.len() >= 1,
    ensures
        materialize_from(blocks, spaces, i) == materialize_from(
            blocks.drop_first(),
            spaces.drop_first(),
            i - 1,
        ),
    decreases blocks.len() - i,
{
    if i < blocks.len() {
        lemma_materialize_from_shift(blocks, spaces, i + 1);
        assert(materialize_from(blocks, spaces, i) =~= materialize_from(
            blocks.drop_first(),
            spaces.drop_first(),
            i - 1,
        ));
    }
}

/// The part of a placement past the first block is the placement of the
/// remaining blocks, behind one mandatory separator.
pub proof fn lemma_materialize_tail(blocks: Seq<usize>, spaces: Seq<usize>)
    requires
        spaces.len() == blocks.len(),
        blocks.len() >= 2,
    ensures
        materialize_from(blocks, spaces, 1) == seq![false] + materialize_from(
            blocks.drop_first(),
            spaces.drop_first(),
            0,
        ),
{
    lemma_materialize_from_shift(blocks, spaces, 2);
    assert(materialize_from(blocks, spaces, 1) =~= seq![false] + materialize_from(
        blocks.drop_first(),
        spaces.drop_first(),
        0,
    ));
}

/// A placement opens with exactly its first space count of empty cells:
/// the first block's run starts right after them.
pub proof fn lemma_materialize_leading(blocks: Seq<usize>, s: Seq<usize>, r: int)
    requires
        blocks.len() >= 1,
        blocks[0] >= 1,
        s.len() == blocks.len(),
        r >= 0,
    ensures
        materialize(blocks, s, r).len() > s[0],
        forall|j: int| 0 <= j < s[0] ==> !(#[trigger] materialize(blocks, s, r)[j]),
        materialize(blocks, s, r)[s[0] as int],
{
    let m = materialize(blocks, s, r);
    let head = repeat_cell(false, s[0] as int);
    let run = repeat_cell(true, blocks[0] as int);
    let rest = materialize_from(blocks, s, 1);
    assert(m =~= head + run + rest + repeat_cell(false, r));
    assert(m[s[0] as int] == run[0]);
}

/// Materialization is one to one: distinct space distributions place some
/// cell differently.
pub proof fn lemma_materialize_injective(
    blocks: Seq<usize>,
    s1: Seq<usize>,
    s2: Seq<usize>,
    r1: int,
    r2: int,
)
    requires
        blocks.len() >= 1,
        forall|i: int| 0 <= i < blocks.len() ==> #[trigger] blocks[i] >= 1,
        s1.len() == blocks.len(),
        s2.len() == blocks.len(),
        r1 >= 0,
        r2 >= 0,
        materialize(blocks, s1, r1) == materialize(blocks, s2, r2),
    ensures
        s1 == s2,
    decreases blocks.len(),
{
    let m1 = materialize(blocks, s1, r1);
    let m2 = materialize(blocks, s2, r2);
    lemma_materialize_leading(blocks, s1, r1);
    lemma_materialize_leading(blocks, s2, r2);
    assert(s1[0] == s2[0]) by {
        if s1[0] < s2[0] {
            assert(m1[s1[0] as int]);
            assert(!m2[s1[0] as int]);
        }
        if s2[0] < s1[0] {
            assert(m2[s2[0] as int]);
            assert(!m1[s2[0] as int]);
        }
    }
    if blocks.len() == 1 {
        assert(s1 =~= s2);
    } else {
        let cut = s1[0] + blocks[0];
        assert(m1.skip(cut) =~= materialize_from(blocks, s1, 1) + repeat_cell(false, r1));
        assert(m2.skip(cut) =~= materialize_from(blocks, s2, 1) + repeat_cell(false, r2));
        lemma_materialize_tail(blocks, s1);
        lemma_materialize_tail(blocks, s2);
        assert(m1.skip(cut).skip(1) =~= materialize(blocks.drop_first(), s1.drop_first(), r1));
        assert(m2.skip(cut).skip(1) =~= materialize(blocks.drop_first(), s2.drop_first(), r2));
        lemma_materialize_injective(
            blocks.drop_first(),
            s1.drop_first(),
            s2.drop_first(),
            r1,
            r2,
        );
        assert forall|idx: int| 0 <= idx < s1.len() implies s1[idx] == s2[idx] by {
            if idx > 0 {
                assert(s1[idx] == s1.drop_first()[idx - 1]);
                assert(s2[idx] == s2.drop_first()[idx - 1]);
            }
        }
        assert(s1 =~= s2);
    }
}

/// Base for the positional measure: one more than the largest count a
/// distribution entry can take.
pub open spec fn pow_int(b: int, e: nat) -> int
    decreases e,
{
    if e == 0 {
        1
    } else {
        b * pow_int(b, (e - 1) as nat)
    }
}

pub proof fn lemma_pow_int_pos(b: int, e: nat)
    requires
        b >= 1,
    ensures
        pow_int(b, e) >= 1,
    decreases e,
{
    if e > 0 {
        lemma_pow_int_pos(b, (e - 1) as nat);
        assert(b * pow_int(b, (e - 1) as nat) >= 1) by (nonlinear_arith)
            requires
                b >= 1,
                pow_int(b, (e - 1) as nat) >= 1,
        ;
    }
}

/// Positional rank of a space-distribution vector, radix `b`, least
/// significant digit first.  The enumerator's successor step strictly
/// increases it, which bounds the number of placements it can yield.
pub open spec fn phi(s: Seq<usize>, b: int) -> int
    decreases s.len(),
{
    if s.len() == 0 {
        0
    } else {
        s[0] + b * phi(s.drop_first(), b)
    }
}

pub proof fn lemma_phi_nonneg(s: Seq<usize>, b: int)
    requires
        b >= 1,
    ensures
        phi(s, b) >= 0,
    decreases s.len(),
{
    if s.len() > 0 {
        lemma_phi_nonneg(s.drop_first(), b);
        assert(b * phi(s.drop_first(), b) >= 0) by (nonlinear_arith)
            requires
                b >= 1,
                phi(s.drop_first(), b) >= 0,
        ;
    }
}

pub proof fn lemma_phi_update_first(s: Seq<usize>, b: int, v: usize)
    requires
        s.len() >= 1,
    ensures
        phi(s.update(0, v), b) == phi(s, b) - s[0] + v,
{
    assert(s.update(0, v).drop_first() =~= s.drop_first());
}

/// Carrying one committed unit one digit to the right strictly increases
/// the rank, as long as every digit is below the radix.
pub proof fn lemma_phi_carry(s: Seq<usize>, b: int, i: int)
    requires
        0 <= i,
        i + 1 < s.len(),
        s[i + 1] + 1 <= usize::MAX,
        forall|j: int| 0 <= j < s.len() ==> s[j] < b,
    ensures
        phi(s.update(i, 0).update(i + 1, (s[i + 1] + 1) as usize), b) >= phi(s, b) + 1,
    decreases i,
{
    let s2 = s.update(i, 0).update(i + 1, (s[i + 1] + 1) as usize);
    if i == 0 {
        let df = s.drop_first();
        assert(s2.drop_first() =~= df.update(0, (s[1] + 1) as usize));
        lemma_phi_update_first(df, b, (s[1] + 1) as usize);
        assert(phi(s2.drop_first(), b) == phi(df, b) + 1);
        assert(b * (phi(df, b) + 1) == b * phi(df, b) + b) by (nonlinear_arith);
        assert(phi(s2, b) == 0 + b * phi(df, b) + b);
        assert(s[0] < b);
    } else {
        let df = s.drop_first();
        let df2 = df.update(i - 1, 0).update(i, (df[i] + 1) as usize);
        assert(s2.drop_first() =~= df2);
        lemma_phi_carry(df, b, i - 1);
        assert(phi(df2, b) >= phi(df, b) + 1);
        assert(b * phi(df2, b) >= b * phi(df, b) + b) by (nonlinear_arith)
            requires
                b >= 1,
                phi(df2, b) >= phi(df, b) + 1,
        ;
        assert(s2[0] == s[0]);
    }
}

pub proof fn lemma_sum_last(s: Seq<usize>)
    requires
        s.len() >= 1,
    ensures
        sum_seq(s) == sum_seq(s.drop_last()) + s.last(),
{
    assert(s.drop_last().push(s.last()) =~= s);
    lemma_sum_push(s.drop_last(), s.last());
}

pub proof fn lemma_phi_zero(s: Seq<usize>, b: int)
    requires
        forall|j: int| 0 <= j < s.len() ==> #[trigger] s[j] == 0,
    ensures
        phi(s, b) == 0,
    decreases s.len(),
{
    if s.len() > 0 {
        lemma_phi_zero(s.drop_first(), b);
    }
}

/// The rank splits off its most significant digit.
pub proof fn lemma_phi_split_last(s: Seq<usize>, b: int)
    requires
        s.len() >= 1,
    ensures
        phi(s, b) == phi(s.drop_last(), b) + s.last() * pow_int(b, (s.len() - 1) as nat),
    decreases s.len(),
{
    if s.len() == 1 {
        assert(s.drop_last() =~= Seq::<usize>::empty());
        assert(s.drop_first() =~= Seq::<usize>::empty());
        assert(phi(Seq::<usize>::empty(), b) == 0);
        assert(pow_int(b, 0) == 1);
        assert(phi(s, b) == s[0]);
        assert(s.last() == s[0]);
    } else {
        let df = s.drop_first();
        lemma_phi_split_last(df, b);
        assert(df.drop_last() =~= s.drop_last().drop_first());
        assert(df.last() == s.last());
        let p = pow_int(b, (s.len() - 2) as nat);
        assert(pow_int(b, (s.len() - 1) as nat) == b * p);
        assert(phi(df, b) == phi(df.drop_last(), b) + s.last() * p);
        assert(phi(s, b) == s[0] + b * phi(df, b));
        assert(phi(s.drop_last(), b) == s[0] + b * phi(df.drop_last(), b));
        assert(b * (phi(df.drop_last(), b) + s.last() * p) == b * phi(df.drop_last(), b)
            + s.last() * (b * p)) by (nonlinear_arith);
    }
}

/// The rank never exceeds the total mass placed at the top digit.
pub proof fn lemma_phi_sum_bound(s: Seq<usize>, b: int)
    requires
        b >= 1,
        s.len() >= 1,
    ensures
        phi(s, b) <= sum_seq(s) * pow_int(b, (s.len() - 1) as nat),
    decreases s.len(),
{
    let p = pow_int(b, (s.len() - 1) as nat);
    lemma_pow_int_pos(b, (s.len() - 1) as nat);
    if s.len() == 1 {
        assert(s.drop_first() =~= Seq::<usize>::empty());
        assert(phi(Seq::<usize>::empty(), b) == 0);
        assert(sum_seq(Seq::<usize>::empty()) == 0);
        assert(phi(s, b) == s[0]);
        assert(sum_seq(s) == s[0]);
        assert(pow_int(b, 0) == 1);
        assert(sum_seq(s) * 1 == sum_seq(s)) by (nonlinear_arith);
    } else {
        let df = s.drop_first();
        let p2 = pow_int(b, (df.len() - 1) as nat);
        lemma_phi_sum_bound(df, b);
        lemma_sum_nonneg(df);
        lemma_pow_int_pos(b, (df.len() - 1) as nat);
        assert(p == b * p2);
        assert(b * phi(df, b) <= sum_seq(df) * (b * p2)) by (nonlinear_arith)
            requires
                b >= 1,
                phi(df, b) <= sum_seq(df) * p2,
                sum_seq(df) >= 0,
                p2 >= 1,
        ;
        assert(phi(s, b) == s[0] + b * phi(df, b));
        assert(sum_seq(df) * (b * p2) == sum_seq(df) * p) by (nonlinear_arith)
            requires
                b * p2 == p,
        ;
        assert(s[0] + sum_seq(df) * p <= (s[0] + sum_seq(df)) * p) by (nonlinear_arith)
            requires
                p >= 1,
                s[0] >= 0,
                sum_seq(df) >= 0,
        ;
        assert(sum_seq(s) == s[0] + sum_seq(df));
        assert((s[0] + sum_seq(df)) * p == sum_seq(s) * p) by (nonlinear_arith)
            requires
                sum_seq(s) == s[0] + sum_seq(df),
        ;
    }
}

/// The rank determines the digits.
pub proof fn lemma_phi_inj(s: Seq<usize>, t: Seq<usize>, b: int)
    requires
        s.len() == t.len(),
        forall|j: int| 0 <= j < s.len() ==> #[trigger] s[j] < b,
        forall|j: int| 0 <= j < t.len() ==> #[trigger] t[j] < b,
        phi(s, b) == phi(t, b),
    ensures
        s == t,
    decreases s.len(),
{
    if s.len() == 0 {
        assert(s =~= t);
    } else {
        let x = phi(s.drop_first(), b);
        let y = phi(t.drop_first(), b);
        lemma_phi_nonneg(s.drop_first(), b);
        lemma_phi_nonneg(t.drop_first(), b);
        assert(s[0] == t[0] && x == y) by (nonlinear_arith)
            requires
                s[0] + b * x == t[0] + b * y,
                0 <= s[0] < b,
                0 <= t[0] < b,
                x >= 0,
                y >= 0,
        ;
        lemma_phi_inj(s.drop_first(), t.drop_first(), b);
        assert forall|idx: int| 0 <= idx < s.len() implies s[idx] == t[idx] by {
            if idx > 0 {
                assert(s[idx] == s.drop_first()[idx - 1]);
                assert(t[idx] == t.drop_first()[idx - 1]);
            }
        }
        assert(s =~= t);
    }
}

pub proof fn lemma_sum_zero(s: Seq<usize>)
    requires
        forall|j: int| 0 <= j < s.len() ==> #[trigger] s[j] == 0,
    ensures
        sum_seq(s) == 0,
    decreases s.len(),
{
    if s.len() > 0 {
        lemma_sum_zero(s.drop_first());
    }
}

pub proof fn lemma_first_nonzero_prefix(s: Seq<usize>)
    ensures
        0 <= first_nonzero(s) <= s.len(),
        forall|j: int| 0 <= j < first_nonzero(s) ==> #[trigger] s[j] == 0,
        first_nonzero(s) < s.len() ==> s[first_nonzero(s)] > 0,
    decreases s.len(),
{
    if s.len() > 0 && s[0] == 0 {
        lemma_first_nonzero_prefix(s.drop_first());
        assert forall|j: int| 0 <= j < first_nonzero(s) implies #[trigger] s[j] == 0 by {
            if j > 0 {
                assert(s[j] == s.drop_first()[j - 1]);
            }
        }
    }
}

/// A line with no runs at all has no filled cell.
pub proof fn lemma_runs_empty_all_false(v: Seq<bool>)
    requires
        filled_runs(v) == Seq::<int>::empty(),
    ensures
        forall|j: int| 0 <= j < v.len() ==> !(#[trigger] v[j]),
    decreases v.len(),
{
    if v.len() > 0 {
        if v.last() {
            lemma_runs_last(v);
            assert(false);
        }
        lemma_runs_empty_all_false(v.drop_last());
        assert forall|j: int| 0 <= j < v.len() implies !(#[trigger] v[j]) by {
            if j < v.len() - 1 {
                assert(v[j] == v.drop_last()[j]);
            }
        }
    }
}

/// One more trailing empty cell is one more unit of uncommitted slack.
pub proof fn lemma_materialize_push_false(blocks: Seq<usize>, t: Seq<usize>, r: int)
    requires
        r >= 0,
    ensures
        materialize(blocks, t, r).push(false) == materialize(blocks, t, r + 1),
{
    assert(materialize(blocks, t, r).push(false) =~= materialize(blocks, t, r + 1));
}

/// With no uncommitted slack a placement ends inside its last run; with
/// some it ends on an empty cell.
pub proof fn lemma_materialize_last(blocks: Seq<usize>, t: Seq<usize>, r: int)
    requires
        blocks.len() >= 1,
        forall|i: int| 0 <= i < blocks.len() ==> #[trigger] blocks[i] >= 1,
        r >= 0,
    ensures
        materialize(blocks, t, r).len() >= 1,
        r == 0 ==> materialize(blocks, t, r).last(),
        r >= 1 ==> !materialize(blocks, t, r).last(),
{
    lemma_materialize_from_last(blocks, t, 0);
    let m = materialize(blocks, t, r);
    let f = materialize_from(blocks, t, 0);
    if r == 0 {
        assert(m =~= f);
    } else {
        assert(m.last() == repeat_cell(false, r)[r - 1]);
    }
}

/// Every segment suffix of a placement ends with the last block's last
/// filled cell.
pub proof fn lemma_materialize_from_last(blocks: Seq<usize>, t: Seq<usize>, i: int)
    requires
        0 <= i < blocks.len(),
        forall|j: int| 0 <= j < blocks.len() ==> #[trigger] blocks[j] >= 1,
    ensures
        materialize_from(blocks, t, i).len() >= 1,
        materialize_from(blocks, t, i).last(),
    decreases blocks.len() - i,
{
    if i + 1 < blocks.len() {
        lemma_materialize_from_last(blocks, t, i + 1);
    } else {
        assert(materialize_from(blocks, t, i + 1) =~= Seq::<bool>::empty());
        let run = repeat_cell(true, blocks[i] as int);
        assert(materialize_from(blocks, t, i).last() == run[blocks[i] - 1]);
    }
}

/// Extending the last block by one cell appends one filled cell to the
/// slack-free placement.
pub proof fn lemma_materialize_grow_last(blocks: Seq<usize>, t: Seq<usize>, i: int)
    requires
        0 <= i < blocks.len(),
        forall|j: int| 0 <= j < blocks.len() ==> #[trigger] blocks[j] >= 1,
        blocks[blocks.len() - 1] + 1 <= usize::MAX,
    ensures
        materialize_from(
            blocks.update(blocks.len() - 1, (blocks[blocks.len() - 1] + 1) as usize),
            t,
            i,
        ) == materialize_from(blocks, t, i).push(true),
    decreases blocks.len() - i,
{
    let blocks2 = blocks.update(blocks.len() - 1, (blocks[blocks.len() - 1] + 1) as usize);
    if i + 1 < blocks.len() {
        lemma_materialize_grow_last(blocks, t, i + 1);
        assert(materialize_from(blocks2, t, i) =~= materialize_from(blocks, t, i).push(true));
    } else {
        assert(materialize_from(blocks2, t, i + 1) =~= Seq::<bool>::empty());
        assert(materialize_from(blocks, t, i + 1) =~= Seq::<bool>::empty());
        assert(materialize_from(blocks2, t, i) =~= materialize_from(blocks, t, i).push(true));
    }
}

/// Appending a one-cell block turns the uncommitted slack into that
/// block's separator and gap, plus its filled cell.
pub proof fn lemma_materialize_new_block(blocks: Seq<usize>, t: Seq<usize>, g: int)
    requires
        blocks.len() >= 1,
        t.len() == blocks.len(),
        0 <= g <= usize::MAX,
    ensures
        materialize(blocks.push(1usize), t.push(g as usize), 0) == materialize(
            blocks,
            t,
            g + 1,
        ).push(true),
{
    lemma_materialize_new_block_from(blocks, t, g, 0);
    assert(materialize(blocks.push(1usize), t.push(g as usize), 0) =~= materialize_from(
        blocks.push(1usize),
        t.push(g as usize),
        0,
    ));
    assert(materialize(blocks, t, g + 1).push(true) =~= materialize_from(blocks, t, 0)
        + repeat_cell(false, g + 1) + seq![true]);
}

pub proof fn lemma_materialize_new_block_from(blocks: Seq<usize>, t: Seq<usize>, g: int, i: int)
    requires
        blocks.len() >= 1,
        t.len() == blocks.len(),
        0 <= g <= usize::MAX,
        0 <= i <= blocks.len(),
    ensures
        materialize_from(blocks.push(1usize), t.push(g as usize), i) == materialize_from(
            blocks,
            t,
            i,
        ) + repeat_cell(false, g + 1) + seq![true],
    decreases blocks.len() - i,
{
    let b2 = blocks.push(1usize);
    let t2 = t.push(g as usize);
    if i < blocks.len() {
        lemma_materialize_new_block_from(blocks, t, g, i + 1);
        assert(materialize_from(b2, t2, i) =~= materialize_from(blocks, t, i) + repeat_cell(
            false,
            g + 1,
        ) + seq![true]);
    } else {
        assert(materialize_from(blocks, t, i) =~= Seq::<bool>::empty());
        assert(materialize_from(b2, t2, i + 1) =~= Seq::<bool>::empty());
        assert(materialize_from(b2, t2, i) =~= materialize_from(blocks, t, i) + repeat_cell(
            false,
            g + 1,
        ) + seq![true]);
    }
}

/// Every line whose run decomposition is exactly `blocks` is the
/// materialization of some space distribution within the line's slack:
/// materialization is onto the valid placements.
pub proof fn lemma_runs_to_spaces(blocks: Seq<usize>, v: Seq<bool>)
    requires
        blocks.len() >= 1,
        forall|i: int| 0 <= i < blocks.len() ==> #[trigger] blocks[i] >= 1,
        filled_runs(v) == ints_of(blocks),
        v.len() <= usize::MAX,
    ensures
        exists|t: Seq<usize>|
            t.len() == blocks.len() && sum_seq(t) + blocks.len() - 1 + sum_seq(blocks) <= v.len()
                && v == materialize(
                blocks,
                t,
                v.len() - (sum_seq(t) + blocks.len() - 1 + sum_seq(blocks)),
            ),
    decreases v.len(),
{
    let k = blocks.len() as int;
    let sumb = sum_seq(blocks);
    let rv = filled_runs(v);
    if v.len() == 0 {
        assert(rv.len() == 0);
        assert(ints_of(blocks).len() == k);
        assert(false);
    } else {
        let w = v.drop_last();
        assert(w.push(v.last()) =~= v);
        lemma_runs_push(w, v.last());
        let rw = filled_runs(w);
        if !v.last() {
            lemma_runs_to_spaces(blocks, w);
            let t = choose|t: Seq<usize>|
                t.len() == blocks.len() && sum_seq(t) + blocks.len() - 1 + sum_seq(blocks)
                    <= w.len() && w == materialize(
                    blocks,
                    t,
                    w.len() - (sum_seq(t) + blocks.len() - 1 + sum_seq(blocks)),
                );
            let rem_w = w.len() - (sum_seq(t) + k - 1 + sumb);
            lemma_materialize_push_false(blocks, t, rem_w);
            assert(v == materialize(blocks, t, rem_w + 1));
            assert(v.len() - (sum_seq(t) + k - 1 + sumb) == rem_w + 1);
        } else if last_filled(w) {
            lemma_runs_last(w);
            assert(rv == rw.update(rw.len() - 1, rw.last() + 1));
            assert(rv.len() == ints_of(blocks).len());
            assert(ints_of(blocks).len() == blocks.len());
            assert(rv.len() == rw.update(rw.len() - 1, rw.last() + 1).len());
            assert(rw.len() == k);
            assert(blocks[k - 1] == rv[k - 1]);
            assert(rv[k - 1] == rw.last() + 1);
            assert(blocks[k - 1] >= 2);
            let blocks2 = blocks.update(k - 1, (blocks[k - 1] - 1) as usize);
            assert forall|i: int| 0 <= i < blocks2.len() implies #[trigger] blocks2[i] >= 1 by {
                if i < k - 1 {
                    assert(blocks2[i] == blocks[i]);
                }
            }
            assert forall|j: int| 0 <= j < k implies ints_of(blocks2)[j] == rw[j] by {
                if j < k - 1 {
                    assert(rv[j] == rw[j]);
                    assert(rv[j] == blocks[j]);
                    assert(blocks2[j] == blocks[j]);
                } else {
                    assert(blocks2[k - 1] == blocks[k - 1] - 1);
                    assert(rw[k - 1] == rw.last());
                }
            }
            assert(ints_of(blocks2) =~= rw);
            lemma_runs_to_spaces(blocks2, w);
            let t = choose|t: Seq<usize>|
                t.len() == blocks2.len() && sum_seq(t) + blocks2.len() - 1 + sum_seq(blocks2)
                    <= w.len() && w == materialize(
                    blocks2,
                    t,
                    w.len() - (sum_seq(t) + blocks2.len() - 1 + sum_seq(blocks2)),
                );
            lemma_sum_update(blocks, k - 1, (blocks[k - 1] - 1) as usize);
            assert(sum_seq(blocks2) == sumb - 1);
            let rem_w = w.len() - (sum_seq(t) + k - 1 + (sumb - 1));
            if rem_w != 0 {
                lemma_materialize_last(blocks2, t, rem_w);
                assert(false);
            }
            lemma_materialize_grow_last(blocks2, t, 0);
            assert(blocks2.update(k - 1, ((blocks[k - 1] - 1) + 1) as usize) =~= blocks);
            assert(materialize(blocks2, t, 0) =~= materialize_from(blocks2, t, 0));
            assert(materialize(blocks, t, 0) =~= materialize_from(blocks, t, 0));
            assert(v == materialize(blocks, t, 0));
            assert(v.len() - (sum_seq(t) + k - 1 + sumb) == 0);
        } else {
            assert(rv == rw.push(1));
            assert(rw.len() == k - 1);
            assert(blocks[k - 1] == rv[k - 1]);
            assert(blocks[k - 1] == 1);
            if k == 1 {
                assert(rw =~= Seq::<int>::empty());
                lemma_runs_empty_all_false(w);
                let t0 = seq![w.len() as usize];
                assert(t0.drop_first() =~= Seq::<usize>::empty());
                assert(sum_seq(Seq::<usize>::empty()) == 0);
                assert(t0[0] == w.len() as usize);
                assert(sum_seq(t0) == w.len());
                assert(blocks.drop_first() =~= Seq::<usize>::empty());
                assert(sum_seq(blocks) == blocks[0]);
                assert(materialize_from(blocks, t0, 1) =~= Seq::<bool>::empty());
                assert(v =~= materialize(blocks, t0, 0));
                assert(t0.len() == blocks.len() && sum_seq(t0) + blocks.len() - 1 + sum_seq(
                    blocks,
                ) <= v.len() && v == materialize(
                    blocks,
                    t0,
                    v.len() - (sum_seq(t0) + blocks.len() - 1 + sum_seq(blocks)),
                ));
            } else {
                let blocks2 = blocks.drop_last();
                assert forall|i: int| 0 <= i < blocks2.len() implies #[trigger] blocks2[i]
                    >= 1 by {
                    assert(blocks2[i] == blocks[i]);
                }
                assert forall|j: int| 0 <= j < k - 1 implies ints_of(blocks2)[j] == rw[j] by {
                    assert(rv[j] == rw[j]);
                    assert(rv[j] == blocks[j]);
                    assert(blocks2[j] == blocks[j]);
                }
                assert(ints_of(blocks2) =~= rw);
                lemma_runs_to_spaces(blocks2, w);
                let t2 = choose|t: Seq<usize>|
                    t.len() == blocks2.len() && sum_seq(t) + blocks2.len() - 1 + sum_seq(blocks2)
                        <= w.len() && w == materialize(
                        blocks2,
                        t,
                        w.len() - (sum_seq(t) + blocks2.len() - 1 + sum_seq(blocks2)),
                    );
                lemma_sum_last(blocks);
                assert(sum_seq(blocks2) == sumb - 1);
                let rem_w = w.len() - (sum_seq(t2) + (k - 1) - 1 + (sumb - 1));
                if rem_w == 0 {
                    lemma_materialize_last(blocks2, t2, 0);
                    assert(false);
                }
                let t = t2.push((rem_w - 1) as usize);
                lemma_sum_push(t2, (rem_w - 1) as usize);
                lemma_materialize_new_block(blocks2, t2, rem_w - 1);
                assert(blocks2.push(1usize) =~= blocks);
                assert(v == materialize(blocks, t, 0));
                assert(sum_seq(t) == sum_seq(t2) + rem_w - 1);
                assert(v.len() - (sum_seq(t) + k - 1 + sumb) == 0);
                assert(t.len() == blocks.len() && sum_seq(t) + blocks.len() - 1 + sum_seq(blocks)
                    <= v.len() && v == materialize(
                    blocks,
                    t,
                    v.len() - (sum_seq(t) + blocks.len() - 1 + sum_seq(blocks)),
                ));
            }
        }
    }
}

/// Carrying the first committed unit one digit to the right reaches the
/// least rank above the current one among vectors of no greater mass.
pub proof fn lemma_carry_least(s: Seq<usize>, t: Seq<usize>, b: int, i: int)
    requires
        0 <= i,
        i + 1 < s.len(),
        s.len() == t.len(),
        forall|j: int| 0 <= j < s.len() ==> #[trigger] s[j] < b,
        forall|j: int| 0 <= j < t.len() ==> #[trigger] t[j] < b,
        forall|j: int| 0 <= j < i ==> #[trigger] s[j] == 0,
        s[i] >= 1,
        s[i] + s[i + 1] < b,
        s[i + 1] + 1 <= usize::MAX,
        sum_seq(t) <= sum_seq(s),
        phi(t, b) > phi(s, b),
    ensures
        phi(t, b) >= phi(s.update(i, 0).update(i + 1, (s[i + 1] + 1) as usize), b),
    decreases s.len(),
{
    let k = s.len() as int;
    let s2 = s.update(i, 0).update(i + 1, (s[i + 1] + 1) as usize);
    let p = pow_int(b, (k - 1) as nat);
    let sd = s.drop_last();
    let td = t.drop_last();
    lemma_phi_split_last(s, b);
    lemma_phi_split_last(t, b);
    lemma_phi_split_last(s2, b);
    lemma_pow_int_pos(b, (k - 1) as nat);
    lemma_phi_nonneg(sd, b);
    lemma_phi_nonneg(td, b);
    if t.last() < s.last() {
        assert forall|j: int| 0 <= j < td.len() implies #[trigger] td[j] < b by {
            assert(td[j] == t[j]);
        }
        lemma_phi_bound(td, b);
        assert(phi(td, b) + t.last() * p < p + t.last() * p);
        assert(p + t.last() * p == (t.last() + 1) * p) by (nonlinear_arith);
        assert((t.last() + 1) * p <= s.last() * p) by (nonlinear_arith)
            requires
                t.last() + 1 <= s.last(),
                p >= 1,
        ;
        assert(false);
    } else if t.last() > s.last() {
        assert(phi(t, b) >= t.last() * p);
        if i + 1 < k - 1 {
            assert(s2.last() == s.last());
            assert forall|j: int| 0 <= j < s2.drop_last().len() implies #[trigger] s2.drop_last()[j]
                < b by {
                assert(s2.drop_last()[j] == s2[j]);
                if j != i && j != i + 1 {
                    assert(s2[j] == s[j]);
                }
            }
            lemma_phi_bound(s2.drop_last(), b);
            assert(phi(s2, b) < p + s.last() * p);
            assert(p + s.last() * p == (s.last() + 1) * p) by (nonlinear_arith);
            assert((s.last() + 1) * p <= t.last() * p) by (nonlinear_arith)
                requires
                    s.last() + 1 <= t.last(),
                    p >= 1,
            ;
        } else {
            assert(s2.last() == (s[i + 1] + 1) as usize);
            assert forall|j: int| 0 <= j < s2.drop_last().len() implies #[trigger] s2.drop_last()[j]
                == 0 by {
                assert(s2.drop_last()[j] == s2[j]);
            }
            lemma_phi_zero(s2.drop_last(), b);
            assert(phi(s2, b) == (s.last() + 1) * p);
            assert((s.last() + 1) * p <= t.last() * p) by (nonlinear_arith)
                requires
                    s.last() + 1 <= t.last(),
                    p >= 1,
            ;
        }
    } else {
        assert(phi(td, b) > phi(sd, b));
        lemma_sum_last(s);
        lemma_sum_last(t);
        assert(sum_seq(td) <= sum_seq(sd));
        if i + 1 == k - 1 {
            let p2 = pow_int(b, (k - 2) as nat);
            assert forall|j: int| 0 <= j < sd.len() - 1 implies #[trigger] sd.drop_last()[j]
                == 0 by {
                assert(sd.drop_last()[j] == s[j]);
            }
            lemma_phi_split_last(sd, b);
            lemma_phi_zero(sd.drop_last(), b);
            assert(sd.last() == s[i]);
            assert(phi(sd, b) == s[i] * p2);
            lemma_sum_last(sd);
            lemma_sum_zero(sd.drop_last());
            assert(sum_seq(sd) == s[i]);
            lemma_phi_sum_bound(td, b);
            lemma_pow_int_pos(b, (k - 2) as nat);
            assert(sum_seq(td) * p2 <= s[i] * p2) by (nonlinear_arith)
                requires
                    sum_seq(td) <= s[i],
                    p2 >= 1,
            ;
            assert(false);
        } else {
            assert forall|j: int| 0 <= j < sd.len() implies #[trigger] sd[j] < b by {
                assert(sd[j] == s[j]);
            }
            assert forall|j: int| 0 <= j < td.len() implies #[trigger] td[j] < b by {
                assert(td[j] == t[j]);
            }
            assert forall|j: int| 0 <= j < i implies #[trigger] sd[j] == 0 by {
                assert(sd[j] == s[j]);
            }
            assert(sd[i] == s[i] && sd[i + 1] == s[i + 1]);
            lemma_carry_least(sd, td, b, i);
            assert(sd.update(i, 0).update(i + 1, (sd[i + 1] + 1) as usize) =~= s2.drop_last());
            assert(s2.last() == s.last());
        }
    }
}

/// The successor step reaches the least rank above the current one among
/// the distributions the enumerator may ever hold.
pub proof fn lemma_successor_least(s: Seq<usize>, t: Seq<usize>, n_space: int)
    requires
        s.len() == t.len(),
        0 <= n_space <= usize::MAX,
        sum_seq(s) <= n_space,
        sum_seq(t) <= n_space,
        successor_spaces(s, n_space) is Some,
        phi(t, n_space + 1) > phi(s, n_space + 1),
    ensures
        phi(t, n_space + 1) >= phi(successor_spaces(s, n_space).unwrap(), n_space + 1),
{
    let b = n_space + 1;
    if sum_seq(s) < n_space {
        lemma_sum_elem(s, 0);
        lemma_phi_update_first(s, b, (s[0] + 1) as usize);
    } else {
        let i = first_nonzero(s);
        lemma_first_nonzero_prefix(s);
        assert forall|j: int| 0 <= j < s.len() implies #[trigger] s[j] < b by {
            lemma_sum_elem(s, j);
        }
        assert forall|j: int| 0 <= j < t.len() implies #[trigger] t[j] < b by {
            lemma_sum_elem(t, j);
        }
        lemma_sum_pair(s, i, i + 1);
        lemma_carry_least(s, t, b, i);
    }
}

/// Once the successor step has nothing left to do, the current
/// distribution has the greatest rank of all it may ever hold.
pub proof fn lemma_exhaust_max(s: Seq<usize>, t: Seq<usize>, n_space: int)
    requires
        s.len() == t.len(),
        0 <= n_space,
        sum_seq(s) <= n_space,
        sum_seq(t) <= n_space,
        successor_spaces(s, n_space) is None,
    ensures
        phi(t, n_space + 1) <= phi(s, n_space + 1),
{
    let b = n_space + 1;
    let k = s.len() as int;
    if k == 0 {
        assert(phi(t, b) == 0);
    } else {
        let i = first_nonzero(s);
        lemma_first_nonzero_prefix(s);
        assert(sum_seq(s) == n_space);
        assert(i + 1 >= k);
        let sd = s.drop_last();
        let p = pow_int(b, (k - 1) as nat);
        assert forall|j: int| 0 <= j < sd.len() implies #[trigger] sd[j] == 0 by {
            assert(sd[j] == s[j]);
        }
        lemma_phi_split_last(s, b);
        lemma_phi_zero(sd, b);
        lemma_sum_last(s);
        lemma_sum_zero(sd);
        assert(phi(s, b) == s.last() * p);
        assert(s.last() == n_space);
        lemma_phi_sum_bound(t, b);
        lemma_pow_int_pos(b, (k - 1) as nat);
        assert(sum_seq(t) * p <= n_space * p) by (nonlinear_arith)
            requires
                sum_seq(t) <= n_space,
                p >= 1,
        ;
    }
}

/// The rank of a vector whose digits are all below the radix is below
/// radix-to-the-length.
pub proof fn lemma_phi_bound(s: Seq<usize>, b: int)
    requires
        b >= 1,
        forall|j: int| 0 <= j < s.len() ==> s[j] < b,
    ensures
        phi(s, b) < pow_int(b, s.len() as nat),
    decreases s.len(),
{
    if s.len() > 0 {
        let df = s.drop_first();
        lemma_phi_bound(df, b);
        lemma_pow_int_pos(b, df.len() as nat);
        assert(b * phi(df, b) <= b * (pow_int(b, df.len() as nat) - 1)) by (nonlinear_arith)
            requires
                b >= 1,
                phi(df, b) <= pow_int(b, df.len() as nat) - 1,
        ;
        assert(b * (pow_int(b, df.len() as nat) - 1) == b * pow_int(b, df.len() as nat) - b)
            by (nonlinear_arith);
        assert(pow_int(b, s.len() as nat) == b * pow_int(b, df.len() as nat));
    }
}

} // verus!
