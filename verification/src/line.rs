use vstd::prelude::*;

use crate::runs::filled_runs;
use crate::runs::first_nonzero;
use crate::runs::ints_of;
use crate::runs::last_filled;
use crate::runs::lemma_first_nonzero_at;
use crate::runs::lemma_exhaust_max;
use crate::runs::lemma_materialize_injective;
use crate::runs::lemma_phi_inj;
use crate::runs::lemma_phi_zero;
use crate::runs::lemma_runs_empty_all_false;
use crate::runs::lemma_runs_to_spaces;
use crate::runs::lemma_successor_least;
use crate::runs::lemma_phi_bound;
use crate::runs::lemma_phi_carry;
use crate::runs::lemma_phi_nonneg;
use crate::runs::lemma_phi_update_first;
use crate::runs::lemma_runs_push;
use crate::runs::lemma_runs_skip_first_false;
use crate::runs::lemma_sum_elem;
use crate::runs::lemma_sum_nonneg;
use crate::runs::lemma_sum_pair;
use crate::runs::lemma_sum_push;
use crate::runs::lemma_sum_split;
use crate::runs::lemma_sum_take_step;
use crate::runs::lemma_sum_update;
use crate::runs::materialize;
use crate::runs::materialize_from;
use crate::runs::phi;
use crate::runs::pow_int;
use crate::runs::repeat_cell;
use crate::runs::successor_spaces;
use crate::runs::sum_seq;

verus! {

/// One line's constraint: the ordered filled-run lengths `block_sizes`, the
/// line length `size`, and the derived slack `n_space`.
pub struct BlockSpec {
    pub block_sizes: Vec<usize>,
    pub size: usize,
    pub n_space: usize,
}

impl BlockSpec {
    /// Well-formedness: every block is a real run (positive length) and
    /// `n_space` holds the slack, the optional empty cells left once every
    /// block and every mandatory separator is placed.  Being a `usize`, it
    /// carries the invariant that the slack is not negative.
    pub open spec fn wf(self) -> bool {
        &&& self.size < usize::MAX
        &&& forall|i: int| 0 <= i < self.block_sizes@.len() ==> #[trigger] self.block_sizes@[i] >= 1
        &&& self.n_space == self.size + 1 - self.block_sizes@.len() - sum_seq(self.block_sizes@)
    }

    /// Builds the spec for one line.  Returns `None` exactly when the blocks
    /// cannot fit the length even with zero slack, that is when
    /// `|B| + sum(B) > L + 1`.
    pub fn new(block_sizes: Vec<usize>, size: usize) -> (r: Option<BlockSpec>)
        requires
            size < usize::MAX,
            forall|i: int| 0 <= i < block_sizes@.len() ==> #[trigger] block_sizes@[i] >= 1,
        ensures
            match r {
                Some(bs) => {
                    &&& bs.block_sizes@ == block_sizes@
                    &&& bs.size == size
                    &&& bs.wf()
                },
                None => block_sizes@.len() + sum_seq(block_sizes@) > size + 1,
            },
    {
        let limit = size + 1;
        let mut need: usize = block_sizes.len();
        if need > limit {
            proof {
                lemma_sum_nonneg(block_sizes@);
            }
            return None;
        }
        let mut i: usize = 0;
        proof {
            assert(block_sizes@.take(0) =~= Seq::<usize>::empty());
        }
        while i < block_sizes.len()
            invariant
                0 <= i <= block_sizes@.len(),
                limit == size + 1,
                size < usize::MAX,
                need == block_sizes@.len() + sum_seq(block_sizes@.take(i as int)),
                need <= limit,
            decreases block_sizes@.len() - i,
        {
            let b = block_sizes[i];
            if b > limit - need {
                proof {
                    lemma_sum_split(block_sizes@, i as int);
                    assert(block_sizes@.skip(i as int).drop_first() =~= block_sizes@.skip(
                        i as int + 1,
                    ));
                    lemma_sum_nonneg(block_sizes@.skip(i as int + 1));
                }
                return None;
            }
            proof {
                lemma_sum_take_step(block_sizes@, i as int);
            }
            need = need + b;
            i = i + 1;
        }
        proof {
            assert(block_sizes@.take(block_sizes@.len() as int) =~= block_sizes@);
        }
        Some(BlockSpec { block_sizes, size, n_space: limit - need })
    }
}

/// Where the enumerator stands: before its first placement, on a placement,
/// or past its last one.
#[derive(PartialEq, Eq, Structural)]
pub enum ColumnConfigPhase {
    Starting,
    Running,
    Exhausted,
}

pub(crate) fn clone_usizes(v: &Vec<usize>) -> (r: Vec<usize>)
    ensures
        r@ == v@,
{
    let mut r: Vec<usize> = Vec::new();
    let mut i: usize = 0;
    while i < v.len()
        invariant
            0 <= i <= v@.len(),
            r@ == v@.take(i as int),
        decreases v@.len() - i,
    {
        proof {
            assert(v@.take(i as int + 1) =~= v@.take(i as int).push(v@[i as int]));
        }
        r.push(v[i]);
        i = i + 1;
    }
    proof {
        assert(v@.take(v@.len() as int) =~= v@);
    }
    r
}

/// Lazily enumerates every placement of one line spec.  `spaces[i]` is the
/// number of optional empty cells placed immediately before block `i`,
/// beyond the mandatory separator.
pub struct BlockSpecIterator {
    pub block_sizes: Vec<usize>,
    pub size: usize,
    pub n_space: usize,
    pub spaces: Vec<usize>,
    pub phase: ColumnConfigPhase,
}

impl BlockSpecIterator {
    /// The carried line spec is well formed, one space count stands before
    /// each block, and the optional spaces never exceed the slack.
    pub open spec fn wf(self) -> bool {
        &&& self.size < usize::MAX
        &&& forall|i: int| 0 <= i < self.block_sizes@.len() ==> #[trigger] self.block_sizes@[i] >= 1
        &&& self.n_space == self.size + 1 - self.block_sizes@.len() - sum_seq(self.block_sizes@)
        &&& self.spaces@.len() == self.block_sizes@.len()
        &&& sum_seq(self.spaces@) <= self.n_space
    }

    /// Positional rank of the current space distribution; every successor
    /// step strictly increases it.
    pub open spec fn rank(self) -> int {
        phi(self.spaces@, self.n_space + 1)
    }

    /// Strict upper bound on `rank` for every reachable distribution, hence
    /// a bound on how many placements the enumerator can still yield.
    pub open spec fn cap(self) -> int {
        pow_int(self.n_space + 1, self.spaces@.len() as nat)
    }

    /// Rank of the phase itself, for termination: it never increases, and
    /// leaving `Starting` decreases it.
    pub open spec fn phase_rank(self) -> int {
        match self.phase {
            ColumnConfigPhase::Starting => 2,
            ColumnConfigPhase::Running => 1,
            ColumnConfigPhase::Exhausted => 0,
        }
    }

    pub proof fn lemma_rank_bounds(self)
        requires
            self.wf(),
        ensures
            0 <= self.rank() < self.cap(),
    {
        let b = self.n_space + 1;
        lemma_phi_nonneg(self.spaces@, b);
        assert forall|j: int| 0 <= j < self.spaces@.len() implies self.spaces@[j] < b by {
            lemma_sum_elem(self.spaces@, j);
        }
        lemma_phi_bound(self.spaces@, b);
    }

    /// Fresh enumerator for `spec`, standing before the left-packed first
    /// placement (no optional space anywhere).
    pub fn new(spec: &BlockSpec) -> (r: BlockSpecIterator)
        requires
            spec.wf(),
        ensures
            r.wf(),
            r.block_sizes@ == spec.block_sizes@,
            r.size == spec.size,
            r.n_space == spec.n_space,
            r.phase == ColumnConfigPhase::Starting,
            sum_seq(r.spaces@) == 0,
    {
        let k = spec.block_sizes.len();
        let mut spaces: Vec<usize> = Vec::new();
        let mut i: usize = 0;
        while i < k
            invariant
                0 <= i <= k,
                spaces@.len() == i,
                sum_seq(spaces@) == 0,
            decreases k - i,
        {
            proof {
                lemma_sum_push(spaces@, 0);
            }
            spaces.push(0);
            i = i + 1;
        }
        let block_sizes = clone_usizes(&spec.block_sizes);
        BlockSpecIterator {
            block_sizes,
            size: spec.size,
            n_space: spec.n_space,
            spaces,
            phase: ColumnConfigPhase::Starting,
        }
    }

    /// Slack not yet committed to any gap: what will trail after the last
    /// block in the current placement.
    pub fn remaining_spaces(&self) -> (r: usize)
        requires
            self.wf(),
        ensures
            r == self.n_space - sum_seq(self.spaces@),
    {
        let mut acc: usize = 0;
        let mut i: usize = 0;
        proof {
            assert(self.spaces@.take(0) =~= Seq::<usize>::empty());
        }
        while i < self.spaces.len()
            invariant
                0 <= i <= self.spaces@.len(),
                acc == sum_seq(self.spaces@.take(i as int)),
                sum_seq(self.spaces@) <= self.n_space,
                self.n_space <= usize::MAX,
            decreases self.spaces@.len() - i,
        {
            proof {
                lemma_sum_take_step(self.spaces@, i as int);
                lemma_sum_split(self.spaces@, i as int + 1);
                lemma_sum_nonneg(self.spaces@.skip(i as int + 1));
            }
            acc = acc + self.spaces[i];
            i = i + 1;
        }
        proof {
            assert(self.spaces@.take(self.spaces@.len() as int) =~= self.spaces@);
        }
        self.n_space - acc
    }

    /// Successor step over the space distributions.  While uncommitted slack
    /// remains, one more unit is parked in front of the first block; once all
    /// slack is committed, the first committed unit is carried one block to
    /// the right; when even that is impossible the enumeration is exhausted.
    fn increment(&mut self)
        requires
            old(self).wf(),
            old(self).phase == ColumnConfigPhase::Running,
        ensures
            final(self).wf(),
            final(self).block_sizes@ == old(self).block_sizes@,
            final(self).size == old(self).size,
            final(self).n_space == old(self).n_space,
            old(self).spaces@.len() == 0 ==> final(self).phase == ColumnConfigPhase::Exhausted
                && final(self).spaces@ == old(self).spaces@,
            old(self).spaces@.len() > 0 && sum_seq(old(self).spaces@) < old(self).n_space ==> {
                &&& final(self).phase == ColumnConfigPhase::Running
                &&& final(self).spaces@ == old(self).spaces@.update(
                    0,
                    (old(self).spaces@[0] + 1) as usize,
                )
            },
            old(self).spaces@.len() > 0 && sum_seq(old(self).spaces@) == old(self).n_space
                && first_nonzero(old(self).spaces@) + 1 < old(self).spaces@.len() ==> {
                let i = first_nonzero(old(self).spaces@);
                &&& final(self).phase == ColumnConfigPhase::Running
                &&& final(self).spaces@ == old(self).spaces@.update(i, 0usize).update(
                    i + 1,
                    (old(self).spaces@[i + 1] + 1) as usize,
                )
            },
            old(self).spaces@.len() > 0 && sum_seq(old(self).spaces@) == old(self).n_space
                && first_nonzero(old(self).spaces@) + 1 >= old(self).spaces@.len() ==> {
                &&& final(self).phase == ColumnConfigPhase::Exhausted
                &&& final(self).spaces@ == old(self).spaces@
            },
            final(self).phase == ColumnConfigPhase::Running ==> final(self).rank() > old(
                self,
            ).rank(),
            final(self).phase == ColumnConfigPhase::Running ==> Some(final(self).spaces@)
                == successor_spaces(old(self).spaces@, old(self).n_space as int),
            final(self).phase == ColumnConfigPhase::Exhausted ==> successor_spaces(
                old(self).spaces@,
                old(self).n_space as int,
            ) is None && final(self).spaces@ == old(self).spaces@,
    {
        if self.spaces.len() == 0 {
            self.phase = ColumnConfigPhase::Exhausted;
            return ;
        }
        let ghost s0 = self.spaces@;
        let n_remain = self.remaining_spaces();
        if n_remain > 0 {
            let first = self.spaces[0];
            proof {
                lemma_sum_elem(s0, 0);
                lemma_sum_update(s0, 0, (s0[0] + 1) as usize);
                lemma_phi_update_first(s0, self.n_space + 1, (s0[0] + 1) as usize);
            }
            self.spaces.set(0, first + 1);
            return ;
        }
        let mut i: usize = 0;
        while i < self.spaces.len() && self.spaces[i] == 0
            invariant
                0 <= i <= self.spaces@.len(),
                forall|j: int| 0 <= j < i ==> #[trigger] self.spaces@[j] == 0,
                self == old(self),
            decreases self.spaces@.len() - i,
        {
            i = i + 1;
        }
        proof {
            if i < s0.len() {
                lemma_first_nonzero_at(s0, i as int);
            } else {
                lemma_first_nonzero_at(s0, s0.len() as int);
            }
        }
        if self.spaces.len() - i > 1 {
            let next_val = self.spaces[i + 1];
            proof {
                lemma_sum_pair(s0, i as int, i as int + 1);
                lemma_sum_update(s0, i as int + 1, (s0[i as int + 1] + 1) as usize);
                lemma_sum_update(
                    s0.update(i as int + 1, (s0[i as int + 1] + 1) as usize),
                    i as int,
                    0,
                );
                assert forall|j: int| 0 <= j < s0.len() implies #[trigger] s0[j] < self.n_space
                    + 1 by {
                    lemma_sum_elem(s0, j);
                }
                lemma_phi_carry(s0, self.n_space + 1, i as int);
            }
            self.spaces.set(i + 1, next_val + 1);
            self.spaces.set(i, 0);
            proof {
                assert(self.spaces@ =~= s0.update(i as int, 0usize).update(
                    i as int + 1,
                    (s0[i as int + 1] + 1) as usize,
                ));
            }
            return ;
        }
        self.phase = ColumnConfigPhase::Exhausted;
    }

    /// Materializes the current space distribution into one placement:
    /// `spaces[0]` empty cells, then for each further block its mandatory
    /// separator plus its optional gap, each block's filled run, and the
    /// uncommitted slack as trailing empty cells.
    pub fn make_config(&self) -> (r: Vec<bool>)
        requires
            self.wf(),
        ensures
            r@.len() == self.size,
            filled_runs(r@) == ints_of(self.block_sizes@),
            self.block_sizes@.len() > 0 ==> r@ == materialize(
                self.block_sizes@,
                self.spaces@,
                self.n_space - sum_seq(self.spaces@),
            ),
            self.block_sizes@.len() == 0 ==> r@ == repeat_cell(false, self.size as int),
    {
        let k = self.block_sizes.len();
        let mut v: Vec<bool> = Vec::new();
        if k == 0 {
            let mut i: usize = 0;
            while i < self.size
                invariant
                    0 <= i <= self.size,
                    v@.len() == i,
                    filled_runs(v@) == Seq::<int>::empty(),
                    v@ == repeat_cell(false, i as int),
                decreases self.size - i,
            {
                proof {
                    lemma_runs_push(v@, false);
                    assert(repeat_cell(false, i as int).push(false) =~= repeat_cell(
                        false,
                        i as int + 1,
                    ));
                }
                v.push(false);
                i = i + 1;
            }
            proof {
                assert(ints_of(self.block_sizes@) =~= Seq::<int>::empty());
            }
            return v;
        }
        let n_remain = self.remaining_spaces();
        let ghost sp = self.spaces@;
        let ghost bl = self.block_sizes@;
        let mut i: usize = 0;
        let ghost goal = materialize(bl, sp, self.n_space - sum_seq(sp));
        proof {
            assert(sp.take(0) =~= Seq::<usize>::empty());
            assert(bl.take(0) =~= Seq::<usize>::empty());
            assert(ints_of(bl).take(0) =~= Seq::<int>::empty());
            assert(Seq::<bool>::empty() + materialize_from(bl, sp, 0) =~= materialize_from(
                bl,
                sp,
                0,
            ));
        }
        while i < k
            invariant
                0 <= i <= k,
                k == bl.len(),
                self.wf(),
                sp == self.spaces@,
                bl == self.block_sizes@,
                n_remain == self.n_space - sum_seq(sp),
                goal == materialize(bl, sp, n_remain as int),
                v@.len() == sum_seq(sp.take(i as int)) + sum_seq(bl.take(i as int)) + (if i == 0 {
                    0int
                } else {
                    i - 1
                }),
                filled_runs(v@) == ints_of(bl).take(i as int),
                last_filled(v@) <==> i > 0,
                goal == v@ + materialize_from(bl, sp, i as int) + repeat_cell(
                    false,
                    n_remain as int,
                ),
            decreases k - i,
        {
            let gap: usize = if i == 0 {
                self.spaces[i]
            } else {
                proof {
                    lemma_sum_elem(sp, i as int);
                    lemma_sum_elem(bl, 0);
                }
                self.spaces[i] + 1
            };
            let ghost v0 = v@;
            let mut j: usize = 0;
            while j < gap
                invariant
                    0 <= j <= gap,
                    v@.len() == v0.len() + j,
                    filled_runs(v@) == filled_runs(v0),
                    j > 0 ==> !last_filled(v@),
                    j == 0 ==> v@ == v0,
                    v@ == v0 + repeat_cell(false, j as int),
                decreases gap - j,
            {
                proof {
                    lemma_runs_push(v@, false);
                    assert((v0 + repeat_cell(false, j as int)).push(false) =~= v0 + repeat_cell(
                        false,
                        j as int + 1,
                    ));
                }
                v.push(false);
                j = j + 1;
            }
            let b = self.block_sizes[i];
            let ghost rbase = filled_runs(v@);
            let ghost lbase = v@.len();
            let ghost v1 = v@;
            proof {
                assert(!last_filled(v@));
            }
            let mut j2: usize = 0;
            while j2 < b
                invariant
                    0 <= j2 <= b,
                    v@.len() == lbase + j2,
                    j2 == 0 ==> filled_runs(v@) == rbase && !last_filled(v@),
                    j2 > 0 ==> filled_runs(v@) == rbase.push(j2 as int) && last_filled(v@),
                    v@ == v1 + repeat_cell(true, j2 as int),
                decreases b - j2,
            {
                proof {
                    lemma_runs_push(v@, true);
                    if j2 > 0 {
                        assert(rbase.push(j2 as int).update(rbase.len() as int, j2 + 1) =~= rbase
                            .push(j2 + 1));
                    }
                    assert((v1 + repeat_cell(true, j2 as int)).push(true) =~= v1 + repeat_cell(
                        true,
                        j2 as int + 1,
                    ));
                }
                v.push(true);
                j2 = j2 + 1;
            }
            proof {
                lemma_sum_take_step(sp, i as int);
                lemma_sum_take_step(bl, i as int);
                assert(ints_of(bl).take(i as int + 1) =~= ints_of(bl).take(i as int).push(
                    bl[i as int] as int,
                ));
                assert(v@ =~= v0 + repeat_cell(false, gap as int) + repeat_cell(
                    true,
                    bl[i as int] as int,
                ));
                assert(v@ + materialize_from(bl, sp, i as int + 1) + repeat_cell(
                    false,
                    n_remain as int,
                ) =~= v0 + materialize_from(bl, sp, i as int) + repeat_cell(
                    false,
                    n_remain as int,
                ));
            }
            i = i + 1;
        }
        let ghost rall = filled_runs(v@);
        let ghost lall = v@.len();
        let ghost v2 = v@;
        let mut j3: usize = 0;
        while j3 < n_remain
            invariant
                0 <= j3 <= n_remain,
                v@.len() == lall + j3,
                filled_runs(v@) == rall,
                v@ == v2 + repeat_cell(false, j3 as int),
            decreases n_remain - j3,
        {
            proof {
                lemma_runs_push(v@, false);
                assert((v2 + repeat_cell(false, j3 as int)).push(false) =~= v2 + repeat_cell(
                    false,
                    j3 as int + 1,
                ));
            }
            v.push(false);
            j3 = j3 + 1;
        }
        proof {
            assert(sp.take(k as int) =~= sp);
            assert(bl.take(k as int) =~= bl);
            assert(ints_of(bl).take(k as int) =~= ints_of(bl));
            assert(v@ =~= goal);
        }
        v
    }

    /// Yields the next placement, or `None` once every placement has been
    /// produced.  Every yielded placement has length `size` and run
    /// decomposition exactly the blocks; each yield past the first strictly
    /// increases the rank, so the enumeration is finite.
    pub fn next(&mut self) -> (r: Option<Vec<bool>>)
        requires
            old(self).wf(),
        ensures
            final(self).wf(),
            final(self).block_sizes@ == old(self).block_sizes@,
            final(self).size == old(self).size,
            final(self).n_space == old(self).n_space,
            match r {
                Some(cfg) => {
                    &&& cfg@.len() == final(self).size
                    &&& filled_runs(cfg@) == ints_of(final(self).block_sizes@)
                    &&& (final(self).block_sizes@.len() > 0 ==> cfg@ == materialize(
                        final(self).block_sizes@,
                        final(self).spaces@,
                        final(self).n_space - sum_seq(final(self).spaces@),
                    ))
                    &&& (final(self).block_sizes@.len() == 0 ==> cfg@ == repeat_cell(
                        false,
                        final(self).size as int,
                    ))
                    &&& final(self).phase == ColumnConfigPhase::Running
                    &&& (old(self).phase == ColumnConfigPhase::Starting && final(self).spaces@
                        == old(self).spaces@) || (old(self).phase == ColumnConfigPhase::Running
                        && final(self).rank() > old(self).rank() && Some(final(self).spaces@)
                        == successor_spaces(old(self).spaces@, old(self).n_space as int))
                },
                None => final(self).phase == ColumnConfigPhase::Exhausted && final(self).spaces@
                    == old(self).spaces@,
            },
            old(self).phase == ColumnConfigPhase::Starting ==> r is Some,
            old(self).phase == ColumnConfigPhase::Running ==> ((r is None) <==> successor_spaces(
                old(self).spaces@,
                old(self).n_space as int,
            ) is None),
            old(self).phase == ColumnConfigPhase::Exhausted ==> r is None,
    {
        match self.phase {
            ColumnConfigPhase::Starting => {
                self.phase = ColumnConfigPhase::Running;
            },
            ColumnConfigPhase::Running => {
                self.increment();
            },
            ColumnConfigPhase::Exhausted => {},
        }
        if self.phase == ColumnConfigPhase::Exhausted {
            None
        } else {
            Some(self.make_config())
        }
    }
}

/// Canonical row template: the left-packed placement truncated after its
/// last block, with one sentinel empty cell prepended and appended.  The
/// contract pins every cell: the template is the blocks packed with single
/// separators, wrapped in the two sentinels.
pub fn make_row_config(bs: &BlockSpec) -> (r: Vec<bool>)
    requires
        bs.wf(),
    ensures
        2 <= r@.len() <= bs.size + 2,
        r@[0] == false,
        r@[r@.len() - 1] == false,
        filled_runs(r@.subrange(1, r@.len() - 1)) == ints_of(bs.block_sizes@),
        r@.len() == (if bs.block_sizes@.len() == 0 {
            2int
        } else {
            sum_seq(bs.block_sizes@) + bs.block_sizes@.len() + 1
        }),
        r@ == seq![false] + materialize_from(
            bs.block_sizes@,
            Seq::new(bs.block_sizes@.len(), |z: int| 0usize),
            0,
        ) + seq![false],
{
    let k = bs.block_sizes.len();
    let ghost bl = bs.block_sizes@;
    let ghost zeros = Seq::new(bl.len(), |z: int| 0usize);
    let mut v: Vec<bool> = Vec::new();
    v.push(false);
    proof {
        assert(v@.drop_last() =~= Seq::<bool>::empty());
        assert(filled_runs(Seq::<bool>::empty()) == Seq::<int>::empty());
        assert(ints_of(bl).take(0) =~= Seq::<int>::empty());
        assert(bl.take(0) =~= Seq::<usize>::empty());
        assert(seq![false] + materialize_from(bl, zeros, 0) =~= v@ + materialize_from(
            bl,
            zeros,
            0,
        ));
    }
    let mut i: usize = 0;
    while i < k
        invariant
            0 <= i <= k,
            k == bl.len(),
            bs.wf(),
            bl == bs.block_sizes@,
            zeros == Seq::new(bl.len(), |z: int| 0usize),
            v@.len() == 1 + sum_seq(bl.take(i as int)) + (if i == 0 {
                0int
            } else {
                i - 1
            }),
            filled_runs(v@) == ints_of(bl).take(i as int),
            last_filled(v@) <==> i > 0,
            v@[0] == false,
            seq![false] + materialize_from(bl, zeros, 0) == v@ + materialize_from(
                bl,
                zeros,
                i as int,
            ),
        decreases k - i,
    {
        let ghost v0 = v@;
        if i > 0 {
            proof {
                lemma_runs_push(v@, false);
            }
            v.push(false);
        }
        let b = bs.block_sizes[i];
        let ghost rbase = filled_runs(v@);
        let ghost lbase = v@.len();
        let ghost v1 = v@;
        proof {
            if i > 0 {
                assert(v1 =~= v0 + repeat_cell(false, 1));
            } else {
                assert(v1 =~= v0 + repeat_cell(false, 0));
            }
        }
        let mut j2: usize = 0;
        while j2 < b
            invariant
                0 <= j2 <= b,
                v@.len() == lbase + j2,
                lbase >= 1,
                j2 == 0 ==> filled_runs(v@) == rbase && !last_filled(v@),
                j2 > 0 ==> filled_runs(v@) == rbase.push(j2 as int) && last_filled(v@),
                v@[0] == false,
                v@ == v1 + repeat_cell(true, j2 as int),
            decreases b - j2,
        {
            proof {
                lemma_runs_push(v@, true);
                if j2 > 0 {
                    assert(rbase.push(j2 as int).update(rbase.len() as int, j2 + 1) =~= rbase.push(
                        j2 + 1,
                    ));
                }
                assert((v1 + repeat_cell(true, j2 as int)).push(true) =~= v1 + repeat_cell(
                    true,
                    j2 as int + 1,
                ));
            }
            v.push(true);
            j2 = j2 + 1;
        }
        proof {
            lemma_sum_take_step(bl, i as int);
            assert(ints_of(bl).take(i as int + 1) =~= ints_of(bl).take(i as int).push(
                bl[i as int] as int,
            ));
            lemma_sum_elem(bl, 0);
            assert(v@ + materialize_from(bl, zeros, i as int + 1) =~= v0 + materialize_from(
                bl,
                zeros,
                i as int,
            ));
        }
        i = i + 1;
    }
    let ghost before = v@;
    proof {
        lemma_runs_push(v@, false);
        lemma_sum_nonneg(bl);
        assert(before + materialize_from(bl, zeros, k as int) =~= before);
        assert(before =~= seq![false] + materialize_from(bl, zeros, 0));
    }
    v.push(false);
    proof {
        assert(v@.drop_last() =~= before);
        lemma_runs_skip_first_false(before);
        assert(before.drop_first() =~= v@.subrange(1, v@.len() - 1));
        assert(ints_of(bl).take(k as int) =~= ints_of(bl));
        assert(bl.take(k as int) =~= bl);
        assert(v@ =~= seq![false] + materialize_from(bl, zeros, 0) + seq![false]);
    }
    v
}

/// Collects every placement of `bs`, in enumeration order.  The result is
/// complete and free of duplicates: a line with no blocks has exactly the
/// single all-empty placement, and otherwise the placements are pairwise
/// distinct and every space distribution within the slack is materialized
/// by one of them, because each yield takes the least rank above the last
/// and materialization is one to one.
pub fn all_configs(bs: &BlockSpec) -> (r: Vec<Vec<bool>>)
    requires
        bs.wf(),
    ensures
        forall|i: int| 0 <= i < r@.len() ==> (#[trigger] r@[i])@.len() == bs.size && filled_runs(
            r@[i]@,
        ) == ints_of(bs.block_sizes@),
        forall|i: int, j: int| 0 <= i < j < r@.len() ==> r@[i]@ != r@[j]@,
        r@.len() >= 1,
        bs.block_sizes@.len() == 0 ==> r@.len() == 1 && r@[0]@ == repeat_cell(
            false,
            bs.size as int,
        ),
        bs.block_sizes@.len() > 0 ==> forall|t: Seq<usize>|
            #![trigger materialize(bs.block_sizes@, t, bs.n_space - sum_seq(t))]
            t.len() == bs.block_sizes@.len() && sum_seq(t) <= bs.n_space ==> exists|i: int|
                0 <= i < r@.len() && r@[i]@ == materialize(
                    bs.block_sizes@,
                    t,
                    bs.n_space - sum_seq(t),
                ),
        forall|v: Seq<bool>|
            #![trigger filled_runs(v)]
            v.len() == bs.size && filled_runs(v) == ints_of(bs.block_sizes@) ==> exists|i: int|
                0 <= i < r@.len() && r@[i]@ == v,
{
    let mut it = BlockSpecIterator::new(bs);
    let mut r: Vec<Vec<bool>> = Vec::new();
    let ghost b = bs.n_space + 1;
    let ghost mut hist: Seq<Seq<usize>> = Seq::empty();
    loop
        invariant_except_break
            it.phase != ColumnConfigPhase::Exhausted,
        invariant
            it.wf(),
            it.block_sizes@ == bs.block_sizes@,
            it.size == bs.size,
            it.n_space == bs.n_space,
            b == bs.n_space + 1,
            forall|i: int| 0 <= i < r@.len() ==> (#[trigger] r@[i])@.len() == bs.size
                && filled_runs(r@[i]@) == ints_of(bs.block_sizes@),
            it.phase == ColumnConfigPhase::Starting ==> r@.len() == 0,
            it.phase == ColumnConfigPhase::Starting ==> sum_seq(it.spaces@) == 0,
            it.phase != ColumnConfigPhase::Starting ==> r@.len() >= 1,
            bs.block_sizes@.len() == 0 ==> r@.len() <= 1,
            bs.block_sizes@.len() == 0 && r@.len() == 1 ==> r@[0]@ == repeat_cell(
                false,
                bs.size as int,
            ),
            bs.block_sizes@.len() > 0 ==> {
                &&& hist.len() == r@.len()
                &&& forall|i: int| 0 <= i < hist.len() ==> (#[trigger] hist[i]).len()
                    == bs.block_sizes@.len() && sum_seq(hist[i]) <= bs.n_space && r@[i]@
                    == materialize(bs.block_sizes@, hist[i], bs.n_space - sum_seq(hist[i]))
                &&& forall|i: int| 0 <= i < hist.len() ==> phi(#[trigger] hist[i], b) <= it.rank()
                &&& forall|i: int, j: int| 0 <= i < j < hist.len() ==> phi(#[trigger] hist[i], b)
                    < phi(#[trigger] hist[j], b)
            },
            bs.block_sizes@.len() > 0 && it.phase != ColumnConfigPhase::Starting ==> forall|
                t: Seq<usize>,
            |
                #![trigger hist.contains(t)]
                t.len() == bs.block_sizes@.len() && sum_seq(t) <= bs.n_space && phi(t, b)
                    <= it.rank() ==> hist.contains(t),
        ensures
            forall|i: int| 0 <= i < r@.len() ==> (#[trigger] r@[i])@.len() == bs.size
                && filled_runs(r@[i]@) == ints_of(bs.block_sizes@),
            r@.len() >= 1,
            bs.block_sizes@.len() == 0 ==> r@.len() <= 1,
            bs.block_sizes@.len() == 0 && r@.len() == 1 ==> r@[0]@ == repeat_cell(
                false,
                bs.size as int,
            ),
            bs.block_sizes@.len() > 0 ==> {
                &&& hist.len() == r@.len()
                &&& forall|i: int| 0 <= i < hist.len() ==> (#[trigger] hist[i]).len()
                    == bs.block_sizes@.len() && sum_seq(hist[i]) <= bs.n_space && r@[i]@
                    == materialize(bs.block_sizes@, hist[i], bs.n_space - sum_seq(hist[i]))
                &&& forall|i: int, j: int| 0 <= i < j < hist.len() ==> phi(#[trigger] hist[i], b)
                    < phi(#[trigger] hist[j], b)
            },
            bs.block_sizes@.len() > 0 ==> forall|t: Seq<usize>|
                #![trigger hist.contains(t)]
                t.len() == bs.block_sizes@.len() && sum_seq(t) <= bs.n_space ==> hist.contains(t),
        decreases it.phase_rank(), it.cap() - it.rank(),
    {
        let ghost rank0 = it.rank();
        let ghost it0 = it;
        let nxt = it.next();
        match nxt {
            None => {
                proof {
                    if bs.block_sizes@.len() > 0 {
                        assert(it0.phase == ColumnConfigPhase::Running);
                        assert forall|t: Seq<usize>|
                            t.len() == bs.block_sizes@.len() && sum_seq(t)
                                <= bs.n_space implies hist.contains(t) by {
                            lemma_exhaust_max(it0.spaces@, t, bs.n_space as int);
                            assert(phi(t, b) <= rank0);
                            assert(hist.contains(t));
                        }
                    }
                }
                break ;
            },
            Some(cfg) => {
                proof {
                    if bs.block_sizes@.len() > 0 {
                        let spn = it.spaces@;
                        let ghost hist0 = hist;
                        hist = hist.push(spn);
                        lemma_phi_nonneg(spn, b);
                        assert forall|t: Seq<usize>|
                            t.len() == bs.block_sizes@.len() && sum_seq(t) <= bs.n_space && phi(
                                t,
                                b,
                            ) <= it.rank() implies hist.contains(t) by {
                            assert forall|j: int| 0 <= j < t.len() implies #[trigger] t[j] < b by {
                                lemma_sum_elem(t, j);
                                lemma_sum_nonneg(t);
                            }
                            assert forall|j: int| 0 <= j < spn.len() implies #[trigger] spn[j]
                                < b by {
                                lemma_sum_elem(spn, j);
                                lemma_sum_nonneg(spn);
                            }
                            if it0.phase == ColumnConfigPhase::Starting {
                                assert forall|j: int| 0 <= j < spn.len() implies #[trigger] spn[j]
                                    == 0 by {
                                    lemma_sum_elem(spn, j);
                                }
                                lemma_phi_zero(spn, b);
                                lemma_phi_nonneg(t, b);
                                lemma_phi_inj(t, spn, b);
                                assert(hist[hist.len() - 1] == t);
                            } else {
                                if phi(t, b) <= rank0 {
                                    assert(hist0.contains(t));
                                    let wi = choose|i: int|
                                        0 <= i < hist0.len() && hist0[i] == t;
                                    assert(hist[wi] == t);
                                } else {
                                    lemma_successor_least(it0.spaces@, t, bs.n_space as int);
                                    assert(phi(t, b) == phi(spn, b));
                                    lemma_phi_inj(t, spn, b);
                                    assert(hist[hist.len() - 1] == t);
                                }
                            }
                        }
                    }
                }
                r.push(cfg);
            },
        }
        proof {
            it.lemma_rank_bounds();
        }
    }
    proof {
        assert forall|i: int, j: int| 0 <= i < j < r@.len() implies r@[i]@ != r@[j]@ by {
            if bs.block_sizes@.len() > 0 && r@[i]@ == r@[j]@ {
                lemma_sum_nonneg(hist[i]);
                lemma_sum_nonneg(hist[j]);
                lemma_materialize_injective(
                    bs.block_sizes@,
                    hist[i],
                    hist[j],
                    bs.n_space - sum_seq(hist[i]),
                    bs.n_space - sum_seq(hist[j]),
                );
            }
        }
        if bs.block_sizes@.len() > 0 {
            assert forall|t: Seq<usize>|
                t.len() == bs.block_sizes@.len() && sum_seq(t) <= bs.n_space implies exists|
                i: int,
            |
                0 <= i < r@.len() && r@[i]@ == materialize(
                    bs.block_sizes@,
                    t,
                    bs.n_space - sum_seq(t),
                ) by {
                assert(hist.contains(t));
                let wi = choose|i: int| 0 <= i < hist.len() && hist[i] == t;
                assert(r@[wi]@ == materialize(bs.block_sizes@, t, bs.n_space - sum_seq(t)));
            }
        }
        assert forall|v: Seq<bool>|
            v.len() == bs.size && filled_runs(v) == ints_of(bs.block_sizes@) implies exists|
            i: int,
        | 0 <= i < r@.len() && r@[i]@ == v by {
            let k = bs.block_sizes@.len() as int;
            let sumb = sum_seq(bs.block_sizes@);
            if k == 0 {
                assert(ints_of(bs.block_sizes@) =~= Seq::<int>::empty());
                lemma_runs_empty_all_false(v);
                assert(r@[0]@ =~= v);
            } else {
                lemma_runs_to_spaces(bs.block_sizes@, v);
                let t = choose|t: Seq<usize>|
                    #![trigger sum_seq(t)]
                    t.len() == bs.block_sizes@.len() && sum_seq(t) + bs.block_sizes@.len() - 1
                        + sum_seq(bs.block_sizes@) <= v.len() && v == materialize(
                        bs.block_sizes@,
                        t,
                        v.len() - (sum_seq(t) + bs.block_sizes@.len() - 1 + sum_seq(
                            bs.block_sizes@,
                        )),
                    );
                assert(sum_seq(t) <= bs.n_space);
                assert(v == materialize(bs.block_sizes@, t, bs.n_space - sum_seq(t)));
                assert(hist.contains(t));
                let wi = choose|i: int| 0 <= i < hist.len() && hist[i] == t;
                assert(r@[wi]@ == v);
            }
        }
    }
    r
}

} // verus!
