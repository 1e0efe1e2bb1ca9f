//! A chromosome held as a list of maximal runs, each either wholly replicated
//! or wholly unreplicated.

use std::collections::VecDeque;
use vstd::prelude::*;
use crate::track::lemma_span_take_le;
use crate::runs::{expand, flat, span, lemma_expand_at, lemma_expand_concat, lemma_expand_len,
    lemma_expand_single, lemma_expand_slice, lemma_flat_join, lemma_flat_update, lemma_span_take_step};

verus! {

/// A position was asked for outside `[0, genome_length)`.
#[derive(Debug, Clone, Copy, PartialEq, Eq, Structural)]
pub enum DomainError {
    /// The position is negative.
    BelowStart,
    /// The position is at or beyond the genome length.
    PastEnd,
}

/// One maximal run of positions that share a replication status.
#[derive(Debug, Clone, Copy)]
pub struct Range {
    pub replicated: bool,
    pub length: isize,
}

/// The runs that a list of ranges stands for.
pub open spec fn runs_of(v: Seq<Range>) -> Seq<(bool, nat)> {
    v.map_values(|r: Range| (r.replicated, r.length as nat))
}

/// Every run is non-empty and no two neighbours share a status.
pub open spec fn canonical(v: Seq<Range>) -> bool {
    &&& forall|i: int| 0 <= i < v.len() ==> #[trigger] v[i].length > 0
    &&& forall|i: int| 0 < i < v.len() ==> #[trigger] v[i].replicated != v[i - 1].replicated
}

/// The replication state of a chromosome of `genome_length` positions.
#[derive(Debug)]
pub struct Chromosome {
    genome_length: isize,
    replication_state: VecDeque<Range>,
}

impl View for Chromosome {
    type V = Seq<bool>;

    /// Position `q` is replicated iff `self@[q]`.
    closed spec fn view(&self) -> Seq<bool> {
        expand(runs_of(self.replication_state@))
    }
}

proof fn lemma_runs_push(v: Seq<Range>, x: Range)
    requires
        x.length >= 0,
    ensures
        expand(runs_of(v.push(x))) == expand(runs_of(v)) + flat(x.replicated, x.length as nat),
        span(runs_of(v.push(x))) == span(runs_of(v)) + x.length,
{
    assert(runs_of(v.push(x)).drop_last() =~= runs_of(v));
}

proof fn lemma_runs_take(v: Seq<Range>, k: int)
    requires
        0 <= k <= v.len(),
    ensures
        runs_of(v.take(k)) == runs_of(v).take(k),
{
    assert(runs_of(v.take(k)) =~= runs_of(v).take(k));
}

/// Appends a non-empty run, joining it to the last one when they share a status.
fn push_joined(out: &mut VecDeque<Range>, x: Range)
    requires
        x.length > 0,
        canonical(old(out)@),
        span(runs_of(old(out)@)) + x.length <= isize::MAX,
    ensures
        canonical(final(out)@),
        final(out)@.len() > 0,
        final(out)@.last().replicated == x.replicated,
        expand(runs_of(final(out)@)) == expand(runs_of(old(out)@)) + flat(x.replicated, x.length as nat),
        span(runs_of(final(out)@)) == span(runs_of(old(out)@)) + x.length,
{
    let n = out.len();
    if n > 0 && out[n - 1].replicated == x.replicated {
        let ghost before = out@;
        let last = out.pop_back().unwrap();
        proof {
            assert(before =~= out@.push(last));
            lemma_runs_push(out@, last);
        }
        let joined = Range { replicated: x.replicated, length: last.length + x.length };
        out.push_back(joined);
        proof {
            lemma_runs_push(out@.drop_last(), joined);
            assert(out@.drop_last() =~= before.drop_last());
            lemma_flat_join(x.replicated, last.length as nat, x.length as nat);
            assert(expand(runs_of(out@)) =~= expand(runs_of(before)) + flat(x.replicated, x.length as nat));
        }
    } else {
        let ghost before = out@;
        out.push_back(x);
        proof {
            lemma_runs_push(before, x);
        }
    }
}

impl Chromosome {
    /// Holds when the runs are canonical and cover exactly `genome_length` positions.
    pub closed spec fn wf(&self) -> bool {
        &&& self.genome_length > 0
        &&& canonical(self.replication_state@)
        &&& span(runs_of(self.replication_state@)) == self.genome_length
    }

    pub closed spec fn spec_genome_length(&self) -> isize {
        self.genome_length
    }

    /// Number of positions; the view has exactly that many flags.
    pub proof fn lemma_view_len(&self)
        requires
            self.wf(),
        ensures
            self@.len() == self.spec_genome_length(),
    {
        lemma_expand_len(runs_of(self.replication_state@));
    }

    /// A wholly unreplicated chromosome. `num_origins` is the number of
    /// origins the caller expects to place; storage grows as needed.
    pub fn new(genome_length: isize, num_origins: usize) -> (r: Self)
        requires
            genome_length > 0,
        ensures
            r.wf(),
            r.spec_genome_length() == genome_length,
            r@ == flat(false, genome_length as nat),
    {
        let mut start: VecDeque<Range> = VecDeque::new();
        start.push_front(Range { replicated: false, length: genome_length });
        let r = Chromosome { genome_length, replication_state: start };
        proof {
            let v = r.replication_state@;
            assert(runs_of(v) =~= seq![(false, genome_length as nat)]);
            lemma_expand_single(false, genome_length as nat);
        }
        r
    }

    pub fn genome_length(&self) -> (r: isize)
        ensures
            r == self.spec_genome_length(),
    {
        self.genome_length
    }

    /// Whether `position` is replicated.
    pub fn is_replicated(&self, position: isize) -> (r: Result<bool, DomainError>)
        requires
            self.wf(),
        ensures
            position < 0 ==> r == Err::<bool, DomainError>(DomainError::BelowStart),
            position >= self.spec_genome_length() ==> r == Err::<bool, DomainError>(DomainError::PastEnd),
            0 <= position < self.spec_genome_length() ==> r == Ok::<bool, DomainError>(self@[position as int]),
    {
        if position < 0 {
            return Err(DomainError::BelowStart);
        }
        if position >= self.genome_length {
            return Err(DomainError::PastEnd);
        }
        let ghost v = self.replication_state@;
        let n = self.replication_state.len();
        let mut k: usize = 0;
        let mut cum: isize = 0;
        while k < n
            invariant
                self.wf(),
                v == self.replication_state@,
                n == v.len(),
                0 <= k <= n,
                cum == span(runs_of(v).take(k as int)),
                cum <= position < self.genome_length,
            decreases n - k,
        {
            let range = self.replication_state[k];
            proof {
                lemma_span_take_step(runs_of(v), k as int);
                lemma_runs_take(v, k as int + 1);
                lemma_runs_take(v, n as int);
                assert(v.take(n as int) =~= v);
                lemma_span_take_le(runs_of(v), k as int + 1);
            }
            if position < cum + range.length {
                proof {
                    lemma_expand_at(runs_of(v), k as int, position as int);
                }
                return Ok(range.replicated);
            }
            cum = cum + range.length;
            k = k + 1;
        }
        proof {
            assert(runs_of(v).take(n as int) =~= runs_of(v));
        }
        Err(DomainError::PastEnd)
    }

    /// Marks `position` as replicated: an unreplicated run around it splits
    /// into its left part, a replicated point and its right part, and runs of
    /// equal status that then touch are joined.
    pub fn replicate(self, position: isize) -> (r: Result<Self, DomainError>)
        requires
            self.wf(),
        ensures
            position < 0 ==> r == Err::<Self, DomainError>(DomainError::BelowStart),
            position >= self.spec_genome_length() ==> r == Err::<Self, DomainError>(DomainError::PastEnd),
            0 <= position < self.spec_genome_length() ==> r is Ok,
            r matches Ok(c) ==> c.wf() && c.spec_genome_length() == self.spec_genome_length()
                && c@ == self@.update(position as int, true),
    {
        if position < 0 {
            return Err(DomainError::BelowStart);
        }
        if position >= self.genome_length {
            return Err(DomainError::PastEnd);
        }
        let ghost v = self.replication_state@;
        let ghost target = self@.update(position as int, true);
        proof {
            self.lemma_view_len();
        }
        let n = self.replication_state.len();
        let mut out: VecDeque<Range> = VecDeque::new();
        let mut k: usize = 0;
        let mut cum: isize = 0;
        proof {
            assert(runs_of(out@) =~= Seq::<(bool, nat)>::empty());
            assert(target.subrange(0, 0) =~= Seq::<bool>::empty());
        }
        while k < n
            invariant
                self.wf(),
                v == self.replication_state@,
                n == v.len(),
                0 <= k <= n,
                0 <= position < self.genome_length,
                target == self@.update(position as int, true),
                target.len() == self.genome_length,
                self@.len() == self.genome_length,
                cum == span(runs_of(v).take(k as int)),
                canonical(out@),
                span(runs_of(out@)) == cum,
                expand(runs_of(out@)) == target.subrange(0, cum as int),
            decreases n - k,
        {
            let range = self.replication_state[k];
            let ghost before = expand(runs_of(out@));
            proof {
                lemma_span_take_step(runs_of(v), k as int);
                lemma_expand_slice(runs_of(v), k as int);
                assert(v.take(n as int) =~= v);
                lemma_runs_take(v, n as int);
            }
            proof {
                assert(runs_of(v)[k as int] == (range.replicated, range.length as nat));
                lemma_flat_update(self@, position as int, cum as int, cum + range.length, range.replicated);
                assert(target.subrange(0, cum + range.length) =~= target.subrange(0, cum as int)
                    + target.subrange(cum as int, cum + range.length));
            }
            if !range.replicated && cum <= position && position < cum + range.length {
                let left = position - cum;
                let right = cum + range.length - position - 1;
                if left > 0 {
                    push_joined(&mut out, Range { replicated: false, length: left });
                } else {
                    proof {
                        assert(flat(false, 0) =~= Seq::<bool>::empty());
                        assert(before + flat(false, 0) =~= before);
                    }
                }
                push_joined(&mut out, Range { replicated: true, length: 1 });
                if right > 0 {
                    push_joined(&mut out, Range { replicated: false, length: right });
                } else {
                    proof {
                        assert(flat(false, 0) =~= Seq::<bool>::empty());
                    }
                }
                proof {
                    assert(expand(runs_of(out@)) =~= before + flat(false, left as nat) + flat(true, 1)
                        + flat(false, right as nat));
                }
            } else {
                push_joined(&mut out, range);
            }
            cum = cum + range.length;
            k = k + 1;
        }
        proof {
            assert(runs_of(v).take(n as int) =~= runs_of(v));
            assert(target.subrange(0, cum as int) =~= target);
        }
        Ok(Chromosome { genome_length: self.genome_length, replication_state: out })
    }
}

} // verus!
