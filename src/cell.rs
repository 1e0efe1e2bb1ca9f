//! The simulation driver: a growth-phase gate, then rounds of origin
//! placement and growth until the genome is replicated.

use rand_chacha::ChaCha8Rng;
use vstd::prelude::*;
use crate::random::draw_ratio;
use crate::track::{complete, replicated_len, unreplicated_len, zero_from, lemma_total_split,
    lemma_wsum_nonneg, Genome};
use crate::growth::{covers, dilate, grown, merges, packed, lemma_complete_iff, lemma_covers_trans};

verus! {

/// Phase of the cell cycle; it moves once, from growth to synthesis.
#[derive(Debug, Clone, Copy, PartialEq, Eq, Structural)]
pub enum CellState {
    /// Growth phase: waiting to enter synthesis.
    GPhase,
    /// Synthesis phase: replication under way.
    SPhase,
}

/// One cell replicating one genome.
#[derive(Debug)]
pub struct Cell {
    genome: Genome,
    unassigned_replicators: usize,
    cell_state: CellState,
    replication_rate: usize,
    warmup_iters: u64,
}

impl Cell {
    pub closed spec fn spec_genome(&self) -> Genome {
        self.genome
    }

    /// Origins that may still be placed.
    pub closed spec fn quota(&self) -> nat {
        self.unassigned_replicators as nat
    }

    pub closed spec fn spec_state(&self) -> CellState {
        self.cell_state
    }

    pub closed spec fn spec_rate(&self) -> nat {
        self.replication_rate as nat
    }

    pub closed spec fn spec_warmups(&self) -> nat {
        self.warmup_iters as nat
    }

    /// The track is well formed and packed, the rate is positive, the quota
    /// never exceeds the origin cap, and every slot past the room taken by
    /// live origins is empty, so that each origin the quota allows still fits.
    pub open spec fn inv(&self) -> bool {
        let g = self.spec_genome();
        &&& g.wf()
        &&& packed(g.lengths())
        &&& self.spec_rate() > 0
        &&& self.quota() <= g.spec_num_origins()
        &&& zero_from(g.lengths(), 2 * (g.spec_num_origins() - self.quota()) + 2)
    }

    /// A cell in growth phase with a wholly unreplicated genome and the full
    /// quota of `num_replicators` origins.
    pub fn new(genome_length: usize, num_replicators: usize, replication_rate: usize) -> (r: Self)
        requires
            genome_length > 0,
            num_replicators > 0,
            replication_rate > 0,
            2 * num_replicators + 3 <= usize::MAX,
        ensures
            r.inv(),
            r.spec_genome().spec_genome_length() == genome_length,
            r.spec_genome().spec_num_origins() == num_replicators,
            r.spec_genome()@ == Seq::new(genome_length as nat, |_q: int| false),
            r.quota() == num_replicators,
            r.spec_state() == CellState::GPhase,
            r.spec_rate() == replication_rate,
            r.spec_warmups() == 0,
    {
        let genome = Genome::new(genome_length, num_replicators);
        Cell {
            genome,
            unassigned_replicators: num_replicators,
            cell_state: CellState::GPhase,
            replication_rate,
            warmup_iters: 0,
        }
    }

    pub fn genome(&self) -> (r: &Genome)
        ensures
            *r == self.spec_genome(),
    {
        &self.genome
    }

    pub fn unassigned_replicators(&self) -> (r: usize)
        ensures
            r == self.quota(),
    {
        self.unassigned_replicators
    }

    pub fn cell_state(&self) -> (r: CellState)
        ensures
            r == self.spec_state(),
    {
        self.cell_state
    }

    /// Draws made in growth phase that did not end it.
    pub fn warmup_iters(&self) -> (r: u64)
        ensures
            r == self.spec_warmups(),
    {
        self.warmup_iters
    }

    /// The phase gate with threshold `threshold_numerator / threshold_denominator`
    /// in `[0, 1)`: in growth phase one draw ends the phase with probability one
    /// minus the threshold, and returns whether it did; a draw that does not
    /// is counted. In synthesis phase nothing is drawn and `false` returned.
    pub fn advance(&mut self, rng: &mut ChaCha8Rng, threshold_numerator: u32, threshold_denominator: u32) -> (transitioned: bool)
        requires
            threshold_numerator < threshold_denominator,
            old(self).spec_warmups() < u64::MAX,
        ensures
            final(self).spec_genome() == old(self).spec_genome(),
            final(self).quota() == old(self).quota(),
            final(self).spec_rate() == old(self).spec_rate(),
            old(self).spec_state() == CellState::SPhase ==> !transitioned && final(self).spec_state() == CellState::SPhase
                && final(self).spec_warmups() == old(self).spec_warmups(),
            old(self).spec_state() == CellState::GPhase && transitioned ==> final(self).spec_state() == CellState::SPhase
                && final(self).spec_warmups() == old(self).spec_warmups(),
            old(self).spec_state() == CellState::GPhase && !transitioned ==> final(self).spec_state() == CellState::GPhase
                && final(self).spec_warmups() == old(self).spec_warmups() + 1,
            old(self).spec_state() == CellState::GPhase && threshold_numerator == 0 ==> transitioned,
    {
        if self.cell_state == CellState::SPhase {
            return false;
        }
        if draw_ratio(rng, threshold_denominator - threshold_numerator, threshold_denominator) {
            self.cell_state = CellState::SPhase;
            true
        } else {
            self.warmup_iters = self.warmup_iters + 1;
            false
        }
    }

    /// Places origins while the quota allows, one quota unit each, stopping
    /// at the first attempt that places none.
    pub fn assign_replicators(&mut self, rng: &mut ChaCha8Rng)
        requires
            old(self).inv(),
        ensures
            final(self).inv(),
            final(self).spec_genome().spec_genome_length() == old(self).spec_genome().spec_genome_length(),
            final(self).spec_genome().spec_num_origins() == old(self).spec_genome().spec_num_origins(),
            final(self).spec_state() == old(self).spec_state(),
            final(self).spec_rate() == old(self).spec_rate(),
            final(self).spec_warmups() == old(self).spec_warmups(),
            final(self).quota() <= old(self).quota(),
            unreplicated_len(final(self).spec_genome().lengths()) + (old(self).quota() - final(self).quota())
                == unreplicated_len(old(self).spec_genome().lengths()),
            replicated_len(final(self).spec_genome().lengths()) == replicated_len(old(self).spec_genome().lengths())
                + (old(self).quota() - final(self).quota()),
            covers(old(self).spec_genome()@, final(self).spec_genome()@),
    {
        while self.unassigned_replicators > 0
            invariant
                self.inv(),
                self.genome.spec_genome_length() == old(self).genome.spec_genome_length(),
                self.genome.spec_num_origins() == old(self).genome.spec_num_origins(),
                self.cell_state == old(self).cell_state,
                self.replication_rate == old(self).replication_rate,
                self.warmup_iters == old(self).warmup_iters,
                self.unassigned_replicators <= old(self).unassigned_replicators,
                unreplicated_len(self.genome.lengths()) + (old(self).unassigned_replicators
                    - self.unassigned_replicators) == unreplicated_len(old(self).genome.lengths()),
                replicated_len(self.genome.lengths()) == replicated_len(old(self).genome.lengths())
                    + (old(self).unassigned_replicators - self.unassigned_replicators),
                covers(old(self).genome@, self.genome@),
            decreases self.unassigned_replicators,
        {
            let ghost before = self.genome;
            let ghost n = 2 * (self.genome.spec_num_origins() - self.unassigned_replicators) + 2;
            proof {
                before.lemma_view_len();
                assert(zero_from(before.lengths(), n));
            }
            if self.genome.sample_and_place(rng) {
                proof {
                    self.genome.lemma_view_len();
                }
                self.unassigned_replicators = self.unassigned_replicators - 1;
            } else {
                break;
            }
        }
    }

    /// One growth pass at the cell's rate; each join returns one unit of quota.
    pub fn replicate_and_merge(&mut self) -> (merged: usize)
        requires
            old(self).inv(),
        ensures
            final(self).inv(),
            final(self).spec_genome().spec_genome_length() == old(self).spec_genome().spec_genome_length(),
            final(self).spec_genome().spec_num_origins() == old(self).spec_genome().spec_num_origins(),
            final(self).spec_state() == old(self).spec_state(),
            final(self).spec_rate() == old(self).spec_rate(),
            final(self).spec_warmups() == old(self).spec_warmups(),
            final(self).spec_genome().lengths() == grown(old(self).spec_genome().lengths(), old(self).spec_rate() as int),
            merged == merges(old(self).spec_genome().lengths(), old(self).spec_rate() as int),
            final(self).quota() == old(self).quota() + merged,
            unreplicated_len(final(self).spec_genome().lengths()) <= unreplicated_len(old(self).spec_genome().lengths()),
            replicated_len(final(self).spec_genome().lengths()) >= replicated_len(old(self).spec_genome().lengths()),
            covers(old(self).spec_genome()@, final(self).spec_genome()@),
            final(self).spec_genome()@ == dilate(old(self).spec_genome()@, old(self).spec_rate() as int),
            replicated_len(old(self).spec_genome().lengths()) > 0 && unreplicated_len(old(self).spec_genome().lengths()) > 0
                ==> unreplicated_len(final(self).spec_genome().lengths()) < unreplicated_len(old(self).spec_genome().lengths()),
            complete(old(self).spec_genome().lengths()) ==> complete(final(self).spec_genome().lengths()),
    {
        let ghost n = 2 * (self.genome.spec_num_origins() - self.unassigned_replicators) + 2;
        proof {
            assert(zero_from(self.genome.lengths(), n));
        }
        let merged = self.genome.replicate_and_merge(self.replication_rate);
        self.unassigned_replicators = self.unassigned_replicators + merged;
        merged
    }

    /// Runs the cell: the phase gate is advanced until it lets the cell into
    /// synthesis phase (or `u64::MAX` draws have not, when it is passed all
    /// the same), then each round places origins as the quota allows and
    /// grows once, until every position is replicated. Returns the number of
    /// rounds. Once a position is replicated every round shrinks the
    /// unreplicated length, so the run ends complete unless the first round
    /// could place no origin at all, which ends it at once.
    pub fn full_replication(
        &mut self,
        rng: &mut ChaCha8Rng,
        threshold_numerator: u32,
        threshold_denominator: u32,
    ) -> (iterations: usize)
        requires
            old(self).inv(),
            threshold_numerator < threshold_denominator,
        ensures
            final(self).inv(),
            final(self).spec_genome().spec_genome_length() == old(self).spec_genome().spec_genome_length(),
            final(self).spec_genome().spec_num_origins() == old(self).spec_genome().spec_num_origins(),
            final(self).spec_rate() == old(self).spec_rate(),
            final(self).spec_state() == CellState::SPhase,
            complete(final(self).spec_genome().lengths()) || replicated_len(final(self).spec_genome().lengths()) == 0,
            iterations <= old(self).spec_genome().spec_genome_length(),
            covers(old(self).spec_genome()@, final(self).spec_genome()@),
            complete(old(self).spec_genome().lengths()) ==> iterations == 0,
    {
        while self.cell_state == CellState::GPhase && self.warmup_iters < u64::MAX
            invariant
                self.inv(),
                self.genome == old(self).genome,
                self.unassigned_replicators == old(self).unassigned_replicators,
                self.replication_rate == old(self).replication_rate,
                threshold_numerator < threshold_denominator,
            decreases u64::MAX - self.warmup_iters, if self.cell_state == CellState::GPhase { 1int } else { 0int },
        {
            self.advance(rng, threshold_numerator, threshold_denominator);
        }
        self.cell_state = CellState::SPhase;
        let mut iterations: usize = 0;
        let mut stalled = false;
        proof {
            assert(covers(old(self).genome@, self.genome@));
            lemma_total_split(self.genome.lengths());
            lemma_wsum_nonneg(self.genome.lengths(), 0);
        }
        while !stalled && !self.genome.is_fully_replicated()
            invariant
                self.inv(),
                self.genome.spec_genome_length() == old(self).genome.spec_genome_length(),
                self.genome.spec_num_origins() == old(self).genome.spec_num_origins(),
                self.replication_rate == old(self).replication_rate,
                self.cell_state == CellState::SPhase,
                iterations + unreplicated_len(self.genome.lengths()) <= self.genome.spec_genome_length(),
                stalled ==> replicated_len(self.genome.lengths()) == 0,
                covers(old(self).genome@, self.genome@),
                complete(old(self).genome.lengths()) ==> iterations == 0 && self.genome == old(self).genome,
            decreases unreplicated_len(self.genome.lengths()), if stalled { 0int } else { 1int },
        {
            proof {
                lemma_complete_iff(self.genome.lengths());
            }
            let ghost start = self.genome@;
            self.assign_replicators(rng);
            proof {
                lemma_covers_trans(old(self).genome@, start, self.genome@);
                lemma_total_split(self.genome.lengths());
                lemma_wsum_nonneg(self.genome.lengths(), 0);
                lemma_wsum_nonneg(self.genome.lengths(), 1);
            }
            if self.genome.unreplicated_count() == self.genome.genome_length() {
                stalled = true;
            } else {
                let ghost placed = self.genome@;
                self.replicate_and_merge();
                proof {
                    lemma_wsum_nonneg(self.genome.lengths(), 1);
                    lemma_covers_trans(old(self).genome@, placed, self.genome@);
                }
                iterations = iterations + 1;
            }
        }
        proof {
            lemma_wsum_nonneg(self.genome.lengths(), 1);
        }
        iterations
    }
}

} // verus!
