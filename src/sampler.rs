//! Origin placement: a uniformly drawn unreplicated position, accepted with
//! a fixed firing probability.

use rand_chacha::ChaCha8Rng;
use vstd::prelude::*;
use crate::random::{draw_below, draw_ratio};
use crate::growth::packed;
use crate::track::{replicated_len, unreplicated_len, zero_from, Genome};

verus! {

/// A drawn position fires with probability `FIRE_NUMERATOR / FIRE_DENOMINATOR`.
pub const FIRE_NUMERATOR: u32 = 1;

pub const FIRE_DENOMINATOR: u32 = 10;

/// Draws made for one placement before it is given up.
pub const MAX_DRAWS: usize = 1_000_000;

impl Genome {
    /// A position drawn uniformly from the unreplicated ones: a rank is drawn
    /// below their number, so each gap is picked in proportion to its length.
    /// `None` when every position is replicated.
    pub fn random_unreplicated_point(&self, rng: &mut ChaCha8Rng) -> (r: Option<usize>)
        requires
            self.wf(),
        ensures
            r is None <==> unreplicated_len(self.lengths()) == 0,
            r matches Some(p) ==> p < self.spec_genome_length() && !self@[p as int],
    {
        let u = self.unreplicated_count();
        if u == 0 {
            return None;
        }
        let rank = draw_below(rng, u);
        Some(self.nth_unreplicated(rank))
    }

    /// Places one origin: positions are drawn until one fires, and an origin
    /// is inserted there. Returns `false`, leaving the track as it was, when
    /// no position is unreplicated or `MAX_DRAWS` draws did not fire.
    pub fn sample_and_place(&mut self, rng: &mut ChaCha8Rng) -> (placed: bool)
        requires
            old(self).wf(),
            old(self).lengths()[old(self).lengths().len() - 2] == 0,
            old(self).lengths()[old(self).lengths().len() - 1] == 0,
        ensures
            final(self).wf(),
            final(self).spec_genome_length() == old(self).spec_genome_length(),
            final(self).spec_num_origins() == old(self).spec_num_origins(),
            unreplicated_len(old(self).lengths()) == 0 ==> !placed,
            !placed ==> final(self).lengths() == old(self).lengths() && final(self)@ == old(self)@,
            placed ==> exists|p: int|
                0 <= p < old(self).spec_genome_length() && !old(self)@[p] && final(self)@ == old(
                    self,
                )@.update(p, true),
            placed ==> unreplicated_len(final(self).lengths()) == unreplicated_len(old(self).lengths()) - 1,
            placed ==> replicated_len(final(self).lengths()) == replicated_len(old(self).lengths()) + 1,
            packed(old(self).lengths()) ==> packed(final(self).lengths()),
            placed ==> forall|n: int| #[trigger] zero_from(old(self).lengths(), n) && n + 2
                <= old(self).lengths().len() ==> zero_from(final(self).lengths(), n + 2),
    {
        let mut draws: usize = 0;
        while draws < MAX_DRAWS
            invariant
                self.wf(),
                self == old(self),
                self.lengths()[self.lengths().len() - 2] == 0,
                self.lengths()[self.lengths().len() - 1] == 0,
            decreases MAX_DRAWS - draws,
        {
            match self.random_unreplicated_point(rng) {
                None => {
                    return false;
                },
                Some(position) => {
                    if draw_ratio(rng, FIRE_NUMERATOR, FIRE_DENOMINATOR) {
                        self.insert_origin(position);
                        return true;
                    }
                },
            }
            draws = draws + 1;
        }
        false
    }
}

} // verus!
