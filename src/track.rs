//! The segment track: a fixed-capacity array of run lengths in which even
//! slots hold replicated runs and odd slots unreplicated ones.

use vstd::prelude::*;
use crate::chromosome::DomainError;
use crate::growth::{covers, dilate, lemma_grown_dilates, drop_pair, gap_closes, grow_gap, grow_pass, grown, handed_out, merges,
    packed, pass_merges, trim_lead, lemma_grow_gap, lemma_grown, lemma_grown_covers,
    lemma_grown_progress};
use crate::runs::{count_unreplicated, expand, flat, span, lemma_count_bound, lemma_count_concat,
    lemma_count_flat, lemma_expand_at, lemma_expand_concat, lemma_expand_len, lemma_expand_prefix,
    lemma_expand_single, lemma_span_take_step};

verus! {

/// The runs that an array of lengths stands for: slot `i` is replicated iff `i` is even.
pub open spec fn segments(s: Seq<usize>) -> Seq<(bool, nat)> {
    Seq::new(s.len(), |i: int| (i % 2 == 0, s[i] as nat))
}

/// Sum of the lengths in the slots whose index has parity `par`.
pub open spec fn wsum(s: Seq<usize>, par: int) -> int
    decreases s.len(),
{
    if s.len() == 0 {
        0
    } else {
        wsum(s.drop_last(), par) + if (s.len() - 1) % 2 == par { s.last() as int } else { 0 }
    }
}

/// Sum of the lengths in odd (unreplicated) slots.
pub open spec fn unreplicated_len(s: Seq<usize>) -> int {
    wsum(s, 1)
}

/// Sum of the lengths in even (replicated) slots.
pub open spec fn replicated_len(s: Seq<usize>) -> int {
    wsum(s, 0)
}

/// Sum of all lengths.
pub open spec fn total(s: Seq<usize>) -> int {
    span(segments(s)) as int
}

/// Every unreplicated slot is empty.
pub open spec fn complete(s: Seq<usize>) -> bool {
    forall|i: int| 0 <= i < s.len() && i % 2 == 1 ==> #[trigger] s[i] == 0
}

/// Every slot from `n` on is empty.
pub open spec fn zero_from(s: Seq<usize>, n: int) -> bool {
    forall|i: int| n <= i < s.len() ==> #[trigger] s[i] == 0
}

/// First position of slot `i`.
pub open spec fn start_of(s: Seq<usize>, i: int) -> int {
    span(segments(s).take(i)) as int
}

/// The unreplicated slot `i` split around position `p` into its left part, a
/// replicated point and its right part; the last two slots make the room.
pub open spec fn split_at(s: Seq<usize>, i: int, p: int) -> Seq<usize> {
    let a = start_of(s, i);
    s.take(i) + seq![(p - a) as usize, 1usize, (a + s[i] - p - 1) as usize] + s.subrange(i + 1, s.len() - 2)
}

/// The replication state of a genome of `genome_length` positions, with room
/// for `num_origins` origins that never merge.
#[derive(Debug)]
pub struct Genome {
    genome_length: usize,
    num_origins: usize,
    replication_state: Vec<usize>,
}

impl View for Genome {
    type V = Seq<bool>;

    /// Position `q` is replicated iff `self@[q]`.
    closed spec fn view(&self) -> Seq<bool> {
        expand(segments(self.replication_state@))
    }
}

impl Genome {
    /// The slot lengths.
    pub closed spec fn lengths(&self) -> Seq<usize> {
        self.replication_state@
    }

    pub closed spec fn spec_genome_length(&self) -> nat {
        self.genome_length as nat
    }

    pub closed spec fn spec_num_origins(&self) -> nat {
        self.num_origins as nat
    }

    /// Holds when the slots are `2 * num_origins + 3` and their lengths add up
    /// to the genome length.
    pub open spec fn wf(&self) -> bool {
        &&& self.spec_genome_length() > 0
        &&& self.spec_num_origins() > 0
        &&& self.lengths().len() == 2 * self.spec_num_origins() + 3
        &&& 2 * self.spec_num_origins() + 3 <= usize::MAX
        &&& span(segments(self.lengths())) == self.spec_genome_length()
    }

    /// Each position lies in exactly one slot and carries that slot's status,
    /// so the unreplicated positions number the sum of the odd slots and the
    /// replicated ones the sum of the even slots.
    pub proof fn lemma_counts(&self)
        requires
            self.wf(),
        ensures
            count_unreplicated(self@) == unreplicated_len(self.lengths()),
            self@.len() - count_unreplicated(self@) == replicated_len(self.lengths()),
    {
        lemma_count_view(self.lengths());
        lemma_expand_len(segments(self.lengths()));
        lemma_total_split(self.lengths());
    }

    /// Every position lies in exactly one slot, and is replicated iff that
    /// slot is even.
    pub proof fn lemma_one_slot(&self, q: int)
        requires
            self.wf(),
            0 <= q < self.spec_genome_length(),
        ensures
            exists|k: int| 0 <= k < self.lengths().len() && #[trigger] start_of(self.lengths(), k) <= q
                < start_of(self.lengths(), k) + self.lengths()[k],
            forall|k: int| 0 <= k < self.lengths().len() && #[trigger] start_of(self.lengths(), k) <= q
                < start_of(self.lengths(), k) + self.lengths()[k] ==> self@[q] == (k % 2 == 0),
            forall|k1: int, k2: int|
                0 <= k1 < self.lengths().len() && 0 <= k2 < self.lengths().len() && #[trigger] start_of(
                    self.lengths(),
                    k1,
                ) <= q < start_of(self.lengths(), k1) + self.lengths()[k1] && #[trigger] start_of(
                    self.lengths(),
                    k2,
                ) <= q < start_of(self.lengths(), k2) + self.lengths()[k2] ==> k1 == k2,
    {
        let s = self.lengths();
        let g = segments(s);
        assert(g.take(g.len() as int) =~= g);
        lemma_slot_exists(g, q, g.len() as int);
        let k0 = choose|k: int| 0 <= k < g.len() && #[trigger] span(g.take(k)) <= q < span(g.take(k)) + g[k].1;
        assert(start_of(s, k0) <= q < start_of(s, k0) + s[k0]);
        assert forall|k: int| 0 <= k < s.len() && #[trigger] start_of(s, k) <= q < start_of(s, k) + s[k]
            implies self@[q] == (k % 2 == 0) by {
            lemma_expand_at(g, k, q);
        }
        assert forall|k1: int, k2: int|
            0 <= k1 < s.len() && 0 <= k2 < s.len() && #[trigger] start_of(s, k1) <= q < start_of(s, k1) + s[k1]
                && #[trigger] start_of(s, k2) <= q < start_of(s, k2) + s[k2] implies k1 == k2 by {
            if k1 < k2 {
                lemma_span_take_step(g, k1);
                lemma_span_take_mono(g, k1 + 1, k2);
            }
            if k2 < k1 {
                lemma_span_take_step(g, k2);
                lemma_span_take_mono(g, k2 + 1, k1);
            }
        }
    }

    /// Number of positions; the view has exactly that many flags.
    pub proof fn lemma_view_len(&self)
        requires
            self.wf(),
        ensures
            self@.len() == self.spec_genome_length(),
    {
        lemma_expand_len(segments(self.lengths()));
    }

    /// A wholly unreplicated genome: slot 1 holds every position.
    pub fn new(genome_length: usize, num_origins: usize) -> (r: Self)
        requires
            genome_length > 0,
            num_origins > 0,
            2 * num_origins + 3 <= usize::MAX,
        ensures
            r.wf(),
            r.spec_genome_length() == genome_length,
            r.spec_num_origins() == num_origins,
            r.lengths() == Seq::new(2 * num_origins as nat + 3, |i: int| if i == 1 { genome_length } else { 0usize }),
            r@ == Seq::new(genome_length as nat, |_q: int| false),
            packed(r.lengths()),
    {
        let mut start: Vec<usize> = vec![0usize; 2 * num_origins + 3];
        start.set(1, genome_length);
        let r = Genome { genome_length, num_origins, replication_state: start };
        proof {
            let s = r.replication_state@;
            assert(s =~= Seq::new(2 * num_origins as nat + 3, |i: int| if i == 1 { genome_length } else { 0usize }));
            lemma_span_zero_tail(segments(s), 2);
            assert(segments(s).take(2).drop_last() =~= seq![(true, 0nat)]);
            lemma_expand_single(true, 0);
            assert(span(segments(s).take(2)) == genome_length);
            assert(segments(s).take(segments(s).len() as int) =~= segments(s));
            r.lemma_counts();
            r.lemma_view_len();
            lemma_wsum_update(s, 1, 0usize, 1);
            lemma_wsum_nonneg(s.update(1, 0usize), 1);
            lemma_count_bound(r@);
            assert(r@ =~= Seq::new(genome_length as nat, |_q: int| false));
        }
        r
    }

    /// A genome whose slots hold `lengths`, when they are an odd number of at
    /// least five slots whose sum is positive and fits in a `usize`.
    pub fn from_lengths(lengths: Vec<usize>) -> (r: Option<Self>)
        ensures
            r is Some <==> lengths@.len() % 2 == 1 && lengths@.len() >= 5 && 0 < total(lengths@) <= usize::MAX,
            r matches Some(g) ==> g.wf() && g.lengths() == lengths@ && g.spec_genome_length() == total(lengths@)
                && g.spec_num_origins() == (lengths@.len() - 3) / 2,
    {
        let n = lengths.len();
        let ghost g = segments(lengths@);
        let mut k: usize = 0;
        let mut sum: usize = 0;
        proof {
            assert(g.take(0) =~= Seq::<(bool, nat)>::empty());
        }
        while k < n
            invariant
                n == lengths@.len(),
                g == segments(lengths@),
                k <= n,
                sum == span(g.take(k as int)),
            decreases n - k,
        {
            proof {
                lemma_span_take_step(g, k as int);
            }
            if sum > usize::MAX - lengths[k] {
                proof {
                    lemma_span_take_le(g, k as int + 1);
                }
                return None;
            }
            sum = sum + lengths[k];
            k = k + 1;
        }
        proof {
            assert(g.take(n as int) =~= g);
        }
        if n % 2 == 0 || n < 5 || sum == 0 {
            return None;
        }
        Some(Genome { genome_length: sum, num_origins: (n - 3) / 2, replication_state: lengths })
    }

    pub fn genome_length(&self) -> (r: usize)
        ensures
            r == self.spec_genome_length(),
    {
        self.genome_length
    }

    pub fn num_origins(&self) -> (r: usize)
        ensures
            r == self.spec_num_origins(),
    {
        self.num_origins
    }

    /// A copy of the slot lengths.
    pub fn replication_state(&self) -> (r: Vec<usize>)
        ensures
            r@ == self.lengths(),
    {
        let mut r: Vec<usize> = Vec::new();
        let mut i: usize = 0;
        while i < self.replication_state.len()
            invariant
                i <= self.replication_state.len(),
                r@ == self.replication_state@.take(i as int),
            decreases self.replication_state.len() - i,
        {
            r.push(self.replication_state[i]);
            i = i + 1;
            proof {
                assert(r@ =~= self.replication_state@.take(i as int));
            }
        }
        proof {
            assert(r@ =~= self.replication_state@);
        }
        r
    }

    /// Whether `position` is replicated: the first slot whose running total
    /// exceeds `position` holds it, and it is replicated iff that slot is even.
    pub fn is_replicated(&self, position: usize) -> (r: Result<bool, DomainError>)
        requires
            self.wf(),
        ensures
            position >= self.spec_genome_length() ==> r == Err::<bool, DomainError>(DomainError::PastEnd),
            position < self.spec_genome_length() ==> r == Ok::<bool, DomainError>(self@[position as int]),
    {
        if position >= self.genome_length {
            return Err(DomainError::PastEnd);
        }
        let ghost g = segments(self.replication_state@);
        let n = self.replication_state.len();
        let mut k: usize = 0;
        let mut cum: usize = 0;
        while k < n
            invariant
                self.wf(),
                g == segments(self.replication_state@),
                n == g.len(),
                0 <= k <= n,
                cum == span(g.take(k as int)),
                cum <= position < self.genome_length,
            decreases n - k,
        {
            let len = self.replication_state[k];
            proof {
                lemma_span_take_step(g, k as int);
                lemma_span_take_le(g, k as int + 1);
                assert(g.take(n as int) =~= g);
            }
            if position - cum < len {
                proof {
                    lemma_expand_at(g, k as int, position as int);
                }
                return Ok(k % 2 == 0);
            }
            cum = cum + len;
            k = k + 1;
        }
        proof {
            assert(g.take(n as int) =~= g);
        }
        Err(DomainError::PastEnd)
    }

    /// Processes the gap at odd slot `i`; returns whether it closed between
    /// two replicated runs, which are then joined.
    fn grow_gap_at(&mut self, i: usize, rate: usize) -> (closed: bool)
        requires
            old(self).wf(),
            i % 2 == 1,
            1 <= i,
            i + 2 <= old(self).lengths().len(),
        ensures
            final(self).lengths() == grow_gap(old(self).lengths(), i as int, rate as int),
            closed == gap_closes(old(self).lengths(), i as int, rate as int),
            final(self).genome_length == old(self).genome_length,
            final(self).num_origins == old(self).num_origins,
    {
        let ghost s = self.replication_state@;
        proof {
            lemma_grow_gap(s, i as int, rate as int, 0);
        }
        let gap = self.replication_state[i];
        let left = self.replication_state[i - 1];
        let right = self.replication_state[i + 1];
        let l: usize = if left > 0 {
            if gap < rate { gap } else { rate }
        } else {
            0
        };
        let rest = gap - l;
        let r: usize = if right > 0 {
            if rest < rate { rest } else { rate }
        } else {
            0
        };
        self.replication_state.set(i - 1, left + l);
        self.replication_state.set(i, rest - r);
        self.replication_state.set(i + 1, right + r);
        proof {
            assert(self.replication_state@ == handed_out(s, i as int, rate as int));
        }
        if rest - r == 0 && left > 0 && right > 0 {
            proof {
                lemma_two_le_total(self.replication_state@, i - 1, i + 1);
            }
            self.replication_state.set(i - 1, left + l + right + r);
            drop_pair_in_place(&mut self.replication_state, i);
            true
        } else {
            false
        }
    }

    /// One growth pass: the gaps are processed from the last to the first,
    /// each handing up to `rate` positions to its left replicated neighbour
    /// and then to its right one; a gap used up between two replicated runs
    /// is removed and the runs joined; finally an empty leading pair is
    /// removed. Returns the number of joins. Replicated positions stay
    /// replicated, and on a packed track exactly the positions within `rate`
    /// of a replicated one end up replicated.
    pub fn replicate_and_merge(&mut self, rate: usize) -> (merged: usize)
        requires
            old(self).wf(),
        ensures
            final(self).wf(),
            final(self).spec_genome_length() == old(self).spec_genome_length(),
            final(self).spec_num_origins() == old(self).spec_num_origins(),
            final(self).lengths() == grown(old(self).lengths(), rate as int),
            merged == merges(old(self).lengths(), rate as int),
            unreplicated_len(final(self).lengths()) <= unreplicated_len(old(self).lengths()),
            complete(old(self).lengths()) ==> complete(final(self).lengths()),
            replicated_len(final(self).lengths()) >= replicated_len(old(self).lengths()),
            covers(old(self)@, final(self)@),
            packed(old(self).lengths()) ==> final(self)@ == dilate(old(self)@, rate as int),
            packed(old(self).lengths()) ==> packed(final(self).lengths()),
            packed(old(self).lengths()) && rate > 0 && replicated_len(old(self).lengths()) > 0
                && unreplicated_len(old(self).lengths()) > 0 ==> unreplicated_len(final(self).lengths())
                < unreplicated_len(old(self).lengths()),
            forall|n: int| #[trigger] zero_from(old(self).lengths(), n) && n % 2 == 0 && 2 <= n
                <= old(self).lengths().len() ==> 2 <= n - 2 * merged && zero_from(
                final(self).lengths(),
                n - 2 * merged,
            ),
    {
        let ghost s = self.replication_state@;
        proof {
            assert forall|n: int| #[trigger] zero_from(s, n) && n % 2 == 0 && 2 <= n <= s.len()
                implies 2 <= n - 2 * merges(s, rate as int) && zero_from(grown(s, rate as int), n - 2 * merges(s, rate as int)) by {
                lemma_grown(s, rate as int, n);
            }
            lemma_grown(s, rate as int, 0);
            lemma_total_split(s);
            lemma_total_split(grown(s, rate as int));
            lemma_grown_covers(s, rate as int);
            if packed(s) {
                lemma_grown_dilates(s, rate as int);
                lemma_grown_progress(s, rate as int);
            }
        }
        let n = self.replication_state.len();
        let mut j: usize = (n - 1) / 2;
        let mut merged: usize = 0;
        while j > 0
            invariant
                self.wf(),
                self.genome_length == old(self).genome_length,
                self.num_origins == old(self).num_origins,
                n == self.replication_state@.len(),
                2 * j + 1 <= n,
                merged <= (n - 1) / 2 - j,
                grow_pass(self.replication_state@, rate as int, j as int) == grow_pass(s, rate as int, (n - 1) / 2),
                merged + pass_merges(self.replication_state@, rate as int, j as int) == pass_merges(s, rate as int, (n - 1) / 2),
            decreases j,
        {
            let ghost before = self.replication_state@;
            proof {
                lemma_grow_gap(before, 2 * j - 1, rate as int, 0);
            }
            let closed = self.grow_gap_at(2 * j - 1, rate);
            if closed {
                merged = merged + 1;
            }
            j = j - 1;
        }
        if self.replication_state[0] == 0 && self.replication_state[1] == 0 {
            drop_pair_in_place(&mut self.replication_state, 0);
        }
        proof {
            assert(self.replication_state@ == trim_lead(grow_pass(s, rate as int, (n - 1) / 2)));
        }
        merged
    }

    /// Index of the slot that holds `position`.
    fn slot_of(&self, position: usize) -> (r: (usize, usize))
        requires
            self.wf(),
            position < self.genome_length,
        ensures
            r.1 == start_of(self.replication_state@, r.0 as int),
            ({
                let k = r.0;
                &&& k < self.replication_state@.len()
                &&& start_of(self.replication_state@, k as int) <= position < start_of(
                    self.replication_state@,
                    k as int,
                ) + self.replication_state@[k as int]
                &&& self@[position as int] == (k % 2 == 0)
            }),
    {
        let ghost g = segments(self.replication_state@);
        let n = self.replication_state.len();
        let mut k: usize = 0;
        let mut cum: usize = 0;
        while k < n
            invariant
                self.wf(),
                g == segments(self.replication_state@),
                n == g.len(),
                0 <= k <= n,
                cum == span(g.take(k as int)),
                cum <= position < self.genome_length,
            decreases n - k,
        {
            let len = self.replication_state[k];
            proof {
                lemma_span_take_step(g, k as int);
                lemma_span_take_le(g, k as int + 1);
                assert(g.take(n as int) =~= g);
            }
            if position - cum < len {
                proof {
                    lemma_expand_at(g, k as int, position as int);
                }
                return (k, cum);
            }
            cum = cum + len;
            k = k + 1;
        }
        proof {
            assert(g.take(n as int) =~= g);
        }
        (0, 0)
    }

    /// Places an origin at the unreplicated `position`: its slot splits into
    /// the part left of it, a replicated point and the part right of it, and
    /// later slots move two places up into the two empty last slots.
    pub fn insert_origin(&mut self, position: usize)
        requires
            old(self).wf(),
            position < old(self).spec_genome_length(),
            !old(self)@[position as int],
            old(self).lengths()[old(self).lengths().len() - 2] == 0,
            old(self).lengths()[old(self).lengths().len() - 1] == 0,
        ensures
            final(self).wf(),
            final(self).spec_genome_length() == old(self).spec_genome_length(),
            final(self).spec_num_origins() == old(self).spec_num_origins(),
            final(self)@ == old(self)@.update(position as int, true),
            exists|i: int|
                0 <= i < old(self).lengths().len() && i % 2 == 1 && start_of(old(self).lengths(), i) <= position
                    < start_of(old(self).lengths(), i) + old(self).lengths()[i] && final(self).lengths()
                    == #[trigger] split_at(old(self).lengths(), i, position as int),
            unreplicated_len(final(self).lengths()) == unreplicated_len(old(self).lengths()) - 1,
            replicated_len(final(self).lengths()) == replicated_len(old(self).lengths()) + 1,
            forall|n: int| #[trigger] zero_from(old(self).lengths(), n) && n + 2 <= old(self).lengths().len()
                ==> zero_from(final(self).lengths(), n + 2),
            packed(old(self).lengths()) ==> packed(final(self).lengths()),
    {
        let (k, start) = self.slot_of(position);
        let ghost s = self.replication_state@;
        let n = self.replication_state.len();
        let cur = self.replication_state[k];
        let left = position - start;
        let right = cur - left - 1;
        let mut x = n - 1;
        while x > k + 2
            invariant
                n == self.replication_state@.len(),
                n == s.len(),
                k + 2 <= x < n,
                forall|y: int| 0 <= y <= x ==> #[trigger] self.replication_state@[y] == s[y],
                forall|y: int| x < y < n ==> #[trigger] self.replication_state@[y] == s[y - 2],
                self.genome_length == old(self).genome_length,
                self.num_origins == old(self).num_origins,
            decreases x,
        {
            let moved = self.replication_state[x - 2];
            self.replication_state.set(x, moved);
            x = x - 1;
        }
        self.replication_state.set(k + 2, right);
        self.replication_state.set(k + 1, 1);
        self.replication_state.set(k, left);
        proof {
            let t = self.replication_state@;
            assert(t =~= split_at(s, k as int, position as int));
            lemma_split_view(s, k as int, position as int);
            lemma_expand_len(segments(s));
            lemma_expand_len(segments(t));
            lemma_total_split(s);
            lemma_total_split(t);
            if packed(s) {
                assert forall|y: int| 2 <= y < t.len() && y % 2 == 0 && #[trigger] t[y] == 0 implies zero_from(t, y) by {
                    if y < k {
                        assert(t[y] == s[y]);
                        assert(zero_from(s, y));
                        assert(s[k as int] == 0);
                    } else {
                        assert(y >= k + 3);
                        assert(t[y] == s[y - 2]);
                        assert(zero_from(s, y - 2));
                        assert forall|x: int| y <= x < t.len() implies #[trigger] t[x] == 0 by {
                            assert(t[x] == s[x - 2]);
                        }
                    }
                }
            }
            assert forall|m: int| #[trigger] zero_from(s, m) && m + 2 <= s.len() implies zero_from(t, m + 2) by {
                assert forall|y: int| m + 2 <= y < t.len() implies #[trigger] t[y] == 0 by {
                    if k >= m {
                        assert(s[k as int] == 0);
                    }
                    assert(t[y] == s[y - 2]);
                }
            }
        }
    }

    /// Number of unreplicated positions.
    pub fn unreplicated_count(&self) -> (u: usize)
        requires
            self.wf(),
        ensures
            u == unreplicated_len(self.lengths()),
            u == count_unreplicated(self@),
    {
        let ghost s = self.replication_state@;
        let n = self.replication_state.len();
        let mut k: usize = 0;
        let mut u: usize = 0;
        proof {
            assert(s.take(0) =~= Seq::<usize>::empty());
        }
        while k < n
            invariant
                self.wf(),
                s == self.replication_state@,
                n == s.len(),
                k <= n,
                u == wsum(s.take(k as int), 1),
            decreases n - k,
        {
            proof {
                assert(s.take(k as int + 1).drop_last() =~= s.take(k as int));
                lemma_wsum_concat(s.take(k as int + 1), s.skip(k as int + 1), 1);
                assert(s.take(k as int + 1) + s.skip(k as int + 1) =~= s);
                lemma_wsum_nonneg(s.skip(k as int + 1), (1 + k + 1) % 2);
                lemma_total_split(s);
                lemma_wsum_nonneg(s, 0);
            }
            if k % 2 == 1 {
                u = u + self.replication_state[k];
            }
            k = k + 1;
        }
        proof {
            assert(s.take(n as int) =~= s);
            lemma_count_view(s);
        }
        u
    }

    /// The unreplicated position with exactly `rank` unreplicated positions
    /// before it.
    pub fn nth_unreplicated(&self, rank: usize) -> (position: usize)
        requires
            self.wf(),
            rank < unreplicated_len(self.lengths()),
        ensures
            position < self.spec_genome_length(),
            !self@[position as int],
            count_unreplicated(self@.take(position as int)) == rank,
    {
        let ghost s = self.replication_state@;
        let ghost g = segments(s);
        let n = self.replication_state.len();
        let mut k: usize = 0;
        let mut cum: usize = 0;
        let mut rem: usize = rank;
        proof {
            assert(s.take(0) =~= Seq::<usize>::empty());
            assert(g.take(0) =~= Seq::<(bool, nat)>::empty());
        }
        while k < n
            invariant
                self.wf(),
                s == self.replication_state@,
                g == segments(s),
                n == s.len(),
                k <= n,
                cum == span(g.take(k as int)),
                rem <= rank,
                rank - rem == wsum(s.take(k as int), 1),
                rank < wsum(s, 1),
            decreases n - k,
        {
            let len = self.replication_state[k];
            proof {
                lemma_span_take_step(g, k as int);
                lemma_span_take_le(g, k as int + 1);
                assert(g.take(n as int) =~= g);
                assert(s.take(k as int + 1).drop_last() =~= s.take(k as int));
            }
            if k % 2 == 1 && rem < len {
                proof {
                    let p = cum + rem;
                    lemma_expand_at(g, k as int, p);
                    lemma_expand_prefix(g, k as int, rem as int);
                    assert(g.take(k as int) =~= segments(s.take(k as int)));
                    lemma_count_view(s.take(k as int));
                    lemma_count_concat(expand(g.take(k as int)), flat(false, rem as nat));
                    lemma_count_flat(false, rem as nat);
                    lemma_expand_len(g);
                }
                return cum + rem;
            }
            if k % 2 == 1 {
                rem = rem - len;
            }
            cum = cum + len;
            k = k + 1;
        }
        proof {
            assert(s.take(n as int) =~= s);
        }
        0
    }

    /// Whether every unreplicated slot is empty.
    pub fn is_fully_replicated(&self) -> (r: bool)
        ensures
            r == complete(self.lengths()),
    {
        let mut i: usize = 0;
        while i < self.replication_state.len()
            invariant
                i <= self.replication_state@.len(),
                forall|j: int| 0 <= j < i && j % 2 == 1 ==> #[trigger] self.replication_state@[j] == 0,
            decreases self.replication_state.len() - i,
        {
            if i % 2 == 1 && self.replication_state[i] != 0 {
                return false;
            }
            i = i + 1;
        }
        true
    }
}

pub proof fn lemma_wsum_nonneg(s: Seq<usize>, par: int)
    ensures
        wsum(s, par) >= 0,
    decreases s.len(),
{
    if s.len() > 0 {
        lemma_wsum_nonneg(s.drop_last(), par);
    }
}

/// The total splits into the replicated and the unreplicated sum.
pub proof fn lemma_total_split(s: Seq<usize>)
    ensures
        total(s) == wsum(s, 0) + wsum(s, 1),
    decreases s.len(),
{
    if s.len() > 0 {
        assert(segments(s).drop_last() =~= segments(s.drop_last()));
        lemma_total_split(s.drop_last());
    }
}

/// Changing one slot changes the sum of its parity by the difference.
pub proof fn lemma_wsum_update(s: Seq<usize>, i: int, v: usize, par: int)
    requires
        0 <= i < s.len(),
    ensures
        wsum(s.update(i, v), par) == wsum(s, par) + if i % 2 == par { v - s[i] } else { 0 },
    decreases s.len(),
{
    let t = s.update(i, v);
    if i == s.len() - 1 {
        assert(t.drop_last() =~= s.drop_last());
    } else {
        assert(t.drop_last() =~= s.drop_last().update(i, v));
        lemma_wsum_update(s.drop_last(), i, v, par);
    }
}

/// The parity sums of a concatenation; the second part's indices are offset.
pub proof fn lemma_wsum_concat(a: Seq<usize>, b: Seq<usize>, par: int)
    requires
        0 <= par <= 1,
    ensures
        wsum(a + b, par) == wsum(a, par) + wsum(b, (par + a.len()) % 2),
    decreases b.len(),
{
    if b.len() == 0 {
        assert(a + b =~= a);
    } else {
        assert((a + b).drop_last() =~= a + b.drop_last());
        lemma_wsum_concat(a, b.drop_last(), par);
    }
}

pub proof fn lemma_wsum_pair(x: usize, y: usize, par: int)
    requires
        0 <= par <= 1,
    ensures
        wsum(seq![x, y], par) == if par == 0 { x as int } else { y as int },
{
    assert(seq![x, y].drop_last() =~= seq![x]);
    assert(seq![x].drop_last() =~= Seq::<usize>::empty());
    assert(wsum(Seq::<usize>::empty(), par) == 0);
    assert(wsum(seq![x], par) == if par == 0 { x as int } else { 0 });
}

/// Two distinct slots hold no more than the total.
pub proof fn lemma_two_le_total(s: Seq<usize>, a: int, b: int)
    requires
        0 <= a < s.len(),
        0 <= b < s.len(),
        a != b,
    ensures
        s[a] + s[b] <= total(s),
{
    let t = s.update(a, 0usize).update(b, 0usize);
    lemma_wsum_update(s, a, 0usize, 0);
    lemma_wsum_update(s, a, 0usize, 1);
    lemma_wsum_update(s.update(a, 0usize), b, 0usize, 0);
    lemma_wsum_update(s.update(a, 0usize), b, 0usize, 1);
    lemma_wsum_nonneg(t, 0);
    lemma_wsum_nonneg(t, 1);
    lemma_total_split(s);
}

/// Splitting slot `k` around `p` sets the flag of `p` and nothing else, and
/// moves one position from the unreplicated to the replicated sum.
pub proof fn lemma_split_view(s: Seq<usize>, k: int, p: int)
    requires
        s.len() % 2 == 1,
        k % 2 == 1,
        1 <= k,
        k + 3 <= s.len(),
        s[s.len() - 2] == 0,
        s[s.len() - 1] == 0,
        start_of(s, k) <= p < start_of(s, k) + s[k],
    ensures
        expand(segments(split_at(s, k, p))) == expand(segments(s)).update(p, true),
        unreplicated_len(split_at(s, k, p)) == unreplicated_len(s) - 1,
        split_at(s, k, p).len() == s.len(),
{
    let n = s.len() as int;
    let a = start_of(s, k);
    let left = (p - a) as usize;
    let right = (a + s[k] - p - 1) as usize;
    let t = split_at(s, k, p);
    let head = s.take(k);
    let mid = s.subrange(k + 1, n - 2);
    let trip = seq![left, 1usize, right];
    let g = segments(s);
    let gh = g.take(k);
    let gm = g.subrange(k + 1, n - 2);
    let gtrip = seq![(false, left as nat), (true, 1nat), (false, right as nat)];
    let gtail = seq![(false, 0nat), (true, 0nat)];
    assert(segments(t) =~= gh + gtrip + gm);
    assert(g =~= gh + seq![(false, s[k] as nat)] + gm + gtail);
    lemma_expand_concat(gh, gtrip);
    lemma_expand_concat(gh + gtrip, gm);
    lemma_expand_concat(gh, seq![(false, s[k] as nat)]);
    lemma_expand_concat(gh + seq![(false, s[k] as nat)], gm);
    lemma_expand_concat(gh + seq![(false, s[k] as nat)] + gm, gtail);
    lemma_expand_single(false, s[k] as nat);
    lemma_expand_len(gh);
    let g3 = seq![(false, left as nat), (true, 1nat)];
    assert(gtrip.drop_last() =~= g3);
    assert(g3.drop_last() =~= seq![(false, left as nat)]);
    lemma_expand_single(false, left as nat);
    assert(gtail.drop_last() =~= seq![(false, 0nat)]);
    lemma_expand_single(false, 0);
    assert(expand(gtail) =~= Seq::<bool>::empty());
    let fl = flat(false, left as nat) + flat(true, 1) + flat(false, right as nat);
    assert(expand(g3) == expand(seq![(false, left as nat)]) + flat(true, 1));
    assert(expand(gtrip) == expand(g3) + flat(false, right as nat));
    assert(expand(gtrip) =~= fl);
    assert(flat(false, s[k] as nat).update(left as int, true) =~= fl);
    let eh = expand(gh);
    let em = expand(gm);
    assert((eh + flat(false, s[k] as nat) + em).update(p, true) =~= eh + fl + em);
    assert(expand(segments(t)) =~= eh + fl + em);
    assert(expand(g) =~= eh + flat(false, s[k] as nat) + em);
    // the unreplicated sum
    assert(s =~= head + seq![s[k]] + mid + seq![0usize, 0usize]);
    lemma_wsum_concat(head, trip, 1);
    lemma_wsum_concat(head + trip, mid, 1);
    lemma_wsum_concat(head, seq![s[k]], 1);
    lemma_wsum_concat(head + seq![s[k]], mid, 1);
    lemma_wsum_concat(head + seq![s[k]] + mid, seq![0usize, 0usize], 1);
    lemma_wsum_pair(0usize, 0usize, (1 + n - 2) % 2);
    assert(trip.drop_last() =~= seq![left, 1usize]);
    lemma_wsum_pair(left, 1usize, 0);
    assert(seq![s[k]].drop_last() =~= Seq::<usize>::empty());
    assert(wsum(Seq::<usize>::empty(), 0) == 0);
}

/// The unreplicated sum counts the unreplicated positions.
pub proof fn lemma_count_view(s: Seq<usize>)
    ensures
        count_unreplicated(expand(segments(s))) == wsum(s, 1),
    decreases s.len(),
{
    if s.len() > 0 {
        let d = s.drop_last();
        assert(segments(s).drop_last() =~= segments(d));
        lemma_count_view(d);
        let last = segments(s).last();
        lemma_count_concat(expand(segments(d)), flat(last.0, last.1));
        lemma_count_flat(last.0, last.1);
    }
}

/// Removes slots `i` and `i + 1`, moving later slots two places down and
/// emptying the last two.
fn drop_pair_in_place(v: &mut Vec<usize>, i: usize)
    requires
        i + 2 <= old(v).len(),
    ensures
        final(v)@ == drop_pair(old(v)@, i as int),
{
    let ghost orig = v@;
    let n = v.len();
    let mut x = i;
    while x + 2 < n
        invariant
            n == v.len(),
            n == orig.len(),
            i <= x,
            x + 2 <= n,
            forall|y: int| 0 <= y < i ==> #[trigger] v@[y] == orig[y],
            forall|y: int| i <= y < x ==> #[trigger] v@[y] == orig[y + 2],
            forall|y: int| x <= y < n ==> #[trigger] v@[y] == orig[y],
        decreases n - x,
    {
        let moved = v[x + 2];
        v.set(x, moved);
        x = x + 1;
    }
    v.set(n - 2, 0);
    v.set(n - 1, 0);
    proof {
        assert(v@ =~= drop_pair(orig, i as int));
    }
}

/// A prefix spans no more than the whole.
pub proof fn lemma_span_take_le(r: Seq<(bool, nat)>, k: int)
    requires
        0 <= k <= r.len(),
    ensures
        span(r.take(k)) <= span(r),
    decreases r.len() - k,
{
    if k < r.len() {
        lemma_span_take_step(r, k);
        lemma_span_take_le(r, k + 1);
    } else {
        assert(r.take(k) =~= r);
    }
}

/// Spans of prefixes are monotone.
pub proof fn lemma_span_take_mono(r: Seq<(bool, nat)>, i: int, j: int)
    requires
        0 <= i <= j <= r.len(),
    ensures
        span(r.take(i)) <= span(r.take(j)),
    decreases j - i,
{
    if i < j {
        lemma_span_take_step(r, j - 1);
        lemma_span_take_mono(r, i, j - 1);
    }
}

/// A position below the span of the first `m` runs lies in one of them.
pub proof fn lemma_slot_exists(r: Seq<(bool, nat)>, q: int, m: int)
    requires
        0 <= m <= r.len(),
        0 <= q < span(r.take(m)),
    ensures
        exists|k: int| 0 <= k < m && #[trigger] span(r.take(k)) <= q < span(r.take(k)) + r[k].1,
    decreases m,
{
    lemma_span_take_step(r, m - 1);
    if q < span(r.take(m - 1)) {
        lemma_slot_exists(r, q, m - 1);
    } else {
        assert(span(r.take(m - 1)) <= q < span(r.take(m - 1)) + r[m - 1].1);
    }
}

/// Runs of length zero after `k` add nothing.
pub proof fn lemma_span_zero_tail(r: Seq<(bool, nat)>, k: int)
    requires
        0 <= k <= r.len(),
        forall|i: int| k <= i < r.len() ==> #[trigger] r[i].1 == 0,
    ensures
        span(r) == span(r.take(k)),
    decreases r.len() - k,
{
    if k < r.len() {
        lemma_span_take_step(r, k);
        lemma_span_zero_tail(r, k + 1);
    } else {
        assert(r.take(k) =~= r);
    }
}

} // verus!
