//! One growth pass over a segment track, stated slot by slot: every gap,
//! from the last to the first, hands up to `rate` positions to its left
//! replicated neighbour and then to its right one, and a gap that closes
//! between two replicated runs is removed so that they join.

use vstd::prelude::*;
use vstd::math::min;
use crate::runs::{expand, flat, span, lemma_expand_at, lemma_expand_concat, lemma_expand_len,
    lemma_expand_single, lemma_span_take_step};
use crate::track::{segments, start_of, lemma_span_take_le, lemma_span_zero_tail, complete, total, unreplicated_len, wsum, zero_from, lemma_total_split,
    lemma_two_le_total, lemma_wsum_concat, lemma_wsum_nonneg, lemma_wsum_pair, lemma_wsum_update};

verus! {

/// Slots `i` and `i + 1` removed, later slots moved two places down, and two
/// empty slots appended.
pub open spec fn drop_pair(s: Seq<usize>, i: int) -> Seq<usize> {
    s.take(i) + s.skip(i + 2) + seq![0usize, 0usize]
}

/// What the gap at odd slot `i` hands to its left neighbour.
pub open spec fn to_left(s: Seq<usize>, i: int, rate: int) -> int {
    if s[i - 1] > 0 { min(s[i] as int, rate) } else { 0 }
}

/// What the gap at odd slot `i` then hands to its right neighbour.
pub open spec fn to_right(s: Seq<usize>, i: int, rate: int) -> int {
    if s[i + 1] > 0 { min(s[i] - to_left(s, i, rate), rate) } else { 0 }
}

/// The gap at slot `i` is used up and both neighbours are replicated runs.
pub open spec fn gap_closes(s: Seq<usize>, i: int, rate: int) -> bool {
    &&& s[i] - to_left(s, i, rate) - to_right(s, i, rate) == 0
    &&& s[i - 1] > 0
    &&& s[i + 1] > 0
}

/// The slots after the gap at slot `i` has grown its neighbours, before any join.
pub open spec fn handed_out(s: Seq<usize>, i: int, rate: int) -> Seq<usize> {
    let l = to_left(s, i, rate);
    let r = to_right(s, i, rate);
    s.update(i - 1, (s[i - 1] + l) as usize).update(i, (s[i] - l - r) as usize).update(
        i + 1,
        (s[i + 1] + r) as usize,
    )
}

/// The slots after the gap at slot `i` has been processed.
pub open spec fn grow_gap(s: Seq<usize>, i: int, rate: int) -> Seq<usize> {
    let t = handed_out(s, i, rate);
    if gap_closes(s, i, rate) {
        drop_pair(t.update(i - 1, (t[i - 1] + t[i + 1]) as usize), i)
    } else {
        t
    }
}

/// The gaps at slots `2j - 1, 2j - 3, ..., 1` processed in that order.
pub open spec fn grow_pass(s: Seq<usize>, rate: int, j: int) -> Seq<usize>
    decreases j,
{
    if j <= 0 {
        s
    } else {
        grow_pass(grow_gap(s, 2 * j - 1, rate), rate, j - 1)
    }
}

/// How many gaps closed between two replicated runs in `grow_pass(s, rate, j)`.
pub open spec fn pass_merges(s: Seq<usize>, rate: int, j: int) -> nat
    decreases j,
{
    if j <= 0 {
        0
    } else {
        (if gap_closes(s, 2 * j - 1, rate) { 1nat } else { 0nat }) + pass_merges(
            grow_gap(s, 2 * j - 1, rate),
            rate,
            j - 1,
        )
    }
}

/// Every empty even slot past the first has only empty slots after it: the
/// origins in use sit in the even slots `2, 4, ...` before all empty ones.
pub open spec fn packed(s: Seq<usize>) -> bool {
    forall|i: int| 2 <= i < s.len() && i % 2 == 0 && #[trigger] s[i] == 0 ==> zero_from(s, i)
}

/// The leading pair removed when both its slots are empty.
pub open spec fn trim_lead(s: Seq<usize>) -> Seq<usize> {
    if s[0] == 0 && s[1] == 0 { drop_pair(s, 0) } else { s }
}

/// Number of gap slots of a track of `n` slots.
pub open spec fn gap_count(n: nat) -> int {
    (n - 1) / 2
}

/// A whole growth pass: every gap from the last to the first, then the
/// leading pair trimmed.
pub open spec fn grown(s: Seq<usize>, rate: int) -> Seq<usize> {
    trim_lead(grow_pass(s, rate, gap_count(s.len())))
}

/// Joins in a whole growth pass.
pub open spec fn merges(s: Seq<usize>, rate: int) -> nat {
    pass_merges(s, rate, gap_count(s.len()))
}

/// What removing a pair does to the sums: the pair's odd slot leaves the
/// unreplicated sum, its even slot the replicated one.
pub proof fn lemma_drop_pair_sums(s: Seq<usize>, i: int)
    requires
        0 <= i,
        i + 2 <= s.len(),
    ensures
        drop_pair(s, i).len() == s.len(),
        wsum(drop_pair(s, i), 1) == wsum(s, 1) - (if i % 2 == 1 { s[i] } else { s[i + 1] }),
        wsum(drop_pair(s, i), 0) == wsum(s, 0) - (if i % 2 == 0 { s[i] } else { s[i + 1] }),
        total(drop_pair(s, i)) == total(s) - s[i] - s[i + 1],
{
    let a = s.take(i);
    let p = s.subrange(i, i + 2);
    let c = s.skip(i + 2);
    assert(s =~= a + p + c);
    assert(p =~= seq![s[i], s[i + 1]]);
    assert forall|par: int| 0 <= par <= 1 implies wsum(drop_pair(s, i), par) == wsum(s, par)
        - (if i % 2 == par { s[i] } else { s[i + 1] }) by {
        lemma_wsum_concat(a, p, par);
        lemma_wsum_concat(a + p, c, par);
        lemma_wsum_concat(a, c, par);
        lemma_wsum_concat(a + c, seq![0usize, 0usize], par);
        lemma_wsum_pair(s[i], s[i + 1], (par + i) % 2);
        lemma_wsum_pair(0usize, 0usize, (par + i + c.len()) % 2);
    }
    lemma_total_split(s);
    lemma_total_split(drop_pair(s, i));
}

/// One gap's step keeps the slot count and the total, takes from the
/// unreplicated sum exactly what it hands out, and keeps empty slots empty
/// (a join moves the empty tail two slots down).
pub proof fn lemma_grow_gap(s: Seq<usize>, i: int, rate: int, n: int)
    requires
        i % 2 == 1,
        1 <= i,
        i + 2 <= s.len(),
        rate >= 0,
        total(s) <= usize::MAX,
    ensures
        0 <= to_left(s, i, rate),
        0 <= to_right(s, i, rate),
        to_left(s, i, rate) + to_right(s, i, rate) <= s[i],
        s[i - 1] + to_left(s, i, rate) + s[i + 1] + to_right(s, i, rate) <= total(s),
        total(handed_out(s, i, rate)) == total(s),
        grow_gap(s, i, rate).len() == s.len(),
        total(grow_gap(s, i, rate)) == total(s),
        unreplicated_len(grow_gap(s, i, rate)) == unreplicated_len(s) - to_left(s, i, rate)
            - to_right(s, i, rate),
        zero_from(s, n) && n % 2 == 0 && 2 <= n <= s.len() ==> {
            let m = if gap_closes(s, i, rate) { n - 2 } else { n };
            2 <= m && zero_from(grow_gap(s, i, rate), m)
        },
{
    let l = to_left(s, i, rate);
    let r = to_right(s, i, rate);
    lemma_two_le_total(s, i - 1, i + 1);
    lemma_three_le_total(s, i - 1, i, i + 1);
    let t1 = s.update(i - 1, (s[i - 1] + l) as usize);
    let t2 = t1.update(i, (s[i] - l - r) as usize);
    let t = t2.update(i + 1, (s[i + 1] + r) as usize);
    assert(t == handed_out(s, i, rate));
    assert forall|par: int| 0 <= par <= 1 implies wsum(t, par) == wsum(s, par) + (if par == 0 { l + r } else { -l - r }) by {
        lemma_wsum_update(s, i - 1, (s[i - 1] + l) as usize, par);
        lemma_wsum_update(t1, i, (s[i] - l - r) as usize, par);
        lemma_wsum_update(t2, i + 1, (s[i + 1] + r) as usize, par);
    }
    lemma_total_split(s);
    lemma_total_split(t);
    if gap_closes(s, i, rate) {
        let u = t.update(i - 1, (t[i - 1] + t[i + 1]) as usize);
        lemma_two_le_total(t, i - 1, i + 1);
        lemma_wsum_update(t, i - 1, (t[i - 1] + t[i + 1]) as usize, 0);
        lemma_wsum_update(t, i - 1, (t[i - 1] + t[i + 1]) as usize, 1);
        lemma_total_split(u);
        lemma_drop_pair_sums(u, i);
        if zero_from(s, n) && n % 2 == 0 && 2 <= n <= s.len() {
            assert(i + 1 < n);
            let d = drop_pair(u, i);
            assert forall|x: int| n - 2 <= x < d.len() implies #[trigger] d[x] == 0 by {
                if x + 2 < s.len() {
                    assert(d[x] == u[x + 2]);
                }
            }
        }
    }
}

/// Three distinct slots hold no more than the total.
pub proof fn lemma_three_le_total(s: Seq<usize>, a: int, b: int, c: int)
    requires
        0 <= a < b < c < s.len(),
    ensures
        s[a] + s[b] + s[c] <= total(s),
{
    let t = s.update(a, 0usize).update(b, 0usize).update(c, 0usize);
    assert forall|par: int| 0 <= par <= 1 implies wsum(t, par) == wsum(s, par)
        - (if a % 2 == par { s[a] as int } else { 0 }) - (if b % 2 == par { s[b] as int } else { 0 })
        - (if c % 2 == par { s[c] as int } else { 0 }) by {
        lemma_wsum_update(s, a, 0usize, par);
        lemma_wsum_update(s.update(a, 0usize), b, 0usize, par);
        lemma_wsum_update(s.update(a, 0usize).update(b, 0usize), c, 0usize, par);
    }
    lemma_wsum_nonneg(t, 0);
    lemma_wsum_nonneg(t, 1);
    lemma_total_split(s);
}

/// A run of gap steps keeps the slot count and the total, never adds to the
/// unreplicated sum, joins at most one pair per gap, and moves the empty tail
/// two slots down per join.
pub proof fn lemma_grow_pass(s: Seq<usize>, rate: int, j: int, n: int)
    requires
        0 <= j,
        2 * j + 1 <= s.len(),
        rate >= 0,
        total(s) <= usize::MAX,
    ensures
        grow_pass(s, rate, j).len() == s.len(),
        total(grow_pass(s, rate, j)) == total(s),
        unreplicated_len(grow_pass(s, rate, j)) <= unreplicated_len(s),
        pass_merges(s, rate, j) <= j,
        zero_from(s, n) && n % 2 == 0 && 2 <= n <= s.len() ==> 2 <= n - 2 * pass_merges(s, rate, j)
            && zero_from(grow_pass(s, rate, j), n - 2 * pass_merges(s, rate, j)),
    decreases j,
{
    if j > 0 {
        let g = grow_gap(s, 2 * j - 1, rate);
        lemma_grow_gap(s, 2 * j - 1, rate, n);
        let m = if gap_closes(s, 2 * j - 1, rate) { n - 2 } else { n };
        lemma_grow_pass(g, rate, j - 1, m);
    }
}

/// An empty track start removed: nothing is counted differently.
pub proof fn lemma_trim_lead(s: Seq<usize>, n: int)
    requires
        2 <= s.len(),
    ensures
        trim_lead(s).len() == s.len(),
        total(trim_lead(s)) == total(s),
        unreplicated_len(trim_lead(s)) == unreplicated_len(s),
        zero_from(s, n) && 0 <= n ==> zero_from(trim_lead(s), n),
{
    if s[0] == 0 && s[1] == 0 {
        lemma_drop_pair_sums(s, 0);
        let d = drop_pair(s, 0);
        if zero_from(s, n) && 0 <= n {
            assert forall|x: int| n <= x < d.len() implies #[trigger] d[x] == 0 by {
                if x + 2 < s.len() {
                    assert(d[x] == s[x + 2]);
                }
            }
        }
    }
}

/// A track is complete exactly when its unreplicated sum is zero.
pub proof fn lemma_complete_iff(s: Seq<usize>)
    ensures
        complete(s) <==> unreplicated_len(s) == 0,
    decreases s.len(),
{
    lemma_wsum_nonneg(s, 1);
    if s.len() > 0 {
        let d = s.drop_last();
        lemma_complete_iff(d);
        lemma_wsum_nonneg(d, 1);
        if complete(s) {
            assert(complete(d)) by {
                assert forall|i: int| 0 <= i < d.len() && i % 2 == 1 implies #[trigger] d[i] == 0 by {
                    assert(s[i] == 0);
                }
            }
        }
        if unreplicated_len(s) == 0 {
            assert forall|i: int| 0 <= i < s.len() && i % 2 == 1 implies #[trigger] s[i] == 0 by {
                if i < d.len() {
                    assert(d[i] == s[i]);
                }
            }
        }
    }
}

/// What a whole growth pass keeps, and what it never undoes.
pub proof fn lemma_grown(s: Seq<usize>, rate: int, n: int)
    requires
        s.len() % 2 == 1,
        3 <= s.len(),
        rate >= 0,
        total(s) <= usize::MAX,
    ensures
        grown(s, rate).len() == s.len(),
        total(grown(s, rate)) == total(s),
        unreplicated_len(grown(s, rate)) <= unreplicated_len(s),
        merges(s, rate) <= gap_count(s.len()),
        complete(s) ==> complete(grown(s, rate)),
        zero_from(s, n) && n % 2 == 0 && 2 <= n <= s.len() ==> 2 <= n - 2 * merges(s, rate)
            && zero_from(grown(s, rate), n - 2 * merges(s, rate)),
{
    let k = gap_count(s.len());
    lemma_grow_pass(s, rate, k, n);
    let p = grow_pass(s, rate, k);
    lemma_trim_lead(p, n - 2 * merges(s, rate));
    lemma_complete_iff(s);
    lemma_complete_iff(grown(s, rate));
    lemma_wsum_nonneg(grown(s, rate), 1);
}

/// One gap's step leaves the slots left of its left neighbour alone, never
/// shrinks that neighbour, and keeps the track packed.
pub proof fn lemma_grow_gap_shape(s: Seq<usize>, i: int, rate: int)
    requires
        i % 2 == 1,
        1 <= i,
        i + 2 <= s.len(),
        rate >= 0,
        total(s) <= usize::MAX,
    ensures
        forall|x: int| 0 <= x < i - 1 ==> #[trigger] grow_gap(s, i, rate)[x] == s[x],
        grow_gap(s, i, rate)[i - 1] >= s[i - 1],
        s[i - 1] == 0 ==> grow_gap(s, i, rate)[i - 1] == 0,
        packed(s) ==> packed(grow_gap(s, i, rate)),
{
    lemma_grow_gap(s, i, rate, 0);
    let t = handed_out(s, i, rate);
    let d = grow_gap(s, i, rate);
    if gap_closes(s, i, rate) {
        let u = t.update(i - 1, (t[i - 1] + t[i + 1]) as usize);
        lemma_two_le_total(t, i - 1, i + 1);
        assert forall|x: int| 0 <= x < i - 1 implies #[trigger] d[x] == s[x] by {
            assert(d[x] == u[x]);
        }
        assert(d[i - 1] == u[i - 1]);
        if packed(s) {
            assert forall|y: int| 2 <= y < d.len() && y % 2 == 0 && #[trigger] d[y] == 0 implies zero_from(d, y) by {
                if y < i - 1 {
                    assert(d[y] == s[y]);
                    assert(zero_from(s, y));
                    assert(s[i - 1] == 0);
                } else {
                    assert(y >= i + 1);
                    if y + 2 < s.len() {
                        assert(d[y] == s[y + 2]);
                        assert(zero_from(s, y + 2));
                    }
                    assert forall|x: int| y <= x < d.len() implies #[trigger] d[x] == 0 by {
                        if x + 2 < s.len() {
                            assert(d[x] == u[x + 2]);
                            assert(zero_from(s, y + 2));
                        }
                    }
                }
            }
        }
    } else {
        if packed(s) {
            assert forall|y: int| 2 <= y < d.len() && y % 2 == 0 && #[trigger] d[y] == 0 implies zero_from(d, y) by {
                assert(s[y] == 0);
                assert(zero_from(s, y));
                assert forall|x: int| y <= x < d.len() implies #[trigger] d[x] == 0 by {
                    assert(s[x] == 0);
                }
            }
        }
    }
}

/// Trimming an empty leading pair keeps the track packed.
pub proof fn lemma_trim_packed(s: Seq<usize>)
    requires
        2 <= s.len(),
        packed(s),
    ensures
        packed(trim_lead(s)),
{
    if s[0] == 0 && s[1] == 0 {
        let d = drop_pair(s, 0);
        assert forall|y: int| 2 <= y < d.len() && y % 2 == 0 && #[trigger] d[y] == 0 implies zero_from(d, y) by {
            if y + 2 < s.len() {
                assert(d[y] == s[y + 2]);
                assert(zero_from(s, y + 2));
            }
            assert forall|x: int| y <= x < d.len() implies #[trigger] d[x] == 0 by {
                if x + 2 < s.len() {
                    assert(d[x] == s[x + 2]);
                }
            }
        }
    }
}

/// A parity sum is zero exactly when every slot of that parity is empty.
pub proof fn lemma_wsum_zero(s: Seq<usize>, par: int)
    requires
        0 <= par <= 1,
    ensures
        wsum(s, par) == 0 <==> forall|i: int| 0 <= i < s.len() && i % 2 == par ==> #[trigger] s[i] == 0,
    decreases s.len(),
{
    lemma_wsum_nonneg(s, par);
    if s.len() > 0 {
        let d = s.drop_last();
        lemma_wsum_zero(d, par);
        lemma_wsum_nonneg(d, par);
        if forall|i: int| 0 <= i < s.len() && i % 2 == par ==> #[trigger] s[i] == 0 {
            assert forall|i: int| 0 <= i < d.len() && i % 2 == par implies #[trigger] d[i] == 0 by {
                assert(s[i] == 0);
            }
        }
        if wsum(s, par) == 0 {
            assert forall|i: int| 0 <= i < s.len() && i % 2 == par implies #[trigger] s[i] == 0 by {
                if i < d.len() {
                    assert(d[i] == s[i]);
                }
            }
        }
    }
}

/// In a packed track, a pass over the gaps `2j - 1, ..., 1` at a positive
/// rate hands out at least one position when one of those gaps is non-empty
/// and has a replicated neighbour or lies past slot 1.
pub proof fn lemma_pass_progress(s: Seq<usize>, rate: int, j: int, i: int)
    requires
        1 <= j,
        2 * j + 1 <= s.len(),
        rate >= 1,
        total(s) <= usize::MAX,
        packed(s),
        i % 2 == 1,
        1 <= i <= 2 * j - 1,
        s[i] > 0,
        i >= 3 || s[0] > 0 || s[2] > 0,
    ensures
        unreplicated_len(grow_pass(s, rate, j)) < unreplicated_len(s),
    decreases j,
{
    let g = 2 * j - 1;
    let d = grow_gap(s, g, rate);
    lemma_grow_gap(s, g, rate, 0);
    lemma_grow_gap_shape(s, g, rate);
    if i == g {
        if g >= 3 {
            if s[g - 1] == 0 {
                assert(zero_from(s, g - 1));
                assert(s[g] == 0);
            }
        }
        assert(to_left(s, g, rate) + to_right(s, g, rate) > 0);
        lemma_grow_pass(d, rate, j - 1, 0);
    } else {
        assert(d[i] == s[i]);
        if i == 1 {
            assert(d[0] == s[0]);
            if g == 3 {
                assert(d[2] >= s[2]);
            } else {
                assert(d[2] == s[2]);
            }
        }
        lemma_pass_progress(d, rate, j - 1, i);
    }
}

/// A whole growth pass of a packed track at a positive rate keeps it packed,
/// and strictly shrinks the unreplicated length when some position is
/// replicated and some is not.
pub proof fn lemma_grown_progress(s: Seq<usize>, rate: int)
    requires
        s.len() % 2 == 1,
        3 <= s.len(),
        rate >= 0,
        total(s) <= usize::MAX,
        packed(s),
    ensures
        packed(grown(s, rate)),
        rate >= 1 && wsum(s, 0) > 0 && wsum(s, 1) > 0 ==> unreplicated_len(grown(s, rate)) < unreplicated_len(s),
{
    let k = gap_count(s.len());
    lemma_pass_packed(s, rate, k);
    lemma_grow_pass(s, rate, k, 0);
    lemma_trim_packed(grow_pass(s, rate, k));
    lemma_trim_lead(grow_pass(s, rate, k), 0);
    if rate >= 1 && wsum(s, 0) > 0 && wsum(s, 1) > 0 {
        lemma_wsum_zero(s, 1);
        lemma_wsum_zero(s, 0);
        let i = choose|i: int| 0 <= i < s.len() && i % 2 == 1 && #[trigger] s[i] != 0;
        if i == 1 && s[0] == 0 && s[2] == 0 {
            assert(zero_from(s, 2));
            assert forall|x: int| 0 <= x < s.len() && x % 2 == 0 implies #[trigger] s[x] == 0 by {
                if x >= 2 {
                    assert(zero_from(s, 2));
                }
            }
        }
        assert(i <= s.len() - 2);
        lemma_pass_progress(s, rate, k, i);
    }
}

/// A run of gap steps keeps a packed track packed.
pub proof fn lemma_pass_packed(s: Seq<usize>, rate: int, j: int)
    requires
        0 <= j,
        2 * j + 1 <= s.len(),
        rate >= 0,
        total(s) <= usize::MAX,
        packed(s),
    ensures
        packed(grow_pass(s, rate, j)),
    decreases j,
{
    if j > 0 {
        lemma_grow_gap(s, 2 * j - 1, rate, 0);
        lemma_grow_gap_shape(s, 2 * j - 1, rate);
        lemma_pass_packed(grow_gap(s, 2 * j - 1, rate), rate, j - 1);
    }
}

/// Every flag set in `a` is set in `b`, and the two have one length.
pub open spec fn covers(a: Seq<bool>, b: Seq<bool>) -> bool {
    a.len() == b.len() && forall|p: int| 0 <= p < a.len() && #[trigger] a[p] ==> b[p]
}

proof fn lemma_covers_concat(a1: Seq<bool>, b1: Seq<bool>, a2: Seq<bool>, b2: Seq<bool>)
    requires
        covers(a1, b1),
        covers(a2, b2),
    ensures
        covers(a1 + a2, b1 + b2),
{
    assert forall|p: int| 0 <= p < (a1 + a2).len() && #[trigger] (a1 + a2)[p] implies (b1 + b2)[p] by {
        if p < a1.len() {
            assert(a1[p]);
        } else {
            assert(a2[p - a1.len()]);
        }
    }
}

pub proof fn lemma_covers_trans(a: Seq<bool>, b: Seq<bool>, c: Seq<bool>)
    requires
        covers(a, b),
        covers(b, c),
    ensures
        covers(a, c),
{
    assert forall|p: int| 0 <= p < a.len() && #[trigger] a[p] implies c[p] by {
        assert(b[p]);
    }
}

/// Three runs `replicated, unreplicated, replicated` written out.
proof fn lemma_expand_three(x: nat, g: nat, y: nat)
    ensures
        expand(seq![(true, x), (false, g), (true, y)]) == flat(true, x) + flat(false, g) + flat(true, y),
{
    let r = seq![(true, x), (false, g), (true, y)];
    assert(r =~= seq![(true, x)] + seq![(false, g)] + seq![(true, y)]);
    lemma_expand_concat(seq![(true, x)], seq![(false, g)]);
    lemma_expand_concat(seq![(true, x)] + seq![(false, g)], seq![(true, y)]);
    lemma_expand_single(true, x);
    lemma_expand_single(false, g);
    lemma_expand_single(true, y);
}

/// The slots around odd slot `i` split the write-out into three parts.
proof fn lemma_expand_around(s: Seq<usize>, i: int)
    requires
        i % 2 == 1,
        1 <= i,
        i + 2 <= s.len(),
    ensures
        expand(segments(s)) == expand(segments(s).take(i - 1)) + (flat(true, s[i - 1] as nat) + flat(
            false,
            s[i] as nat,
        ) + flat(true, s[i + 1] as nat)) + expand(segments(s).skip(i + 2)),
{
    let g = segments(s);
    let mid = seq![(true, s[i - 1] as nat), (false, s[i] as nat), (true, s[i + 1] as nat)];
    assert(g =~= g.take(i - 1) + mid + g.skip(i + 2));
    lemma_expand_concat(g.take(i - 1), mid);
    lemma_expand_concat(g.take(i - 1) + mid, g.skip(i + 2));
    lemma_expand_three(s[i - 1] as nat, s[i] as nat, s[i + 1] as nat);
    assert(expand(g.take(i - 1)) + expand(mid) + expand(g.skip(i + 2)) =~= expand(g.take(i - 1)) + (
    flat(true, s[i - 1] as nat) + flat(false, s[i] as nat) + flat(true, s[i + 1] as nat)) + expand(
        g.skip(i + 2),
    ));
}

/// Removing a pair of empty runs, or the empty gap between two replicated
/// runs that then join, leaves the write-out as it was.
proof fn lemma_drop_pair_view(s: Seq<usize>, i: int)
    requires
        0 <= i,
        i + 2 <= s.len(),
        s.len() % 2 == 1,
        total(s) <= usize::MAX,
        i % 2 == 0 ==> s[i] == 0 && s[i + 1] == 0,
        i % 2 == 1 ==> s[i] == 0,
    ensures
        i % 2 == 0 ==> expand(segments(drop_pair(s, i))) == expand(segments(s)),
        i % 2 == 1 ==> expand(segments(drop_pair(s.update(i - 1, (s[i - 1] + s[i + 1]) as usize), i)))
            == expand(segments(s)),
{
    let n = s.len() as int;
    let tail = seq![(false, 0nat), (true, 0nat)];
    assert(tail =~= seq![(false, 0nat)] + seq![(true, 0nat)]);
    lemma_expand_concat(seq![(false, 0nat)], seq![(true, 0nat)]);
    lemma_expand_single(false, 0);
    lemma_expand_single(true, 0);
    assert(flat(false, 0) =~= Seq::<bool>::empty());
    assert(flat(true, 0) =~= Seq::<bool>::empty());
    assert(expand(tail) =~= Seq::<bool>::empty());
    let g = segments(s);
    if i % 2 == 0 {
        let d = drop_pair(s, i);
        let pair = seq![(true, 0nat), (false, 0nat)];
        assert(pair =~= seq![(true, 0nat)] + seq![(false, 0nat)]);
        lemma_expand_concat(seq![(true, 0nat)], seq![(false, 0nat)]);
        assert(expand(pair) =~= Seq::<bool>::empty());
        assert(g =~= g.take(i) + pair + g.skip(i + 2));
        assert(segments(d) =~= g.take(i) + g.skip(i + 2) + tail);
        lemma_expand_concat(g.take(i), pair);
        lemma_expand_concat(g.take(i) + pair, g.skip(i + 2));
        lemma_expand_concat(g.take(i), g.skip(i + 2));
        lemma_expand_concat(g.take(i) + g.skip(i + 2), tail);
        assert(expand(segments(d)) =~= expand(g));
    } else {
        lemma_two_le_total(s, i - 1, i + 1);
        let u = s.update(i - 1, (s[i - 1] + s[i + 1]) as usize);
        let d = drop_pair(u, i);
        lemma_expand_around(s, i);
        let one = seq![(true, (s[i - 1] + s[i + 1]) as nat)];
        assert(segments(d) =~= g.take(i - 1) + one + g.skip(i + 2) + tail);
        lemma_expand_concat(g.take(i - 1), one);
        lemma_expand_concat(g.take(i - 1) + one, g.skip(i + 2));
        lemma_expand_concat(g.take(i - 1) + one + g.skip(i + 2), tail);
        lemma_expand_single(true, (s[i - 1] + s[i + 1]) as nat);
        assert(flat(true, s[i - 1] as nat) + flat(false, s[i] as nat) + flat(true, s[i + 1] as nat) =~= flat(
            true,
            (s[i - 1] + s[i + 1]) as nat,
        ));
        assert(expand(segments(d)) =~= expand(g));
    }
}

/// One gap's step only sets flags: every replicated position stays so.
pub proof fn lemma_grow_gap_covers(s: Seq<usize>, i: int, rate: int)
    requires
        i % 2 == 1,
        1 <= i,
        i + 2 <= s.len(),
        s.len() % 2 == 1,
        rate >= 0,
        total(s) <= usize::MAX,
    ensures
        covers(expand(segments(s)), expand(segments(grow_gap(s, i, rate)))),
{
    lemma_grow_gap(s, i, rate, 0);
    let l = to_left(s, i, rate);
    let r = to_right(s, i, rate);
    let t = handed_out(s, i, rate);
    lemma_expand_around(s, i);
    lemma_expand_around(t, i);
    assert(segments(t).take(i - 1) =~= segments(s).take(i - 1));
    assert(segments(t).skip(i + 2) =~= segments(s).skip(i + 2));
    let before = flat(true, s[i - 1] as nat) + flat(false, s[i] as nat) + flat(true, s[i + 1] as nat);
    let after = flat(true, t[i - 1] as nat) + flat(false, t[i] as nat) + flat(true, t[i + 1] as nat);
    assert(covers(before, after)) by {
        assert forall|p: int| 0 <= p < before.len() && #[trigger] before[p] implies after[p] by {
            if p < s[i - 1] {
            } else if p < s[i - 1] + s[i] {
                assert(false);
            } else {
            }
        }
    }
    let ea = expand(segments(s).take(i - 1));
    let ec = expand(segments(s).skip(i + 2));
    assert(covers(ea, ea));
    assert(covers(ec, ec));
    lemma_covers_concat(ea, ea, before, after);
    lemma_covers_concat(ea + before, ea + after, ec, ec);
    if gap_closes(s, i, rate) {
        lemma_drop_pair_view(t, i);
    }
}

/// A run of gap steps only sets flags.
pub proof fn lemma_grow_pass_covers(s: Seq<usize>, rate: int, j: int)
    requires
        0 <= j,
        2 * j + 1 <= s.len(),
        s.len() % 2 == 1,
        rate >= 0,
        total(s) <= usize::MAX,
    ensures
        covers(expand(segments(s)), expand(segments(grow_pass(s, rate, j)))),
    decreases j,
{
    let e = expand(segments(s));
    assert(covers(e, e));
    if j > 0 {
        let g = grow_gap(s, 2 * j - 1, rate);
        lemma_grow_gap(s, 2 * j - 1, rate, 0);
        lemma_grow_gap_covers(s, 2 * j - 1, rate);
        lemma_grow_pass_covers(g, rate, j - 1);
        lemma_covers_trans(e, expand(segments(g)), expand(segments(grow_pass(g, rate, j - 1))));
    }
}

/// A whole growth pass only sets flags: replicated positions stay replicated.
pub proof fn lemma_grown_covers(s: Seq<usize>, rate: int)
    requires
        s.len() % 2 == 1,
        3 <= s.len(),
        rate >= 0,
        total(s) <= usize::MAX,
    ensures
        covers(expand(segments(s)), expand(segments(grown(s, rate)))),
{
    let k = gap_count(s.len());
    lemma_grow_pass(s, rate, k, 0);
    lemma_grow_pass_covers(s, rate, k);
    let p = grow_pass(s, rate, k);
    if p[0] == 0 && p[1] == 0 {
        lemma_drop_pair_view(p, 0);
    }
}

/// `n` growth passes in a row.
pub open spec fn grown_times(s: Seq<usize>, rate: int, n: nat) -> Seq<usize>
    decreases n,
{
    if n == 0 {
        s
    } else {
        grown(grown_times(s, rate, (n - 1) as nat), rate)
    }
}

/// Over any run of growth passes the unreplicated length never grows, and
/// once a track is complete it stays complete.
pub proof fn law_monotonic_convergence(s: Seq<usize>, rate: int, m: nat, n: nat)
    requires
        s.len() % 2 == 1,
        3 <= s.len(),
        rate >= 0,
        total(s) <= usize::MAX,
        m <= n,
    ensures
        unreplicated_len(grown_times(s, rate, n)) <= unreplicated_len(grown_times(s, rate, m)),
        complete(grown_times(s, rate, m)) ==> complete(grown_times(s, rate, n)),
    decreases n,
{
    lemma_grown_times_shape(s, rate, n);
    if m < n {
        let prev = grown_times(s, rate, (n - 1) as nat);
        lemma_grown_times_shape(s, rate, (n - 1) as nat);
        lemma_grown(prev, rate, 0);
        law_monotonic_convergence(s, rate, m, (n - 1) as nat);
    }
}

/// Growth passes keep the slot count and the total.
pub proof fn lemma_grown_times_shape(s: Seq<usize>, rate: int, n: nat)
    requires
        s.len() % 2 == 1,
        3 <= s.len(),
        rate >= 0,
        total(s) <= usize::MAX,
    ensures
        grown_times(s, rate, n).len() == s.len(),
        total(grown_times(s, rate, n)) == total(s),
    decreases n,
{
    if n > 0 {
        lemma_grown_times_shape(s, rate, (n - 1) as nat);
        lemma_grown(grown_times(s, rate, (n - 1) as nat), rate, 0);
    }
}

/// Some replicated position lies within `rate` of `p`.
pub open spec fn near(v: Seq<bool>, p: int, rate: int) -> bool {
    exists|q: int| 0 <= q < v.len() && #[trigger] v[q] && p - rate <= q <= p + rate
}

/// Every position within `rate` of a replicated one becomes replicated.
pub open spec fn dilate(v: Seq<bool>, rate: int) -> Seq<bool> {
    Seq::new(v.len(), |p: int| near(v, p, rate))
}

/// One gap's step sets exactly the first `to_left` and the last `to_right`
/// positions of the gap.
pub proof fn lemma_grow_gap_view(s: Seq<usize>, i: int, rate: int)
    requires
        i % 2 == 1,
        1 <= i,
        i + 2 <= s.len(),
        s.len() % 2 == 1,
        rate >= 0,
        total(s) <= usize::MAX,
    ensures
        ({
            let v = expand(segments(s));
            let w = expand(segments(grow_gap(s, i, rate)));
            let a = start_of(s, i);
            let b = a + s[i];
            &&& w.len() == v.len()
            &&& forall|p: int| 0 <= p < v.len() ==> #[trigger] w[p] == (v[p] || (a <= p < a + to_left(s, i, rate))
                || (b - to_right(s, i, rate) <= p < b))
        }),
{
    lemma_grow_gap(s, i, rate, 0);
    let l = to_left(s, i, rate);
    let r = to_right(s, i, rate);
    let t = handed_out(s, i, rate);
    lemma_expand_around(s, i);
    lemma_expand_around(t, i);
    assert(segments(t).take(i - 1) =~= segments(s).take(i - 1));
    assert(segments(t).skip(i + 2) =~= segments(s).skip(i + 2));
    let g = segments(s);
    lemma_span_take_step(g, i - 1);
    lemma_expand_len(g.take(i - 1));
    let ea = expand(g.take(i - 1));
    let ec = expand(g.skip(i + 2));
    let before = flat(true, s[i - 1] as nat) + flat(false, s[i] as nat) + flat(true, s[i + 1] as nat);
    let after = flat(true, t[i - 1] as nat) + flat(false, t[i] as nat) + flat(true, t[i + 1] as nat);
    let v = expand(segments(s));
    let w0 = expand(segments(t));
    let a = start_of(s, i);
    let b = a + s[i];
    assert(a == ea.len() + s[i - 1]);
    assert forall|p: int| 0 <= p < v.len() implies #[trigger] w0[p] == (v[p] || (a <= p < a + l) || (b - r <= p < b)) by {
        if p < ea.len() {
            assert(v[p] == ea[p]);
            assert(w0[p] == ea[p]);
        } else if p < ea.len() + before.len() {
            let o = p - ea.len();
            assert(v[p] == before[o]);
            assert(w0[p] == after[o]);
        } else {
            assert(v[p] == ec[p - ea.len() - before.len()]);
            assert(w0[p] == ec[p - ea.len() - after.len()]);
        }
    }
    if gap_closes(s, i, rate) {
        lemma_drop_pair_view(t, i);
    }
}

/// Inside a gap of a packed track, the replicated positions within `rate`
/// are the gap's neighbours: the one before it when its left slot is not
/// empty, the one after it when its right slot is not.
pub proof fn lemma_near_in_gap(s: Seq<usize>, i: int, rate: int, p: int)
    requires
        packed(s),
        s.len() % 2 == 1,
        i % 2 == 1,
        1 <= i,
        i + 2 <= s.len(),
        rate >= 0,
        start_of(s, i) <= p < start_of(s, i) + s[i],
    ensures
        near(expand(segments(s)), p, rate) == ((s[i - 1] > 0 && p - start_of(s, i) < rate) || (s[i + 1] > 0
            && start_of(s, i) + s[i] - 1 - p < rate)),
{
    let g = segments(s);
    let v = expand(g);
    let a = start_of(s, i);
    let b = a + s[i];
    lemma_span_take_step(g, i - 1);
    lemma_span_take_step(g, i);
    lemma_span_take_step(g, i + 1);
    lemma_expand_len(g);
    assert(g.take(g.len() as int) =~= g);
    lemma_span_take_le(g, i + 2);
    if s[i - 1] > 0 && p - a < rate {
        lemma_expand_at(g, i - 1, a - 1);
        assert(v[a - 1]);
    }
    if s[i + 1] > 0 && b - 1 - p < rate {
        lemma_expand_at(g, i + 1, b);
        assert(v[b]);
    }
    if near(v, p, rate) {
        let q = choose|q: int| 0 <= q < v.len() && #[trigger] v[q] && p - rate <= q <= p + rate;
        if a <= q < b {
            lemma_expand_at(g, i, q);
        } else if q < a {
            if s[i - 1] == 0 {
                if i - 1 >= 2 {
                    assert(zero_from(s, i - 1));
                    assert(s[i] == 0);
                } else {
                    assert(span(g.take(0)) == 0) by {
                        assert(g.take(0) =~= Seq::<(bool, nat)>::empty());
                    }
                }
            }
        } else {
            if s[i + 1] == 0 {
                assert(zero_from(s, i + 1));
                assert forall|x: int| i + 1 <= x < g.len() implies #[trigger] g[x].1 == 0 by {
                    assert(s[x] == 0);
                }
                lemma_span_zero_tail(g, i + 1);
            }
        }
    }
}

/// Processing the gaps `2j - 1, ..., 1` of `cur`, which agrees with the
/// packed `orig` on its first `2j` slots and on whether slot `2j` is empty,
/// and whose write-out is that of `orig` before position `start_of(orig, 2j)`
/// and dilated from it on.
proof fn lemma_pass_view(orig: Seq<usize>, cur: Seq<usize>, rate: int, j: int)
    requires
        packed(orig),
        orig.len() % 2 == 1,
        cur.len() == orig.len(),
        total(orig) <= usize::MAX,
        total(cur) == total(orig),
        rate >= 0,
        0 <= j,
        2 * j + 1 <= orig.len(),
        forall|x: int| 0 <= x < 2 * j ==> #[trigger] cur[x] == orig[x],
        (cur[2 * j] > 0) == (orig[2 * j] > 0),
        expand(segments(cur)).len() == expand(segments(orig)).len(),
        forall|p: int| 0 <= p < expand(segments(orig)).len() ==> #[trigger] expand(segments(cur))[p] == if p
            < start_of(orig, 2 * j) {
            expand(segments(orig))[p]
        } else {
            dilate(expand(segments(orig)), rate)[p]
        },
    ensures
        expand(segments(grow_pass(cur, rate, j))) == dilate(expand(segments(orig)), rate),
    decreases j,
{
    let v = expand(segments(orig));
    let d = dilate(v, rate);
    if j == 0 {
        assert(segments(orig).take(0) =~= Seq::<(bool, nat)>::empty());
        assert(expand(segments(cur)) =~= d);
    } else {
        let i = 2 * j - 1;
        let nxt = grow_gap(cur, i, rate);
        lemma_grow_gap(cur, i, rate, 0);
        lemma_grow_gap_shape(cur, i, rate);
        lemma_grow_gap_view(cur, i, rate);
        assert(segments(cur).take(i) =~= segments(orig).take(i));
        assert(segments(cur).take(i - 1) =~= segments(orig).take(i - 1));
        let go = segments(orig);
        lemma_span_take_step(go, i - 1);
        lemma_span_take_step(go, i);
        let a = start_of(orig, i);
        let b = a + orig[i];
        assert(start_of(cur, i) == a);
        assert(to_left(cur, i, rate) == to_left(orig, i, rate));
        assert(to_right(cur, i, rate) == to_right(orig, i, rate));
        let w = expand(segments(nxt));
        let l = to_left(orig, i, rate);
        let r = to_right(orig, i, rate);
        assert forall|p: int| 0 <= p < v.len() implies #[trigger] w[p] == if p < start_of(orig, i - 1) {
            v[p]
        } else {
            d[p]
        } by {
            assert(expand(segments(cur))[p] == if p < b { v[p] } else { d[p] });
            if p < start_of(orig, i - 1) {
            } else if p < a {
                lemma_expand_at(go, i - 1, p);
                assert(v[p] && p - rate <= p <= p + rate);
            } else if p < b {
                lemma_expand_at(go, i, p);
                lemma_near_in_gap(orig, i, rate, p);
            } else {
            }
        }
        lemma_pass_view(orig, nxt, rate, j - 1);
    }
}

/// A whole growth pass of a packed track replicates exactly the positions
/// within `rate` of a replicated one.
pub proof fn lemma_grown_dilates(s: Seq<usize>, rate: int)
    requires
        packed(s),
        s.len() % 2 == 1,
        3 <= s.len(),
        rate >= 0,
        total(s) <= usize::MAX,
    ensures
        expand(segments(grown(s, rate))) == dilate(expand(segments(s)), rate),
{
    let k = gap_count(s.len());
    let v = expand(segments(s));
    lemma_span_take_step(segments(s), 2 * k);
    lemma_expand_len(segments(s));
    assert(segments(s).take(2 * k + 1) =~= segments(s));
    assert forall|p: int| 0 <= p < v.len() implies #[trigger] v[p] == if p < start_of(s, 2 * k) {
        v[p]
    } else {
        dilate(v, rate)[p]
    } by {
        if p >= start_of(s, 2 * k) {
            lemma_expand_at(segments(s), 2 * k, p);
            assert(v[p] && p - rate <= p <= p + rate);
        }
    }
    lemma_pass_view(s, s, rate, k);
    lemma_grow_pass(s, rate, k, 0);
    let p = grow_pass(s, rate, k);
    if p[0] == 0 && p[1] == 0 {
        lemma_drop_pair_view(p, 0);
    }
}

} // verus!
