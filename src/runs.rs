//! The positional model shared by every interval representation: a sequence
//! of runs `(replicated, length)` stands for the sequence of per-position
//! replication flags obtained by writing each run out in order.

use vstd::prelude::*;

verus! {

/// Total length covered by a sequence of runs.
pub open spec fn span(r: Seq<(bool, nat)>) -> nat
    decreases r.len(),
{
    if r.len() == 0 {
        0
    } else {
        span(r.drop_last()) + r.last().1
    }
}

/// The per-position flags that a sequence of runs stands for.
pub open spec fn expand(r: Seq<(bool, nat)>) -> Seq<bool>
    decreases r.len(),
{
    if r.len() == 0 {
        Seq::empty()
    } else {
        expand(r.drop_last()) + Seq::new(r.last().1, |_q: int| r.last().0)
    }
}

/// One run written out.
pub open spec fn flat(b: bool, n: nat) -> Seq<bool> {
    Seq::new(n, |_q: int| b)
}

pub proof fn lemma_expand_len(r: Seq<(bool, nat)>)
    ensures
        expand(r).len() == span(r),
    decreases r.len(),
{
    if r.len() > 0 {
        lemma_expand_len(r.drop_last());
    }
}

/// Writing out a concatenation is concatenating the write-outs.
pub proof fn lemma_expand_concat(a: Seq<(bool, nat)>, b: Seq<(bool, nat)>)
    ensures
        expand(a + b) == expand(a) + expand(b),
        span(a + b) == span(a) + span(b),
    decreases b.len(),
{
    if b.len() == 0 {
        assert(a + b =~= a);
        assert(expand(a) + expand(b) =~= expand(a));
    } else {
        let ab = a + b;
        assert(ab.drop_last() =~= a + b.drop_last());
        lemma_expand_concat(a, b.drop_last());
        assert(ab.last() == b.last());
        assert(expand(ab) =~= expand(a) + expand(b));
    }
}

/// A single run writes out to one flat block.
pub proof fn lemma_expand_single(b: bool, n: nat)
    ensures
        expand(seq![(b, n)]) == flat(b, n),
        span(seq![(b, n)]) == n,
{
    let r = seq![(b, n)];
    assert(r.drop_last() =~= Seq::<(bool, nat)>::empty());
    assert(expand(r.drop_last()) == Seq::<bool>::empty());
    assert(span(r.drop_last()) == 0);
    assert(expand(r) =~= flat(b, n));
}

/// Two flat blocks of the same flag join into one.
pub proof fn lemma_flat_join(b: bool, m: nat, n: nat)
    ensures
        flat(b, m) + flat(b, n) == flat(b, m + n),
{
    assert(flat(b, m) + flat(b, n) =~= flat(b, m + n));
}

/// The position `q` lies in run `k`, and so carries that run's flag.
pub proof fn lemma_expand_at(r: Seq<(bool, nat)>, k: int, q: int)
    requires
        0 <= k < r.len(),
        span(r.take(k)) <= q < span(r.take(k)) + r[k].1,
    ensures
        q < span(r),
        expand(r)[q] == r[k].0,
{
    let a = r.take(k);
    let b = seq![r[k]];
    let c = r.skip(k + 1);
    assert(r =~= a + b + c);
    lemma_expand_concat(a, b);
    lemma_expand_concat(a + b, c);
    lemma_expand_single(r[k].0, r[k].1);
    lemma_expand_len(a);
    lemma_expand_len(a + b);
    lemma_expand_len(c);
}

/// The positions of run `k` form one flat block of its flag.
pub proof fn lemma_expand_slice(r: Seq<(bool, nat)>, k: int)
    requires
        0 <= k < r.len(),
    ensures
        span(r.take(k)) + r[k].1 <= span(r),
        expand(r).subrange(span(r.take(k)) as int, (span(r.take(k)) + r[k].1) as int) == flat(r[k].0, r[k].1),
{
    let a = r.take(k);
    let b = seq![r[k]];
    let c = r.skip(k + 1);
    assert(r =~= a + b + c);
    lemma_expand_concat(a, b);
    lemma_expand_concat(a + b, c);
    lemma_expand_single(r[k].0, r[k].1);
    lemma_expand_len(a);
    lemma_expand_len(a + b);
    lemma_expand_len(c);
    assert(expand(r).subrange(span(a) as int, (span(a) + r[k].1) as int) =~= flat(r[k].0, r[k].1));
}

/// Setting one flag inside a flat block of `b`.
pub proof fn lemma_flat_update(f: Seq<bool>, p: int, lo: int, hi: int, b: bool)
    requires
        0 <= lo <= hi <= f.len(),
        0 <= p < f.len(),
        f.subrange(lo, hi) == flat(b, (hi - lo) as nat),
    ensures
        (p < lo || p >= hi || b) ==> f.update(p, true).subrange(lo, hi) == flat(b, (hi - lo) as nat),
        (lo <= p < hi && !b) ==> f.update(p, true).subrange(lo, hi) == flat(false, (p - lo) as nat)
            + flat(true, 1) + flat(false, (hi - p - 1) as nat),
{
    let g = f.update(p, true);
    if p < lo || p >= hi || b {
        assert forall|q: int| 0 <= q < hi - lo implies g.subrange(lo, hi)[q] == flat(b, (hi - lo) as nat)[q] by {
            assert(f.subrange(lo, hi)[q] == f[lo + q]);
        }
        assert(g.subrange(lo, hi) =~= flat(b, (hi - lo) as nat));
    } else {
        let t = flat(false, (p - lo) as nat) + flat(true, 1) + flat(false, (hi - p - 1) as nat);
        assert forall|q: int| 0 <= q < hi - lo implies g.subrange(lo, hi)[q] == t[q] by {
            assert(f.subrange(lo, hi)[q] == f[lo + q]);
        }
        assert(g.subrange(lo, hi) =~= t);
    }
}

/// Spans of prefixes grow with the prefix.
pub proof fn lemma_span_take_step(r: Seq<(bool, nat)>, k: int)
    requires
        0 <= k < r.len(),
    ensures
        span(r.take(k + 1)) == span(r.take(k)) + r[k].1,
{
    assert(r.take(k + 1).drop_last() =~= r.take(k));
}

/// Number of unreplicated (false) flags.
pub open spec fn count_unreplicated(v: Seq<bool>) -> int
    decreases v.len(),
{
    if v.len() == 0 {
        0
    } else {
        count_unreplicated(v.drop_last()) + if v.last() { 0int } else { 1int }
    }
}

pub proof fn lemma_count_concat(a: Seq<bool>, b: Seq<bool>)
    ensures
        count_unreplicated(a + b) == count_unreplicated(a) + count_unreplicated(b),
    decreases b.len(),
{
    if b.len() == 0 {
        assert(a + b =~= a);
    } else {
        assert((a + b).drop_last() =~= a + b.drop_last());
        lemma_count_concat(a, b.drop_last());
    }
}

pub proof fn lemma_count_flat(b: bool, n: nat)
    ensures
        count_unreplicated(flat(b, n)) == if b { 0 } else { n as int },
    decreases n,
{
    if n > 0 {
        assert(flat(b, n).drop_last() =~= flat(b, (n - 1) as nat));
        lemma_count_flat(b, (n - 1) as nat);
    }
}

/// The write-out up to `x` positions into run `k`.
pub proof fn lemma_expand_prefix(r: Seq<(bool, nat)>, k: int, x: int)
    requires
        0 <= k < r.len(),
        0 <= x <= r[k].1,
    ensures
        expand(r).take(span(r.take(k)) + x) == expand(r.take(k)) + flat(r[k].0, x as nat),
{
    let a = r.take(k);
    let b = seq![r[k]];
    let c = r.skip(k + 1);
    assert(r =~= a + b + c);
    lemma_expand_concat(a, b);
    lemma_expand_concat(a + b, c);
    lemma_expand_single(r[k].0, r[k].1);
    lemma_expand_len(a);
    assert(expand(r).take(span(a) + x) =~= expand(a) + flat(r[k].0, x as nat));
}

/// At most every flag is unreplicated, and when all are, none is replicated.
pub proof fn lemma_count_bound(v: Seq<bool>)
    ensures
        0 <= count_unreplicated(v) <= v.len(),
        count_unreplicated(v) == v.len() ==> forall|q: int| 0 <= q < v.len() ==> !#[trigger] v[q],
    decreases v.len(),
{
    if v.len() > 0 {
        let d = v.drop_last();
        lemma_count_bound(d);
        if count_unreplicated(v) == v.len() {
            assert forall|q: int| 0 <= q < v.len() implies !#[trigger] v[q] by {
                if q < d.len() {
                    assert(d[q] == v[q]);
                }
            }
        }
    }
}

} // verus!
