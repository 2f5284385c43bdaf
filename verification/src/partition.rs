//! Partitioning a candidate set by the feedback each candidate would give,
//! and the worst-case (minimax) cost of a guess.

use vstd::prelude::*;
use vstd::multiset::Multiset;

use crate::feedback::{
    compute_filter, feedback_marks, feedback_value, filter_value, lemma_all_green_iff_same,
    lemma_feedback_identity, lemma_filter_value_bounds, lemma_value_of_all_green, Color, Filter,
    FEEDBACK_COUNT,
};
use crate::seq_facts::{
    lemma_filter_at_most_one, lemma_filter_members, lemma_filter_push, lemma_filter_skips_len,
    lemma_filter_stronger_len,
};
use crate::word::{all_wf, distinct_views, in_bank, views_within, Word};

verus! {

/// The candidates of `cands` whose feedback against guess `g` carries the
/// canonical value `v`, in their original order.
pub open spec fn bucket_of(g: Seq<char>, cands: Seq<Word>, v: int) -> Seq<Word> {
    cands.filter(|w: Word| feedback_value(g, w@) == v)
}

/// The candidates of `cands` whose feedback against guess `g` is exactly the
/// mark sequence `colors`, in their original order.
pub open spec fn matching_candidates(g: Seq<char>, colors: Seq<Color>, cands: Seq<Word>) -> Seq<
    Word,
> {
    cands.filter(|w: Word| feedback_marks(g, w@) == colors)
}

/// The size of the largest bucket among the canonical values below `n`.
pub open spec fn max_cost_upto(g: Seq<char>, cands: Seq<Word>, n: int) -> int
    decreases n,
{
    if n <= 0 {
        0
    } else {
        let prev = max_cost_upto(g, cands, n - 1);
        let b = bucket_of(g, cands, n - 1).len() as int;
        if b > prev {
            b
        } else {
            prev
        }
    }
}

/// The minimax cost of guess `g` against the candidate set `cands`: the
/// worst-case number of candidates that survive the guess, over every
/// feedback the guess could earn.
pub open spec fn query_cost(g: Seq<char>, cands: Seq<Word>) -> int {
    max_cost_upto(g, cands, FEEDBACK_COUNT as int)
}

/// All candidate buckets for one guess, indexed by the canonical value of
/// the feedback that produces each bucket. Bucket order is therefore the
/// canonical feedback order; candidate order within a bucket is the input
/// order.
pub struct Partition {
    pub buckets: Vec<Vec<Word>>,
}

/// `p` is the partition of `cands` under guess `g`.
pub open spec fn partition_matches(p: Partition, g: Seq<char>, cands: Seq<Word>) -> bool {
    &&& p.buckets@.len() == FEEDBACK_COUNT
    &&& forall|v: int| 0 <= v < FEEDBACK_COUNT ==> (#[trigger] p.buckets@[v])@ == bucket_of(
        g,
        cands,
        v,
    )
}

/// Groups the candidates by the feedback each would give for `query`,
/// creating one (possibly empty) bucket per canonical feedback value.
pub fn compute_filters_to_secret_candidates_for_query(
    query: &Word,
    secret_candidates: &Vec<Word>,
) -> (p: Partition)
    requires
        query.wf(),
        all_wf(secret_candidates@),
    ensures
        partition_matches(p, query@, secret_candidates@),
{
    let ghost g = query@;
    let ghost cs = secret_candidates@;
    let mut buckets: Vec<Vec<Word>> = Vec::new();
    let mut v: usize = 0;
    while v < FEEDBACK_COUNT
        invariant
            v <= FEEDBACK_COUNT,
            buckets@.len() == v,
            forall|u: int| 0 <= u < v ==> (#[trigger] buckets@[u])@ == Seq::<Word>::empty(),
        decreases FEEDBACK_COUNT - v,
    {
        buckets.push(Vec::new());
        v += 1;
    }
    proof {
        assert forall|u: int| 0 <= u < FEEDBACK_COUNT implies (#[trigger] buckets@[u])@
            == bucket_of(g, cs.subrange(0, 0), u) by {
            reveal(Seq::filter);
            assert(cs.subrange(0, 0) =~= Seq::<Word>::empty());
            assert(bucket_of(g, cs.subrange(0, 0), u) =~= Seq::<Word>::empty());
        }
    }
    let mut k: usize = 0;
    while k < secret_candidates.len()
        invariant
            query.wf(),
            all_wf(cs),
            g == query@,
            cs == secret_candidates@,
            k <= cs.len(),
            buckets@.len() == FEEDBACK_COUNT,
            forall|u: int| 0 <= u < FEEDBACK_COUNT ==> (#[trigger] buckets@[u])@ == bucket_of(
                g,
                cs.subrange(0, k as int),
                u,
            ),
        decreases cs.len() - k,
    {
        let f = compute_filter(query, &secret_candidates[k]);
        let val = f.to_value() as usize;
        proof {
            lemma_filter_value_bounds(f.colors@);
        }
        buckets[val].push(secret_candidates[k].clone());
        proof {
            let prefix = cs.subrange(0, k as int);
            let x = cs[k as int];
            assert(cs.subrange(0, k as int + 1) =~= prefix.push(x));
            assert(feedback_value(g, x@) == val as int);
            assert forall|u: int| 0 <= u < FEEDBACK_COUNT implies (#[trigger] buckets@[u])@
                == bucket_of(g, prefix.push(x), u) by {
                lemma_filter_push(prefix, |w: Word| feedback_value(g, w@) == u, x);
            }
        }
        k += 1;
    }
    proof {
        assert(cs.subrange(0, cs.len() as int) =~= cs);
    }
    Partition { buckets }
}

/// The size of the largest of the first `n` buckets.
pub open spec fn max_len_upto(bs: Seq<Vec<Word>>, n: int) -> int
    decreases n,
{
    if n <= 0 {
        0
    } else {
        let prev = max_len_upto(bs, n - 1);
        let b = bs[n - 1]@.len() as int;
        if b > prev {
            b
        } else {
            prev
        }
    }
}

/// On a partition of `cands` under `g`, the largest bucket size is the
/// minimax cost of `g`.
pub proof fn lemma_max_len_is_cost(p: Partition, g: Seq<char>, cands: Seq<Word>, n: int)
    requires
        partition_matches(p, g, cands),
        n <= FEEDBACK_COUNT,
    ensures
        max_len_upto(p.buckets@, n) == max_cost_upto(g, cands, n),
    decreases n,
{
    if n > 0 {
        lemma_max_len_is_cost(p, g, cands, n - 1);
    }
}

/// The size of the largest bucket of the partition: the worst-case number
/// of candidates that survive the guess the partition was built for.
pub fn compute_hashmap_cost(p: &Partition) -> (cost: u32)
    requires
        forall|v: int| 0 <= v < p.buckets@.len() ==> (#[trigger] p.buckets@[v])@.len() < u32::MAX,
    ensures
        cost as int == max_len_upto(p.buckets@, p.buckets@.len() as int),
{
    let mut cost: u32 = 0;
    let mut v: usize = 0;
    while v < p.buckets.len()
        invariant
            forall|u: int| 0 <= u < p.buckets@.len() ==> (#[trigger] p.buckets@[u])@.len()
                < u32::MAX,
            v <= p.buckets@.len(),
            cost as int == max_len_upto(p.buckets@, v as int),
        decreases p.buckets@.len() - v,
    {
        let b = p.buckets[v].len();
        if b as u32 > cost {
            cost = b as u32;
        }
        v += 1;
    }
    cost
}

/// Every bucket of `cands` under any guess holds at most `cands.len()`
/// candidates, so the minimax cost never exceeds the candidate count.
pub proof fn lemma_cost_le_len(g: Seq<char>, cands: Seq<Word>, n: int)
    ensures
        max_cost_upto(g, cands, n) <= cands.len(),
        0 <= max_cost_upto(g, cands, n),
    decreases n,
{
    broadcast use vstd::seq_lib::group_filter_ensures;

    if n > 0 {
        lemma_cost_le_len(g, cands, n - 1);
    }
}

/// Computes the partition of the candidates under `query` together with its
/// minimax cost.
pub fn compute_query_cost(query: &Word, secret_candidates: &Vec<Word>) -> (r: (u32, Partition))
    requires
        query.wf(),
        all_wf(secret_candidates@),
        secret_candidates@.len() < u32::MAX,
    ensures
        r.0 as int == query_cost(query@, secret_candidates@),
        partition_matches(r.1, query@, secret_candidates@),
{
    let p = compute_filters_to_secret_candidates_for_query(query, secret_candidates);
    proof {
        assert forall|v: int| 0 <= v < p.buckets@.len() implies (#[trigger] p.buckets@[v])@.len()
            < u32::MAX by {
            broadcast use vstd::seq_lib::group_filter_ensures;

            assert(p.buckets@[v]@ == bucket_of(query@, secret_candidates@, v));
        }
    }
    let cost = compute_hashmap_cost(&p);
    proof {
        lemma_max_len_is_cost(p, query@, secret_candidates@, FEEDBACK_COUNT as int);
    }
    (cost, p)
}

/// The candidates that would have produced the received feedback: the
/// bucket of `filter` in the partition of `secret_candidates` under
/// `query`. Empty when no candidate matches the feedback.
pub fn filter_secret_candidates(
    query: &Word,
    filter: &Filter,
    secret_candidates: &Vec<Word>,
) -> (r: Vec<Word>)
    requires
        query.wf(),
        all_wf(secret_candidates@),
    ensures
        r@ == matching_candidates(query@, filter.colors@, secret_candidates@),
{
    let ghost g = query@;
    let ghost cs = secret_candidates@;
    let ghost colors = filter.colors@;
    let mut r: Vec<Word> = Vec::new();
    let mut k: usize = 0;
    proof {
        assert(cs.subrange(0, 0) =~= Seq::<Word>::empty());
        reveal(Seq::filter);
    }
    while k < secret_candidates.len()
        invariant
            query.wf(),
            all_wf(cs),
            g == query@,
            cs == secret_candidates@,
            colors == filter.colors@,
            k <= cs.len(),
            r@ == matching_candidates(g, colors, cs.subrange(0, k as int)),
        decreases cs.len() - k,
    {
        let f = compute_filter(query, &secret_candidates[k]);
        if f == *filter {
            r.push(secret_candidates[k].clone());
        }
        proof {
            let prefix = cs.subrange(0, k as int);
            let x = cs[k as int];
            assert(cs.subrange(0, k as int + 1) =~= prefix.push(x));
            lemma_filter_push(prefix, |w: Word| feedback_marks(g, w@) == colors, x);
        }
        k += 1;
    }
    proof {
        assert(cs.subrange(0, cs.len() as int) =~= cs);
    }
    r
}

/// The multiset of candidates held by the buckets below value `n`.
pub open spec fn buckets_union_upto(g: Seq<char>, cands: Seq<Word>, n: int) -> Multiset<Word>
    decreases n,
{
    if n <= 0 {
        Multiset::empty()
    } else {
        buckets_union_upto(g, cands, n - 1).add(bucket_of(g, cands, n - 1).to_multiset())
    }
}

proof fn lemma_union_of_empty(g: Seq<char>, n: int)
    ensures
        buckets_union_upto(g, Seq::<Word>::empty(), n) =~= Multiset::empty(),
    decreases n,
{
    broadcast use vstd::multiset::group_multiset_axioms;

    if n > 0 {
        lemma_union_of_empty(g, n - 1);
        reveal(Seq::filter);
        assert(bucket_of(g, Seq::<Word>::empty(), n - 1) =~= Seq::<Word>::empty());
        broadcast use vstd::seq_lib::group_to_multiset_ensures;

        let m = Seq::<Word>::empty().to_multiset();
        assert(m.len() == 0);
        vstd::multiset::lemma_multiset_empty_len(m);
    }
}

proof fn lemma_union_push(g: Seq<char>, cands: Seq<Word>, x: Word, n: int)
    ensures
        buckets_union_upto(g, cands.push(x), n) =~= if feedback_value(g, x@) < n {
            buckets_union_upto(g, cands, n).insert(x)
        } else {
            buckets_union_upto(g, cands, n)
        },
    decreases n,
{
    broadcast use vstd::multiset::group_multiset_axioms;
    broadcast use vstd::seq_lib::group_to_multiset_ensures;

    lemma_filter_value_bounds(feedback_marks(g, x@));
    if n > 0 {
        lemma_union_push(g, cands, x, n - 1);
        lemma_filter_push(cands, |w: Word| feedback_value(g, w@) == n - 1, x);
    }
}

/// Law (partition coverage): the buckets of a partition hold, as a
/// multiset, exactly the input candidates — none lost, duplicated, or
/// invented.
pub proof fn lemma_partition_coverage(g: Seq<char>, cands: Seq<Word>)
    ensures
        buckets_union_upto(g, cands, FEEDBACK_COUNT as int) == cands.to_multiset(),
    decreases cands.len(),
{
    broadcast use vstd::multiset::group_multiset_axioms;
    broadcast use vstd::seq_lib::group_to_multiset_ensures;

    if cands.len() == 0 {
        lemma_union_of_empty(g, FEEDBACK_COUNT as int);
        assert(cands =~= Seq::<Word>::empty());
        let m = cands.to_multiset();
        assert(m.len() == 0);
        vstd::multiset::lemma_multiset_empty_len(m);
    } else {
        let t = cands.drop_last();
        let x = cands.last();
        lemma_partition_coverage(g, t);
        assert(cands =~= t.push(x));
        lemma_filter_value_bounds(feedback_marks(g, x@));
        lemma_union_push(g, t, x, FEEDBACK_COUNT as int);
        assert(buckets_union_upto(g, cands, FEEDBACK_COUNT as int) =~= t.to_multiset().insert(x));
    }
}

proof fn lemma_union_len_le(g: Seq<char>, cands: Seq<Word>, n: int)
    requires
        n >= 0,
    ensures
        buckets_union_upto(g, cands, n).len() <= n * max_cost_upto(g, cands, n),
    decreases n,
{
    broadcast use vstd::multiset::group_multiset_axioms;
    broadcast use vstd::seq_lib::group_to_multiset_ensures;

    if n > 0 {
        lemma_union_len_le(g, cands, n - 1);
        let prev = max_cost_upto(g, cands, n - 1);
        let m = max_cost_upto(g, cands, n);
        assert(prev <= m);
        assert((n - 1) * prev <= (n - 1) * m) by (nonlinear_arith)
            requires
                n - 1 >= 0,
                prev <= m,
        ;
        assert(bucket_of(g, cands, n - 1).to_multiset().len() <= m);
        assert(buckets_union_upto(g, cands, n).len() == buckets_union_upto(g, cands, n - 1).len()
            + bucket_of(g, cands, n - 1).to_multiset().len());
        assert((n - 1) * m + m == n * m) by (nonlinear_arith);
    }
}

/// Law (minimax cost bounds): a guess's worst-case cost never exceeds the
/// number of candidates, and the buckets can spread the candidates over at
/// most [`FEEDBACK_COUNT`] feedbacks, so the cost is at least
/// `cands.len() / FEEDBACK_COUNT`, rounded up.
pub proof fn lemma_cost_bounds(g: Seq<char>, cands: Seq<Word>)
    ensures
        query_cost(g, cands) <= cands.len(),
        cands.len() <= FEEDBACK_COUNT * query_cost(g, cands),
{
    broadcast use vstd::seq_lib::group_to_multiset_ensures;

    lemma_cost_le_len(g, cands, FEEDBACK_COUNT as int);
    lemma_partition_coverage(g, cands);
    lemma_union_len_le(g, cands, FEEDBACK_COUNT as int);
}

/// A bucket never exceeds the running maximum that covers its value.
pub proof fn lemma_bucket_le_max(g: Seq<char>, cands: Seq<Word>, v: int, n: int)
    requires
        0 <= v < n,
    ensures
        bucket_of(g, cands, v).len() <= max_cost_upto(g, cands, n),
    decreases n,
{
    if v < n - 1 {
        lemma_bucket_le_max(g, cands, v, n - 1);
    }
}

/// When every bucket below `n` is bounded, so is the running maximum.
proof fn lemma_max_cost_bounded(g: Seq<char>, cands: Seq<Word>, n: int, bound: int)
    requires
        0 <= bound,
        forall|v: int| 0 <= v < n ==> (#[trigger] bucket_of(g, cands, v)).len() <= bound,
    ensures
        max_cost_upto(g, cands, n) <= bound,
    decreases n,
{
    if n > 0 {
        lemma_max_cost_bounded(g, cands, n - 1, bound);
    }
}

/// The candidates matching one feedback never outnumber the minimax cost of
/// the guess: they form one bucket of the partition.
pub proof fn lemma_matching_le_cost(g: Seq<char>, colors: Seq<Color>, cands: Seq<Word>)
    ensures
        matching_candidates(g, colors, cands).len() <= query_cost(g, cands),
{
    let v = filter_value(colors);
    lemma_filter_value_bounds(colors);
    lemma_filter_stronger_len(
        cands,
        |w: Word| feedback_marks(g, w@) == colors,
        |w: Word| feedback_value(g, w@) == v,
    );
    lemma_bucket_le_max(g, cands, v, FEEDBACK_COUNT as int);
}

/// Guessing a word that is itself one of at least two pairwise-distinct
/// candidates always rules some candidate out: its all-green bucket holds
/// only the guess, and every other bucket misses the guess.
pub proof fn lemma_member_guess_cost(cands: Seq<Word>)
    requires
        all_wf(cands),
        distinct_views(cands),
        cands.len() >= 2,
    ensures
        query_cost(cands[0]@, cands) < cands.len(),
{
    let g = cands[0]@;
    assert(cands[0].wf());
    assert forall|v: int| 0 <= v < FEEDBACK_COUNT implies (#[trigger] bucket_of(
        g,
        cands,
        v,
    )).len() <= cands.len() - 1 by {
        let p = |w: Word| feedback_value(g, w@) == v;
        lemma_feedback_identity(g);
        lemma_value_of_all_green(feedback_marks(g, g));
        if v == FEEDBACK_COUNT - 1 {
            let q = |w: Word| w@ == g;
            assert forall|i: int| 0 <= i < cands.len() && p(#[trigger] cands[i]) implies q(
                cands[i],
            ) by {
                assert(cands[i].wf());
                lemma_value_of_all_green(feedback_marks(g, cands[i]@));
                lemma_all_green_iff_same(g, cands[i]@);
            }
            lemma_filter_stronger_len(cands, p, q);
            lemma_filter_at_most_one(cands, q);
        } else {
            assert(!p(cands[0]));
            lemma_filter_skips_len(cands, p, 0);
        }
    }
    lemma_max_cost_bounded(g, cands, FEEDBACK_COUNT as int, cands.len() - 1);
}

/// Filtering keeps words pairwise distinct.
proof fn lemma_filter_keeps_distinct(s: Seq<Word>, pred: spec_fn(Word) -> bool)
    requires
        distinct_views(s),
    ensures
        distinct_views(s.filter(pred)),
    decreases s.len(),
{
    reveal(Seq::filter);
    if s.len() > 0 {
        let t = s.drop_last();
        assert(distinct_views(t)) by {
            assert(forall|i: int| 0 <= i < t.len() ==> t[i] == s[i]);
        }
        lemma_filter_keeps_distinct(t, pred);
        if pred(s.last()) {
            lemma_filter_members(t, pred);
            let out = s.filter(pred);
            assert forall|i: int, j: int| 0 <= i < j < out.len() implies out[i]@ != out[j]@ by {
                if j == out.len() - 1 {
                    let k = choose|k: int| 0 <= k < t.len() && t[k] == out[i];
                    assert(s[k] == out[i]);
                    assert(s[k]@ != s[s.len() - 1]@);
                }
            }
        }
    }
}

/// The surviving candidates of a filtering round keep the properties of the
/// round's input: well-formed, pairwise distinct, and drawn from the bank.
pub proof fn lemma_matching_carries(
    g: Seq<char>,
    colors: Seq<Color>,
    cands: Seq<Word>,
    bank: Seq<Word>,
)
    requires
        all_wf(cands),
        distinct_views(cands),
        views_within(cands, bank),
    ensures
        all_wf(matching_candidates(g, colors, cands)),
        distinct_views(matching_candidates(g, colors, cands)),
        views_within(matching_candidates(g, colors, cands), bank),
{
    let pred = |w: Word| feedback_marks(g, w@) == colors;
    let m = cands.filter(pred);
    lemma_filter_members(cands, pred);
    lemma_filter_keeps_distinct(cands, pred);
    assert forall|i: int| 0 <= i < m.len() implies (#[trigger] m[i]).wf() by {
        let k = choose|k: int| 0 <= k < cands.len() && cands[k] == m[i];
    }
    assert forall|i: int| 0 <= i < m.len() implies in_bank(#[trigger] m[i], bank) by {
        let k = choose|k: int| 0 <= k < cands.len() && cands[k] == m[i];
        assert(0 <= k < cands.len() && cands[k] == m[i]);
        assert(in_bank(cands[k], bank));
        let b = choose|b: int| 0 <= b < bank.len() && (#[trigger] bank[b])@ == cands[k]@;
        assert(bank[b]@ == m[i]@);
    }
}

/// Likewise for the buckets of a partition.
pub proof fn lemma_bucket_carries(g: Seq<char>, v: int, cands: Seq<Word>, bank: Seq<Word>)
    requires
        all_wf(cands),
        distinct_views(cands),
        views_within(cands, bank),
    ensures
        all_wf(bucket_of(g, cands, v)),
        distinct_views(bucket_of(g, cands, v)),
        views_within(bucket_of(g, cands, v), bank),
{
    let pred = |w: Word| feedback_value(g, w@) == v;
    let m = cands.filter(pred);
    lemma_filter_members(cands, pred);
    lemma_filter_keeps_distinct(cands, pred);
    assert forall|i: int| 0 <= i < m.len() implies (#[trigger] m[i]).wf() by {
        let k = choose|k: int| 0 <= k < cands.len() && cands[k] == m[i];
    }
    assert forall|i: int| 0 <= i < m.len() implies in_bank(#[trigger] m[i], bank) by {
        let k = choose|k: int| 0 <= k < cands.len() && cands[k] == m[i];
        assert(0 <= k < cands.len() && cands[k] == m[i]);
        assert(in_bank(cands[k], bank));
        let b = choose|b: int| 0 <= b < bank.len() && (#[trigger] bank[b])@ == cands[k]@;
        assert(bank[b]@ == m[i]@);
    }
}

} // verus!
