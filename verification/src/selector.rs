//! Minimax guess selection: score every allowed guess by its worst-case
//! surviving-candidate count and return the cheapest, earliest first on
//! ties.

use vstd::prelude::*;

use crate::feedback::FEEDBACK_COUNT;
use crate::partition::{
    compute_query_cost, lemma_cost_le_len, lemma_member_guess_cost, partition_matches, query_cost,
    Partition,
};
use crate::word::{all_wf, distinct_views, in_bank, views_within, Word};

verus! {

/// Index of the minimax-best guess among the first `n` words of the bank,
/// the earliest on ties.
pub open spec fn best_query_index_upto(bank: Seq<Word>, cands: Seq<Word>, n: int) -> int
    decreases n,
{
    if n <= 1 {
        0
    } else {
        let prev = best_query_index_upto(bank, cands, n - 1);
        if query_cost(bank[n - 1]@, cands) < query_cost(bank[prev]@, cands) {
            n - 1
        } else {
            prev
        }
    }
}

/// Index of the minimax-best guess of the whole bank.
pub open spec fn best_query_index(bank: Seq<Word>, cands: Seq<Word>) -> int {
    best_query_index_upto(bank, cands, bank.len() as int)
}

/// The chosen index lies in range, no guess of the prefix costs less, and
/// every earlier guess costs strictly more — the first minimum wins.
pub proof fn lemma_best_query_minimal(bank: Seq<Word>, cands: Seq<Word>, n: int)
    requires
        1 <= n <= bank.len(),
    ensures
        0 <= best_query_index_upto(bank, cands, n) < n,
        forall|j: int|
            0 <= j < n ==> query_cost(bank[best_query_index_upto(bank, cands, n)]@, cands)
                <= #[trigger] query_cost(bank[j]@, cands),
        forall|j: int|
            0 <= j < best_query_index_upto(bank, cands, n) ==> #[trigger] query_cost(
                bank[j]@,
                cands,
            ) > query_cost(bank[best_query_index_upto(bank, cands, n)]@, cands),
    decreases n,
{
    if n > 1 {
        lemma_best_query_minimal(bank, cands, n - 1);
    }
}

/// Law (selector determinism): the selected guess is a function of the word
/// bank and the candidate set alone, so two runs on identical inputs return
/// the identical guess, tie-break included.
pub proof fn lemma_selector_deterministic(bank: Seq<Word>, cands: Seq<Word>, r1: Word, r2: Word)
    requires
        bank.len() >= 1,
        r1 == bank[best_query_index(bank, cands)],
        r2 == bank[best_query_index(bank, cands)],
    ensures
        r1 == r2,
{
}

/// Playing the best guess against at least two pairwise-distinct
/// candidates, each spelled by some bank word, always rules at least one
/// candidate out.
pub proof fn lemma_best_query_shrinks(bank: Seq<Word>, cands: Seq<Word>)
    requires
        bank.len() >= 1,
        all_wf(bank),
        all_wf(cands),
        distinct_views(cands),
        views_within(cands, bank),
        cands.len() >= 2,
    ensures
        query_cost(bank[best_query_index(bank, cands)]@, cands) < cands.len(),
{
    assert(in_bank(cands[0], bank));
    let k = choose|i: int| 0 <= i < bank.len() && (#[trigger] bank[i])@ == cands[0]@;
    lemma_member_guess_cost(cands);
    assert(query_cost(bank[k]@, cands) < cands.len());
    lemma_best_query_minimal(bank, cands, bank.len() as int);
}

/// Selects the guess with the least worst-case cost, together with the
/// partition of the candidates under that guess, scanning the bank in
/// order and keeping the first guess that attains the minimum.
pub fn compute_best_query_and_hashmap(word_bank: &Vec<Word>, secret_candidates: &Vec<Word>) -> (r:
    (Word, Partition))
    requires
        word_bank@.len() >= 1,
        all_wf(word_bank@),
        all_wf(secret_candidates@),
        secret_candidates@.len() < u32::MAX,
    ensures
        r.0 == word_bank@[best_query_index(word_bank@, secret_candidates@)],
        partition_matches(r.1, r.0@, secret_candidates@),
{
    let ghost bank = word_bank@;
    let ghost cs = secret_candidates@;
    let mut minimum_cost_query: Word = word_bank[0].clone();
    let mut minimum_cost: u32 = u32::MAX;
    let mut minimum_cost_hashmap: Partition = Partition { buckets: Vec::new() };
    let mut i: usize = 0;
    while i < word_bank.len()
        invariant
            bank == word_bank@,
            cs == secret_candidates@,
            bank.len() >= 1,
            all_wf(bank),
            all_wf(cs),
            cs.len() < u32::MAX,
            i <= bank.len(),
            i == 0 ==> minimum_cost == u32::MAX,
            i > 0 ==> {
                let b = best_query_index_upto(bank, cs, i as int);
                &&& minimum_cost_query == bank[b]
                &&& minimum_cost as int == query_cost(bank[b]@, cs)
                &&& partition_matches(minimum_cost_hashmap, bank[b]@, cs)
            },
        decreases bank.len() - i,
    {
        let (cost, hashmap) = compute_query_cost(&word_bank[i], secret_candidates);
        proof {
            lemma_cost_le_len(word_bank@[i as int]@, cs, FEEDBACK_COUNT as int);
        }
        if cost < minimum_cost {
            minimum_cost_query = word_bank[i].clone();
            minimum_cost = cost;
            minimum_cost_hashmap = hashmap;
        }
        i += 1;
    }
    (minimum_cost_query, minimum_cost_hashmap)
}

/// Selects the guess with the least worst-case surviving-candidate count,
/// the first of the bank on ties.
pub fn compute_best_query(word_bank: &Vec<Word>, secret_candidates: &Vec<Word>) -> (r: Word)
    requires
        word_bank@.len() >= 1,
        all_wf(word_bank@),
        all_wf(secret_candidates@),
        secret_candidates@.len() < u32::MAX,
    ensures
        r == word_bank@[best_query_index(word_bank@, secret_candidates@)],
{
    compute_best_query_and_hashmap(word_bank, secret_candidates).0
}

} // verus!
