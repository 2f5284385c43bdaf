//! The solving loop: repeated guess/feedback/filter rounds driven to
//! convergence, interactively one round at a time or as a full simulation
//! against a known secret.

use vstd::prelude::*;

use crate::feedback::{
    compute_filter, feedback_marks, is_all_green, lemma_all_green_iff_same, Filter,
};
use crate::partition::{
    filter_secret_candidates, lemma_matching_carries, lemma_matching_le_cost, matching_candidates,
    query_cost,
};
use crate::selector::{
    best_query_index, compute_best_query, lemma_best_query_minimal, lemma_best_query_shrinks,
};
use crate::word::{all_wf, clone_words, distinct_views, in_bank, views_within, Word};

verus! {

/// What the filtering step of one guess/feedback round decides.
pub enum RoundStep {
    /// The secret is found: the feedback was all green, or exactly one
    /// candidate survived the filtering.
    Solved { word: Word, guesses: u32 },
    /// No candidate matches the received feedback — either the live set was
    /// already empty or the feedback fits no bucket. The caller reports "no
    /// solution found".
    Exhausted,
    /// More than one candidate survives; play continues with them.
    Continue { candidates: Vec<Word>, guesses: u32 },
}

/// Filters the candidate set by the feedback received for the played guess
/// and decides how the solving loop proceeds.
///
/// All-green feedback solves the round with the played guess. Otherwise the
/// surviving candidates are exactly those that would have produced the
/// feedback: none ends the game exhausted, a single one solves it (counting
/// one more guess), several continue the loop.
pub fn play_round(query: &Word, filter: &Filter, secret_candidates: &Vec<Word>, guesses: u32) -> (r:
    RoundStep)
    requires
        query.wf(),
        all_wf(secret_candidates@),
        guesses < u32::MAX,
    ensures
        ({
            let m = matching_candidates(query@, filter.colors@, secret_candidates@);
            &&& is_all_green(filter.colors@) ==> r == (RoundStep::Solved { word: *query, guesses })
            &&& !is_all_green(filter.colors@) && m.len() == 0 ==> r == RoundStep::Exhausted
            &&& !is_all_green(filter.colors@) && m.len() == 1 ==> r == (RoundStep::Solved {
                word: m[0],
                guesses: (guesses + 1) as u32,
            })
            &&& !is_all_green(filter.colors@) && m.len() >= 2 ==> (r matches RoundStep::Continue {
                candidates: c,
                guesses: g,
            } && c@ == m && g == guesses + 1)
        }),
{
    if filter.is_green() {
        return RoundStep::Solved { word: query.clone(), guesses };
    }
    let next = filter_secret_candidates(query, filter, secret_candidates);
    if next.len() == 0 {
        RoundStep::Exhausted
    } else if next.len() == 1 {
        let word = next[0].clone();
        RoundStep::Solved { word, guesses: guesses + 1 }
    } else {
        RoundStep::Continue { candidates: next, guesses: guesses + 1 }
    }
}

/// Outcome of a fully simulated game.
pub enum GameOutcome {
    /// The secret was found after the given number of guesses.
    Solved { word: Word, guesses: u32 },
    /// The live candidate set ran empty: the secret is not in the solution
    /// bank.
    Exhausted { guesses: u32 },
}

/// The outcome of simulated play, round by round: the current `query` is
/// answered by its feedback against the secret; all-green feedback solves
/// the game, otherwise the candidates matching the feedback survive — none
/// exhausts the game, one solves it, several hand the turn to the minimax
/// best guess over them. `fuel` only bounds the recursion; play never runs
/// it out, since every round past the first shrinks the candidate set.
pub open spec fn spec_play(
    bank: Seq<Word>,
    cands: Seq<Word>,
    query: Word,
    secret: Seq<char>,
    guesses: u32,
    fuel: nat,
) -> GameOutcome
    decreases fuel,
{
    let marks = feedback_marks(query@, secret);
    if is_all_green(marks) {
        GameOutcome::Solved { word: query, guesses }
    } else {
        let next = matching_candidates(query@, marks, cands);
        if next.len() == 0 {
            GameOutcome::Exhausted { guesses }
        } else if next.len() == 1 {
            GameOutcome::Solved { word: next[0], guesses: (guesses + 1) as u32 }
        } else if fuel == 0 {
            vstd::pervasive::arbitrary()
        } else {
            spec_play(
                bank,
                next,
                bank[best_query_index(bank, next)],
                secret,
                (guesses + 1) as u32,
                (fuel - 1) as nat,
            )
        }
    }
}

/// Law (solving-loop convergence): simulated play returns exactly the
/// outcome of [`spec_play`] — the opening guess first, then round for
/// round the minimax best guess over the surviving candidates, counting
/// one guess per round, Exhausted as soon as no candidate matches the
/// feedback, Solved on all-green feedback or a single survivor. In
/// particular, against a secret spelled by one of the pairwise-distinct
/// solution-bank words it ends Solved on exactly that secret, after at
/// most one guess more than the bank holds words.
pub fn simulate_play(
    word_bank: &Vec<Word>,
    solution_bank: &Vec<Word>,
    opening: &Word,
    secret: &Word,
) -> (r: GameOutcome)
    requires
        word_bank@.len() >= 1,
        all_wf(word_bank@),
        all_wf(solution_bank@),
        distinct_views(solution_bank@),
        views_within(solution_bank@, word_bank@),
        opening.wf(),
        secret.wf(),
        solution_bank@.len() + 1 < u32::MAX,
    ensures
        r == spec_play(
            word_bank@,
            solution_bank@,
            *opening,
            secret@,
            1,
            (solution_bank@.len() + 2) as nat,
        ),
        in_bank(*secret, solution_bank@) ==> (r matches GameOutcome::Solved { word: w, guesses: g }
            && w@ == secret@ && g as int <= solution_bank@.len() + 1),
        r matches GameOutcome::Solved { word: w, guesses: g } ==> (w@ == secret@ || in_bank(
            w,
            solution_bank@,
        )),
{
    let ghost target = spec_play(
        word_bank@,
        solution_bank@,
        *opening,
        secret@,
        1,
        (solution_bank@.len() + 2) as nat,
    );
    let ghost mut fuel_left: int = solution_bank@.len() as int + 2;
    let mut secret_candidates = clone_words(solution_bank);
    proof {
        assert forall|k: int| 0 <= k < solution_bank@.len() implies in_bank(
            #[trigger] solution_bank@[k],
            solution_bank@,
        ) by {
            assert(0 <= k < solution_bank@.len() && solution_bank@[k]@ == solution_bank@[k]@);
        }
    }
    let mut best_query = opening.clone();
    let mut guesses: u32 = 1;
    let mut first_round = true;
    loop
        invariant
            word_bank@.len() >= 1,
            all_wf(word_bank@),
            all_wf(secret_candidates@),
            distinct_views(secret_candidates@),
            views_within(secret_candidates@, word_bank@),
            views_within(secret_candidates@, solution_bank@),
            secret.wf(),
            best_query.wf(),
            solution_bank@.len() + 1 < u32::MAX,
            in_bank(*secret, solution_bank@) ==> in_bank(*secret, secret_candidates@),
            secret_candidates@.len() <= solution_bank@.len(),
            first_round ==> guesses == 1 && secret_candidates@.len() == solution_bank@.len()
                && best_query == *opening,
            !first_round ==> secret_candidates@.len() >= 2,
            guesses as int + secret_candidates@.len() <= solution_bank@.len() + if first_round {
                1int
            } else {
                2int
            },
            fuel_left >= secret_candidates@.len() + if first_round {
                1int
            } else {
                0int
            },
            target == spec_play(
                word_bank@,
                solution_bank@,
                *opening,
                secret@,
                1,
                (solution_bank@.len() + 2) as nat,
            ),
            target == spec_play(
                word_bank@,
                secret_candidates@,
                if first_round {
                    best_query
                } else {
                    word_bank@[best_query_index(word_bank@, secret_candidates@)]
                },
                secret@,
                guesses,
                fuel_left as nat,
            ),
        decreases
                secret_candidates@.len(),
                (if first_round {
                    1int
                } else {
                    0int
                }),
    {
        if !first_round {
            best_query = compute_best_query(word_bank, &secret_candidates);
            proof {
                lemma_best_query_minimal(word_bank@, secret_candidates@, word_bank@.len() as int);
                assert(best_query == word_bank@[best_query_index(word_bank@, secret_candidates@)]);
                assert(best_query.wf());
            }
        }
        let ghost picked_best = !first_round;
        proof {
            assert(target == spec_play(
                word_bank@,
                secret_candidates@,
                best_query,
                secret@,
                guesses,
                fuel_left as nat,
            ));
        }
        let filter = compute_filter(&best_query, secret);
        if filter.is_green() {
            proof {
                lemma_all_green_iff_same(best_query@, secret@);
                assert(target == (GameOutcome::Solved { word: best_query, guesses }));
            }
            return GameOutcome::Solved { word: best_query, guesses };
        }
        let next = filter_secret_candidates(&best_query, &filter, &secret_candidates);
        proof {
            lemma_matching_carries(best_query@, filter.colors@, secret_candidates@, word_bank@);
            lemma_matching_carries(best_query@, filter.colors@, secret_candidates@, solution_bank@);
            broadcast use vstd::seq_lib::group_filter_ensures;

            if in_bank(*secret, solution_bank@) {
                let k = choose|i: int|
                    0 <= i < secret_candidates@.len() && (#[trigger] secret_candidates@[i])@
                        == secret@;
                assert(feedback_marks(best_query@, secret_candidates@[k]@) == filter.colors@);
                assert(matching_candidates(
                    best_query@,
                    filter.colors@,
                    secret_candidates@,
                ).contains(secret_candidates@[k]));
                let j = choose|j: int|
                    0 <= j < next@.len() && #[trigger] next@[j] == secret_candidates@[k];
                assert(next@[j]@ == secret@);
                assert(in_bank(*secret, next@));
            }
            if picked_best && next@.len() >= 2 {
                lemma_best_query_shrinks(word_bank@, secret_candidates@);
                lemma_matching_le_cost(best_query@, filter.colors@, secret_candidates@);
                assert(query_cost(best_query@, secret_candidates@) == query_cost(
                    word_bank@[best_query_index(word_bank@, secret_candidates@)]@,
                    secret_candidates@,
                ));
            }
        }
        if next.len() == 0 {
            proof {
                assert(target == (GameOutcome::Exhausted { guesses }));
            }
            return GameOutcome::Exhausted { guesses };
        }
        if next.len() == 1 {
            let word = next[0].clone();
            proof {
                assert(target == (GameOutcome::Solved { word, guesses: (guesses + 1) as u32 }));
            }
            return GameOutcome::Solved { word, guesses: guesses + 1 };
        }
        proof {
            assert(fuel_left >= 1);
            assert(target == spec_play(
                word_bank@,
                next@,
                word_bank@[best_query_index(word_bank@, next@)],
                secret@,
                (guesses + 1) as u32,
                (fuel_left - 1) as nat,
            ));
            fuel_left = fuel_left - 1;
        }
        secret_candidates = next;
        guesses = guesses + 1;
        first_round = false;
    }
}

} // verus!
