//! The exhaustive decision tree: a depth-first exploration that records,
//! for every possible secret, the full guess/feedback path the solver takes
//! to reach it.

use vstd::prelude::*;
use vstd::multiset::Multiset;

use crate::feedback::{filter_from_value, marks_of_value, Color, Filter, FEEDBACK_COUNT};
use crate::partition::{
    bucket_of, buckets_union_upto, compute_filters_to_secret_candidates_for_query,
    lemma_bucket_carries, lemma_bucket_le_max, lemma_partition_coverage,
};
use crate::selector::{
    best_query_index, compute_best_query_and_hashmap, lemma_best_query_minimal,
    lemma_best_query_shrinks,
};
use crate::word::{all_wf, clone_words, distinct_views, views_within, Word};

verus! {

/// One element of a root-to-leaf path: a played guess (the last one being
/// the secret itself) or the feedback that answered it.
pub enum TraceItem {
    Guess(Word),
    Feedback(Filter),
}

impl Clone for TraceItem {
    fn clone(&self) -> (r: TraceItem)
        ensures
            r == *self,
    {
        match self {
            TraceItem::Guess(w) => TraceItem::Guess(w.clone()),
            TraceItem::Feedback(f) => TraceItem::Feedback(*f),
        }
    }
}

/// The letters or marks a path element carries.
pub enum TraceItemView {
    Guess(Seq<char>),
    Feedback(Seq<Color>),
}

impl View for TraceItem {
    type V = TraceItemView;

    open spec fn view(&self) -> TraceItemView {
        match self {
            TraceItem::Guess(w) => TraceItemView::Guess(w@),
            TraceItem::Feedback(f) => TraceItemView::Feedback(f.colors@),
        }
    }
}

/// The letters and marks along one recorded path.
pub open spec fn line_views(p: Seq<TraceItem>) -> Seq<TraceItemView> {
    p.map_values(|t: TraceItem| t@)
}

/// The letters and marks of every recorded path, in emission order.
pub open spec fn output_views(ps: Seq<Vec<TraceItem>>) -> Seq<Seq<TraceItemView>> {
    ps.map_values(|l: Vec<TraceItem>| line_views(l@))
}

/// The exact lines the exhaustive exploration of one feedback branch
/// records: the received marks are appended to the path; a single live
/// candidate closes the line as a leaf; otherwise the minimax best guess is
/// appended and its buckets are explored in ascending canonical feedback
/// order. `fuel` only bounds the recursion; with pairwise-distinct
/// candidates drawn from the bank, every recursion level shrinks the
/// candidate set, so `cands.len()` fuel is never run out.
pub open spec fn spec_subtree(
    bank: Seq<Word>,
    marks: Seq<Color>,
    cands: Seq<Word>,
    path: Seq<TraceItemView>,
    fuel: nat,
) -> Seq<Seq<TraceItemView>>
    decreases fuel, 0int,
{
    let path1 = path.push(TraceItemView::Feedback(marks));
    if cands.len() == 1 {
        seq![path1.push(TraceItemView::Guess(cands[0]@))]
    } else if fuel == 0 {
        vstd::pervasive::arbitrary()
    } else {
        let q = bank[best_query_index(bank, cands)];
        spec_branches(
            bank,
            q@,
            cands,
            path1.push(TraceItemView::Guess(q@)),
            FEEDBACK_COUNT as int,
            (fuel - 1) as nat,
        )
    }
}

/// The lines of the buckets with canonical value below `n`, ascending.
pub open spec fn spec_branches(
    bank: Seq<Word>,
    g: Seq<char>,
    cands: Seq<Word>,
    path: Seq<TraceItemView>,
    n: int,
    fuel: nat,
) -> Seq<Seq<TraceItemView>>
    decreases fuel, n,
{
    if n <= 0 {
        Seq::empty()
    } else {
        let pre = spec_branches(bank, g, cands, path, n - 1, fuel);
        let b = bucket_of(g, cands, n - 1);
        if b.len() == 0 {
            pre
        } else {
            pre + spec_subtree(bank, marks_of_value(n - 1), b, path, fuel)
        }
    }
}

/// The exact line sequence of the full decision tree: the opening guess
/// heads every line, and its buckets over the solution bank are explored in
/// ascending canonical feedback order, each depth-first.
pub open spec fn spec_decision_tree(
    bank: Seq<Word>,
    cands: Seq<Word>,
    opening: Word,
) -> Seq<Seq<TraceItemView>> {
    spec_branches(
        bank,
        opening@,
        cands,
        seq![TraceItemView::Guess(opening@)],
        FEEDBACK_COUNT as int,
        cands.len(),
    )
}

/// Any fuel of at least the candidate count unfolds the subtree fully, so
/// the recorded lines do not depend on it.
proof fn lemma_subtree_fuel(
    bank: Seq<Word>,
    marks: Seq<Color>,
    cands: Seq<Word>,
    path: Seq<TraceItemView>,
    f1: nat,
    f2: nat,
)
    requires
        bank.len() >= 1,
        all_wf(bank),
        all_wf(cands),
        distinct_views(cands),
        views_within(cands, bank),
        cands.len() >= 1,
        f1 >= cands.len(),
        f2 >= cands.len(),
    ensures
        spec_subtree(bank, marks, cands, path, f1) == spec_subtree(bank, marks, cands, path, f2),
    decreases f1, 0int,
{
    if cands.len() >= 2 {
        let q = bank[best_query_index(bank, cands)];
        lemma_best_query_minimal(bank, cands, bank.len() as int);
        lemma_best_query_shrinks(bank, cands);
        assert forall|u: int| 0 <= u < FEEDBACK_COUNT implies (#[trigger] bucket_of(
            q@,
            cands,
            u,
        )).len() < cands.len() by {
            lemma_bucket_le_max(q@, cands, u, FEEDBACK_COUNT as int);
        }
        lemma_branches_fuel(
            bank,
            q@,
            cands,
            path.push(TraceItemView::Feedback(marks)).push(TraceItemView::Guess(q@)),
            FEEDBACK_COUNT as int,
            (f1 - 1) as nat,
            (f2 - 1) as nat,
        );
    }
}

proof fn lemma_branches_fuel(
    bank: Seq<Word>,
    g: Seq<char>,
    cands: Seq<Word>,
    path: Seq<TraceItemView>,
    n: int,
    f1: nat,
    f2: nat,
)
    requires
        bank.len() >= 1,
        all_wf(bank),
        all_wf(cands),
        distinct_views(cands),
        views_within(cands, bank),
        forall|u: int| 0 <= u < n ==> (#[trigger] bucket_of(g, cands, u)).len() <= f1,
        forall|u: int| 0 <= u < n ==> (#[trigger] bucket_of(g, cands, u)).len() <= f2,
    ensures
        spec_branches(bank, g, cands, path, n, f1) == spec_branches(bank, g, cands, path, n, f2),
    decreases f1, n,
{
    if n > 0 {
        lemma_branches_fuel(bank, g, cands, path, n - 1, f1, f2);
        let b = bucket_of(g, cands, n - 1);
        if b.len() != 0 {
            lemma_bucket_carries(g, n - 1, cands, bank);
            lemma_subtree_fuel(bank, marks_of_value(n - 1), b, path, f1, f2);
        }
    }
}

/// Law (decision-tree determinism): the emitted lines are a function of the
/// banks and the opening guess alone, so two runs on identical inputs
/// produce identical lines — the same paths, in the same depth-first order,
/// sibling feedback branches ascending by canonical value.
pub proof fn lemma_tree_deterministic(
    bank: Seq<Word>,
    cands: Seq<Word>,
    opening: Word,
    o1: Seq<Vec<TraceItem>>,
    o2: Seq<Vec<TraceItem>>,
)
    requires
        output_views(o1) == spec_decision_tree(bank, cands, opening),
        output_views(o2) == spec_decision_tree(bank, cands, opening),
    ensures
        output_views(o1) == output_views(o2),
{
}

/// Appending one element to a path appends its letters or marks to the view.
proof fn lemma_line_views_push(p: Seq<TraceItem>, t: TraceItem)
    ensures
        line_views(p.push(t)) == line_views(p).push(t@),
{
    assert(line_views(p.push(t)) =~= line_views(p).push(t@));
}

/// The secret a completed path ends in.
pub open spec fn final_guess(p: Seq<TraceItem>) -> Word {
    match p.last() {
        TraceItem::Guess(w) => w,
        TraceItem::Feedback(_) => vstd::pervasive::arbitrary(),
    }
}

/// The multiset of secrets the recorded paths end in.
pub open spec fn finals_of(ps: Seq<Vec<TraceItem>>) -> Multiset<Word>
    decreases ps.len(),
{
    if ps.len() == 0 {
        Multiset::empty()
    } else {
        finals_of(ps.drop_last()).insert(final_guess(ps.last()@))
    }
}

proof fn lemma_finals_push(ps: Seq<Vec<TraceItem>>, x: Vec<TraceItem>)
    ensures
        finals_of(ps.push(x)) == finals_of(ps).insert(final_guess(x@)),
{
    assert(ps.push(x).drop_last() =~= ps);
}

proof fn lemma_finals_len(ps: Seq<Vec<TraceItem>>)
    ensures
        finals_of(ps).len() == ps.len(),
    decreases ps.len(),
{
    broadcast use vstd::multiset::group_multiset_axioms;

    if ps.len() > 0 {
        lemma_finals_len(ps.drop_last());
    }
}

proof fn lemma_finals_concat(a: Seq<Vec<TraceItem>>, b: Seq<Vec<TraceItem>>)
    ensures
        finals_of(a + b) == finals_of(a).add(finals_of(b)),
    decreases b.len(),
{
    broadcast use vstd::multiset::group_multiset_axioms;

    if b.len() == 0 {
        assert(a + b =~= a);
        assert(finals_of(a).add(Multiset::empty()) =~= finals_of(a));
    } else {
        lemma_finals_concat(a, b.drop_last());
        assert((a + b).drop_last() =~= a + b.drop_last());
        assert((a + b).last() == b.last());
        assert(finals_of(a).add(finals_of(b.drop_last())).insert(final_guess(b.last()@))
            =~= finals_of(a).add(finals_of(b.drop_last()).insert(final_guess(b.last()@))));
    }
}

/// Copies a recorded path; the copy holds the very same items.
fn clone_trace(p: &Vec<TraceItem>) -> (r: Vec<TraceItem>)
    ensures
        r@ == p@,
{
    let r = p.clone();
    proof {
        assert(r@ =~= p@);
    }
    r
}

/// Explores every feedback branch of the live candidate set depth-first,
/// in canonical feedback order, and records one completed path per
/// candidate.
///
/// On entry the path holds the guesses and feedbacks that led here; the
/// received feedback for the last guess is `filter`. The function appends
/// to `out` exactly the lines of [`spec_subtree`] — one per live candidate,
/// each extending the entry path with the received feedback and ending in
/// the guess that names its candidate — and restores the path before
/// returning.
pub fn dfs(
    word_bank: &Vec<Word>,
    filter: Filter,
    secret_candidates: Vec<Word>,
    root_to_leaf_path: &mut Vec<TraceItem>,
    out: &mut Vec<Vec<TraceItem>>,
)
    requires
        word_bank@.len() >= 1,
        all_wf(word_bank@),
        all_wf(secret_candidates@),
        distinct_views(secret_candidates@),
        views_within(secret_candidates@, word_bank@),
        secret_candidates@.len() >= 1,
        secret_candidates@.len() < u32::MAX,
    ensures
        final(root_to_leaf_path)@ == old(root_to_leaf_path)@,
        final(out)@.len() == old(out)@.len() + secret_candidates@.len(),
        final(out)@.subrange(0, old(out)@.len() as int) == old(out)@,
        finals_of(final(out)@.subrange(old(out)@.len() as int, final(out)@.len() as int))
            == secret_candidates@.to_multiset(),
        output_views(final(out)@) == output_views(old(out)@) + spec_subtree(
            word_bank@,
            filter.colors@,
            secret_candidates@,
            line_views(old(root_to_leaf_path)@),
            secret_candidates@.len(),
        ),
        forall|i: int|
            old(out)@.len() <= i < final(out)@.len() ==> ((#[trigger] final(out)@[i])@.len() > 0
                && final(out)@[i]@.last() is Guess),
        forall|i: int|
            old(out)@.len() <= i < final(out)@.len() ==> ((#[trigger] final(out)@[i])@.len() > old(
                root_to_leaf_path,
            )@.len() + 1 && final(out)@[i]@.subrange(
                0,
                old(root_to_leaf_path)@.len() as int + 1,
            ) == old(root_to_leaf_path)@.push(TraceItem::Feedback(filter))),
    decreases secret_candidates@.len(),
{
    broadcast use vstd::seq_lib::group_to_multiset_ensures;
    broadcast use vstd::multiset::group_multiset_axioms;

    let ghost old_path = root_to_leaf_path@;
    let ghost old_out = out@;
    let ghost cands = secret_candidates@;
    root_to_leaf_path.push(TraceItem::Feedback(filter));
    if secret_candidates.len() == 1 {
        let w = secret_candidates[0].clone();
        root_to_leaf_path.push(TraceItem::Guess(w));
        let line = clone_trace(root_to_leaf_path);
        out.push(line);
        proof {
            assert(out@.subrange(0, old_out.len() as int) =~= old_out);
            let added = out@.subrange(old_out.len() as int, out@.len() as int);
            assert(added =~= Seq::<Vec<TraceItem>>::empty().push(line));
            lemma_finals_push(Seq::<Vec<TraceItem>>::empty(), line);
            assert(final_guess(line@) == cands[0]);
            assert(cands =~= Seq::<Word>::empty().push(cands[0]));
            let e = Seq::<Word>::empty().to_multiset();
            assert(e.len() == 0);
            vstd::multiset::lemma_multiset_empty_len(e);
            assert(finals_of(added) =~= cands.to_multiset());
            assert(line@ == old_path.push(TraceItem::Feedback(filter)).push(TraceItem::Guess(w)));
            lemma_line_views_push(old_path, TraceItem::Feedback(filter));
            lemma_line_views_push(
                old_path.push(TraceItem::Feedback(filter)),
                TraceItem::Guess(w),
            );
            assert(line_views(line@) == line_views(old_path).push(
                TraceItemView::Feedback(filter.colors@),
            ).push(TraceItemView::Guess(cands[0]@)));
            assert(spec_subtree(
                word_bank@,
                filter.colors@,
                cands,
                line_views(old_path),
                cands.len(),
            ) == seq![line_views(line@)]) by {
                assert(seq![
                    line_views(old_path).push(TraceItemView::Feedback(filter.colors@)).push(
                        TraceItemView::Guess(cands[0]@),
                    ),
                ] =~= seq![line_views(line@)]);
            }
            assert(output_views(out@) =~= output_views(old_out) + seq![line_views(line@)]);
            assert(line@.subrange(0, old_path.len() as int + 1) =~= old_path.push(
                TraceItem::Feedback(filter),
            ));
        }
    } else {
        let (query, hashmap) = compute_best_query_and_hashmap(word_bank, &secret_candidates);
        root_to_leaf_path.push(TraceItem::Guess(query.clone()));
        let ghost g = query@;
        proof {
            lemma_best_query_minimal(word_bank@, cands, word_bank@.len() as int);
            assert(query.wf());
            lemma_best_query_shrinks(word_bank@, cands);
            assert forall|u: int| 0 <= u < FEEDBACK_COUNT implies (#[trigger] bucket_of(
                g,
                cands,
                u,
            )).len() < cands.len() by {
                lemma_bucket_le_max(g, cands, u, FEEDBACK_COUNT as int);
            }
        }
        let ghost entry_out = out@;
        let ghost entry_path = root_to_leaf_path@;
        proof {
            assert(output_views(out@) =~= output_views(entry_out) + spec_branches(
                word_bank@,
                g,
                cands,
                line_views(entry_path),
                0,
                (cands.len() - 1) as nat,
            ));
        }
        let mut v: usize = 0;
        while v < FEEDBACK_COUNT
            invariant
                word_bank@.len() >= 1,
                all_wf(word_bank@),
                cands == secret_candidates@,
                all_wf(cands),
                distinct_views(cands),
                views_within(cands, word_bank@),
                2 <= cands.len() < u32::MAX,
                hashmap.buckets@.len() == FEEDBACK_COUNT,
                forall|u: int| 0 <= u < FEEDBACK_COUNT ==> (#[trigger] hashmap.buckets@[u])@
                    == bucket_of(g, cands, u),
                forall|u: int| 0 <= u < FEEDBACK_COUNT ==> (#[trigger] bucket_of(
                    g,
                    cands,
                    u,
                )).len() < cands.len(),
                v <= FEEDBACK_COUNT,
                root_to_leaf_path@ == entry_path,
                out@.len() >= entry_out.len(),
                out@.subrange(0, entry_out.len() as int) == entry_out,
                finals_of(out@.subrange(entry_out.len() as int, out@.len() as int))
                    == buckets_union_upto(g, cands, v as int),
                output_views(out@) == output_views(entry_out) + spec_branches(
                    word_bank@,
                    g,
                    cands,
                    line_views(entry_path),
                    v as int,
                    (cands.len() - 1) as nat,
                ),
                forall|i: int|
                    entry_out.len() <= i < out@.len() ==> ((#[trigger] out@[i])@.len() > 0
                        && out@[i]@.last() is Guess),
                forall|i: int|
                    entry_out.len() <= i < out@.len() ==> ((#[trigger] out@[i])@.len()
                        > entry_path.len() && out@[i]@.subrange(0, entry_path.len() as int)
                        == entry_path),
            decreases FEEDBACK_COUNT - v,
        {
            let ghost loop_out = out@;
            if hashmap.buckets[v].len() > 0 {
                let sub = clone_words(&hashmap.buckets[v]);
                let f = filter_from_value(v as u8);
                proof {
                    lemma_bucket_carries(g, v as int, cands, word_bank@);
                }
                dfs(word_bank, f, sub, root_to_leaf_path, out);
                proof {
                    broadcast use vstd::seq_lib::group_to_multiset_ensures;
                    broadcast use vstd::multiset::group_multiset_axioms;

                    assert(forall|i: int|
                        0 <= i < loop_out.len() ==> out@[i] == #[trigger] loop_out[i]);
                    assert forall|i: int|
                        entry_out.len() <= i < out@.len() implies ((#[trigger] out@[i])@.len() > 0
                        && out@[i]@.last() is Guess) by {
                        if i < loop_out.len() {
                            assert(out@[i] == loop_out[i]);
                        }
                    }
                    assert forall|i: int|
                        entry_out.len() <= i < out@.len() implies ((#[trigger] out@[i])@.len()
                        > entry_path.len() && out@[i]@.subrange(0, entry_path.len() as int)
                        == entry_path) by {
                        if i < loop_out.len() {
                            assert(out@[i] == loop_out[i]);
                        } else {
                            assert(out@[i]@.subrange(0, entry_path.len() as int + 1) == entry_path.push(
                                TraceItem::Feedback(f),
                            ));
                            assert(out@[i]@.subrange(0, entry_path.len() as int) =~= entry_path);
                        }
                    }
                    let b = bucket_of(g, cands, v as int);
                    assert(f.colors@ == marks_of_value(v as int));
                    lemma_subtree_fuel(
                        word_bank@,
                        marks_of_value(v as int),
                        b,
                        line_views(entry_path),
                        b.len(),
                        (cands.len() - 1) as nat,
                    );
                    assert(spec_branches(
                        word_bank@,
                        g,
                        cands,
                        line_views(entry_path),
                        v as int + 1,
                        (cands.len() - 1) as nat,
                    ) == spec_branches(
                        word_bank@,
                        g,
                        cands,
                        line_views(entry_path),
                        v as int,
                        (cands.len() - 1) as nat,
                    ) + spec_subtree(
                        word_bank@,
                        marks_of_value(v as int),
                        b,
                        line_views(entry_path),
                        (cands.len() - 1) as nat,
                    ));
                    assert((output_views(entry_out) + spec_branches(
                        word_bank@,
                        g,
                        cands,
                        line_views(entry_path),
                        v as int,
                        (cands.len() - 1) as nat,
                    )) + spec_subtree(
                        word_bank@,
                        marks_of_value(v as int),
                        b,
                        line_views(entry_path),
                        (cands.len() - 1) as nat,
                    ) =~= output_views(entry_out) + (spec_branches(
                        word_bank@,
                        g,
                        cands,
                        line_views(entry_path),
                        v as int,
                        (cands.len() - 1) as nat,
                    ) + spec_subtree(
                        word_bank@,
                        marks_of_value(v as int),
                        b,
                        line_views(entry_path),
                        (cands.len() - 1) as nat,
                    )));
                    assert(out@.subrange(0, entry_out.len() as int) =~= entry_out) by {
                        assert(out@.subrange(0, loop_out.len() as int) == loop_out);
                        assert(forall|i: int|
                            0 <= i < loop_out.len() ==> out@[i] == #[trigger] loop_out[i]);
                    }
                    let before = loop_out.subrange(entry_out.len() as int, loop_out.len() as int);
                    let added = out@.subrange(loop_out.len() as int, out@.len() as int);
                    let whole = out@.subrange(entry_out.len() as int, out@.len() as int);
                    assert(whole =~= before + added) by {
                        assert(forall|i: int|
                            0 <= i < loop_out.len() ==> out@[i] == #[trigger] loop_out[i]);
                    }
                    lemma_finals_concat(before, added);
                    assert(buckets_union_upto(g, cands, v as int + 1) == buckets_union_upto(
                        g,
                        cands,
                        v as int,
                    ).add(b.to_multiset()));
                }
            } else {
                proof {
                    broadcast use vstd::seq_lib::group_to_multiset_ensures;
                    broadcast use vstd::multiset::group_multiset_axioms;

                    let b = bucket_of(g, cands, v as int);
                    assert(b.len() == 0);
                    assert(b =~= Seq::<Word>::empty());
                    let e = Seq::<Word>::empty().to_multiset();
                    assert(e.len() == 0);
                    vstd::multiset::lemma_multiset_empty_len(e);
                    assert(buckets_union_upto(g, cands, v as int).add(b.to_multiset())
                        =~= buckets_union_upto(g, cands, v as int));
                    assert(spec_branches(
                        word_bank@,
                        g,
                        cands,
                        line_views(entry_path),
                        v as int + 1,
                        (cands.len() - 1) as nat,
                    ) == spec_branches(
                        word_bank@,
                        g,
                        cands,
                        line_views(entry_path),
                        v as int,
                        (cands.len() - 1) as nat,
                    ));
                }
            }
            v += 1;
        }
        proof {
            lemma_partition_coverage(g, cands);
            lemma_finals_len(out@.subrange(entry_out.len() as int, out@.len() as int));
            lemma_line_views_push(old_path, TraceItem::Feedback(filter));
            lemma_line_views_push(
                old_path.push(TraceItem::Feedback(filter)),
                TraceItem::Guess(query),
            );
            assert(entry_path == old_path.push(TraceItem::Feedback(filter)).push(
                TraceItem::Guess(query),
            ));
            assert(query == word_bank@[best_query_index(word_bank@, cands)]);
            assert(spec_subtree(
                word_bank@,
                filter.colors@,
                cands,
                line_views(old_path),
                cands.len(),
            ) == spec_branches(
                word_bank@,
                g,
                cands,
                line_views(entry_path),
                FEEDBACK_COUNT as int,
                (cands.len() - 1) as nat,
            ));
            assert forall|i: int|
                old_out.len() <= i < out@.len() implies ((#[trigger] out@[i])@.len()
                > old_path.len() + 1 && out@[i]@.subrange(0, old_path.len() as int + 1)
                == old_path.push(TraceItem::Feedback(filter))) by {
                assert(out@[i]@.subrange(0, entry_path.len() as int) == entry_path);
                assert(out@[i]@.subrange(0, old_path.len() as int + 1) =~= old_path.push(
                    TraceItem::Feedback(filter),
                ));
            }
        }
    }
    root_to_leaf_path.pop();
    root_to_leaf_path.pop();
    proof {
        assert(root_to_leaf_path@ =~= old_path);
        assert(out@.subrange(0, old_out.len() as int) =~= old_out);
    }
}

/// Law (decision-tree completeness): run to completion, the builder emits
/// exactly the lines of [`spec_decision_tree`] — one path per word of the
/// solution bank, each beginning with the opening guess and ending in the
/// guess naming its secret; as a multiset, the path endings are exactly the
/// solution bank. Since the lines are a function of the banks and the
/// opening guess alone, the output is deterministic and diffable
/// ([`lemma_tree_deterministic`]).
///
/// Exploration is rooted at the fixed opening guess: its partition of the
/// solution bank is explored bucket by bucket in canonical feedback order,
/// each bucket depth-first through [`dfs`].
pub fn build_decision_tree(
    word_bank: &Vec<Word>,
    solution_bank: &Vec<Word>,
    opening: &Word,
) -> (out: Vec<Vec<TraceItem>>)
    requires
        word_bank@.len() >= 1,
        all_wf(word_bank@),
        all_wf(solution_bank@),
        distinct_views(solution_bank@),
        views_within(solution_bank@, word_bank@),
        opening.wf(),
        solution_bank@.len() < u32::MAX,
    ensures
        out@.len() == solution_bank@.len(),
        finals_of(out@) == solution_bank@.to_multiset(),
        output_views(out@) == spec_decision_tree(word_bank@, solution_bank@, *opening),
        forall|i: int|
            0 <= i < out@.len() ==> ((#[trigger] out@[i])@.len() > 0 && out@[i]@.last() is Guess),
        forall|i: int|
            0 <= i < out@.len() ==> ((#[trigger] out@[i])@.len() > 1 && out@[i]@[0]
                == TraceItem::Guess(*opening)),
{
    broadcast use vstd::seq_lib::group_to_multiset_ensures;
    broadcast use vstd::multiset::group_multiset_axioms;
    broadcast use vstd::seq_lib::group_filter_ensures;

    let ghost cands = solution_bank@;
    let ghost g = opening@;
    let hashmap = compute_filters_to_secret_candidates_for_query(opening, solution_bank);
    let mut root_to_leaf_path: Vec<TraceItem> = Vec::new();
    root_to_leaf_path.push(TraceItem::Guess(opening.clone()));
    let ghost entry_path = root_to_leaf_path@;
    let mut out: Vec<Vec<TraceItem>> = Vec::new();
    proof {
        assert(entry_path =~= Seq::<TraceItem>::empty().push(TraceItem::Guess(*opening)));
        lemma_line_views_push(Seq::<TraceItem>::empty(), TraceItem::Guess(*opening));
        assert(line_views(entry_path) =~= seq![TraceItemView::Guess(opening@)]);
        assert(output_views(out@) =~= Seq::<Seq<TraceItemView>>::empty());
        assert(output_views(out@) =~= spec_branches(
            word_bank@,
            g,
            cands,
            line_views(entry_path),
            0,
            cands.len(),
        ));
    }
    let mut v: usize = 0;
    while v < FEEDBACK_COUNT
        invariant
            word_bank@.len() >= 1,
            all_wf(word_bank@),
            all_wf(cands),
            distinct_views(cands),
            views_within(cands, word_bank@),
            cands.len() < u32::MAX,
            g == opening@,
            hashmap.buckets@.len() == FEEDBACK_COUNT,
            forall|u: int| 0 <= u < FEEDBACK_COUNT ==> (#[trigger] hashmap.buckets@[u])@
                == bucket_of(g, cands, u),
            v <= FEEDBACK_COUNT,
            root_to_leaf_path@ == entry_path,
            entry_path == Seq::<TraceItem>::empty().push(TraceItem::Guess(*opening)),
            finals_of(out@) == buckets_union_upto(g, cands, v as int),
            output_views(out@) == spec_branches(
                word_bank@,
                g,
                cands,
                line_views(entry_path),
                v as int,
                cands.len(),
            ),
            forall|i: int|
                0 <= i < out@.len() ==> ((#[trigger] out@[i])@.len() > 0 && out@[i]@.last()
                    is Guess),
            forall|i: int|
                0 <= i < out@.len() ==> ((#[trigger] out@[i])@.len() > entry_path.len()
                    && out@[i]@.subrange(0, entry_path.len() as int) == entry_path),
        decreases FEEDBACK_COUNT - v,
    {
        let ghost loop_out = out@;
        if hashmap.buckets[v].len() > 0 {
            let sub = clone_words(&hashmap.buckets[v]);
            let f = filter_from_value(v as u8);
            proof {
                lemma_bucket_carries(g, v as int, cands, word_bank@);
            }
            dfs(word_bank, f, sub, &mut root_to_leaf_path, &mut out);
            proof {
                broadcast use vstd::seq_lib::group_to_multiset_ensures;
                broadcast use vstd::multiset::group_multiset_axioms;
                broadcast use vstd::seq_lib::group_filter_ensures;

                let b = bucket_of(g, cands, v as int);
                let added = out@.subrange(loop_out.len() as int, out@.len() as int);
                assert(loop_out =~= out@.subrange(0, loop_out.len() as int));
                assert(out@ =~= loop_out + added);
                lemma_finals_concat(loop_out, added);
                assert(buckets_union_upto(g, cands, v as int + 1) == buckets_union_upto(
                    g,
                    cands,
                    v as int,
                ).add(b.to_multiset()));
                assert(forall|i: int|
                    0 <= i < loop_out.len() ==> out@[i] == #[trigger] loop_out[i]);
                assert forall|i: int|
                    0 <= i < out@.len() implies ((#[trigger] out@[i])@.len() > entry_path.len()
                    && out@[i]@.subrange(0, entry_path.len() as int) == entry_path) by {
                    if i < loop_out.len() {
                        assert(out@[i] == loop_out[i]);
                    } else {
                        assert(out@[i]@.subrange(0, entry_path.len() as int + 1) == entry_path.push(
                            TraceItem::Feedback(f),
                        ));
                        assert(out@[i]@.subrange(0, entry_path.len() as int) =~= entry_path);
                    }
                }
                assert(f.colors@ == marks_of_value(v as int));
                assert(b.len() <= cands.len());
                lemma_subtree_fuel(
                    word_bank@,
                    marks_of_value(v as int),
                    b,
                    line_views(entry_path),
                    b.len(),
                    cands.len(),
                );
                assert(spec_branches(
                    word_bank@,
                    g,
                    cands,
                    line_views(entry_path),
                    v as int + 1,
                    cands.len(),
                ) == spec_branches(
                    word_bank@,
                    g,
                    cands,
                    line_views(entry_path),
                    v as int,
                    cands.len(),
                ) + spec_subtree(
                    word_bank@,
                    marks_of_value(v as int),
                    b,
                    line_views(entry_path),
                    cands.len(),
                ));
            }
        } else {
            proof {
                broadcast use vstd::seq_lib::group_to_multiset_ensures;
                broadcast use vstd::multiset::group_multiset_axioms;

                let b = bucket_of(g, cands, v as int);
                assert(b.len() == 0);
                assert(b =~= Seq::<Word>::empty());
                let e = Seq::<Word>::empty().to_multiset();
                assert(e.len() == 0);
                vstd::multiset::lemma_multiset_empty_len(e);
                assert(buckets_union_upto(g, cands, v as int).add(b.to_multiset())
                    =~= buckets_union_upto(g, cands, v as int));
                assert(spec_branches(
                    word_bank@,
                    g,
                    cands,
                    line_views(entry_path),
                    v as int + 1,
                    cands.len(),
                ) == spec_branches(
                    word_bank@,
                    g,
                    cands,
                    line_views(entry_path),
                    v as int,
                    cands.len(),
                ));
            }
        }
        v += 1;
    }
    proof {
        lemma_partition_coverage(g, cands);
        lemma_finals_len(out@);
        lemma_line_views_push(Seq::<TraceItem>::empty(), TraceItem::Guess(*opening));
        assert(line_views(root_to_leaf_path@) =~= seq![TraceItemView::Guess(opening@)]);
        assert(output_views(out@) == spec_decision_tree(word_bank@, solution_bank@, *opening));
        assert forall|i: int| 0 <= i < out@.len() implies ((#[trigger] out@[i])@.len() > 1
            && out@[i]@[0] == TraceItem::Guess(*opening)) by {
            assert(out@[i]@.subrange(0, 1) == root_to_leaf_path@);
            assert(out@[i]@[0] == out@[i]@.subrange(0, 1)[0]);
        }
    }
    out
}

} // verus!
