//! General facts about filtered sequences, used to reason about candidate
//! buckets.

use vstd::prelude::*;

verus! {

/// Filtering after a push keeps the pushed element exactly when the
/// predicate accepts it.
pub proof fn lemma_filter_push<A>(s: Seq<A>, pred: spec_fn(A) -> bool, x: A)
    ensures
        s.push(x).filter(pred) == if pred(x) {
            s.filter(pred).push(x)
        } else {
            s.filter(pred)
        },
{
    reveal(Seq::filter);
    assert(s.push(x).drop_last() =~= s);
}

/// Every element of a filtered sequence is an element of the original.
pub proof fn lemma_filter_members<A>(s: Seq<A>, pred: spec_fn(A) -> bool)
    ensures
        forall|i: int|
            0 <= i < s.filter(pred).len() ==> exists|k: int|
                0 <= k < s.len() && s[k] == #[trigger] s.filter(pred)[i],
    decreases s.len(),
{
    reveal(Seq::filter);
    if s.len() > 0 {
        let t = s.drop_last();
        lemma_filter_members(t, pred);
        assert forall|i: int| 0 <= i < s.filter(pred).len() implies exists|k: int|
            0 <= k < s.len() && s[k] == #[trigger] s.filter(pred)[i] by {
            if i < t.filter(pred).len() {
                let k = choose|k: int| 0 <= k < t.len() && t[k] == t.filter(pred)[i];
                assert(s[k] == s.filter(pred)[i]);
            } else {
                assert(s[s.len() - 1] == s.filter(pred)[i]);
            }
        }
    }
}

/// A sequence with an element the predicate rejects strictly shrinks under
/// filtering.
pub proof fn lemma_filter_skips_len<A>(s: Seq<A>, pred: spec_fn(A) -> bool, i: int)
    requires
        0 <= i < s.len(),
        !pred(s[i]),
    ensures
        s.filter(pred).len() < s.len(),
    decreases s.len(),
{
    reveal(Seq::filter);
    broadcast use vstd::seq_lib::group_filter_ensures;

    let t = s.drop_last();
    if i == s.len() - 1 {
        assert(t.filter(pred).len() <= t.len());
    } else {
        lemma_filter_skips_len(t, pred, i);
    }
}

/// A predicate stronger on the elements of `s` never keeps more of them
/// than a weaker one.
pub proof fn lemma_filter_stronger_len<A>(s: Seq<A>, p: spec_fn(A) -> bool, q: spec_fn(A) -> bool)
    requires
        forall|i: int| 0 <= i < s.len() && p(#[trigger] s[i]) ==> q(s[i]),
    ensures
        s.filter(p).len() <= s.filter(q).len(),
    decreases s.len(),
{
    reveal(Seq::filter);
    if s.len() > 0 {
        lemma_filter_stronger_len(s.drop_last(), p, q);
    }
}

/// A predicate that rejects every element filters a sequence to nothing.
pub proof fn lemma_filter_none<A>(s: Seq<A>, pred: spec_fn(A) -> bool)
    requires
        forall|i: int| 0 <= i < s.len() ==> !pred(#[trigger] s[i]),
    ensures
        s.filter(pred).len() == 0,
    decreases s.len(),
{
    reveal(Seq::filter);
    if s.len() > 0 {
        lemma_filter_none(s.drop_last(), pred);
    }
}

/// A predicate that two different positions never satisfy together keeps at
/// most one element.
pub proof fn lemma_filter_at_most_one<A>(s: Seq<A>, pred: spec_fn(A) -> bool)
    requires
        forall|i: int, j: int|
            0 <= i < j < s.len() ==> !(pred(#[trigger] s[i]) && pred(#[trigger] s[j])),
    ensures
        s.filter(pred).len() <= 1,
    decreases s.len(),
{
    reveal(Seq::filter);
    if s.len() > 0 {
        let t = s.drop_last();
        if pred(s.last()) {
            lemma_filter_none(t, pred);
        } else {
            lemma_filter_at_most_one(t, pred);
        }
    }
}

} // verus!
