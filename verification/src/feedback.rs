//! Feedback computation: the per-position marks a guess earns against a
//! secret, with Wordle's exact duplicate-letter policy.
//!
//! A position is marked [`Color::GREEN`] when the guessed letter stands at
//! the same position in the secret. Among the remaining positions of one
//! letter, the earliest ones are marked [`Color::YELLOW`], as many as the
//! secret has unmatched copies of that letter; every other position stays
//! [`Color::GRAY`].

use vstd::prelude::*;

use crate::word::{Word, WORD_LENGTH};

verus! {

/// The mark a single letter position earns.
#[derive(PartialEq, Eq, Structural, Clone, Copy, Debug, Hash)]
pub enum Color {
    GRAY,
    YELLOW,
    GREEN,
}

/// Feedback for one guess: a mark for each letter position.
///
/// Two filters are equal exactly when every position carries the same mark.
/// The base-3 value of [`Filter::to_value`] orders filters canonically for
/// deterministic enumeration.
#[derive(Clone, Copy, Debug, Hash)]
pub struct Filter {
    pub colors: [Color; WORD_LENGTH],
}

/// How many of the first `n` letters of `s` equal `c`.
pub open spec fn count_eq_upto(s: Seq<char>, c: char, n: int) -> int
    decreases n,
{
    if n <= 0 {
        0
    } else {
        count_eq_upto(s, c, n - 1) + if s[n - 1] == c {
            1int
        } else {
            0int
        }
    }
}

/// How many of the first `n` positions guess the letter `c` at the very
/// place the secret has it.
pub open spec fn count_green_upto(q: Seq<char>, s: Seq<char>, c: char, n: int) -> int
    decreases n,
{
    if n <= 0 {
        0
    } else {
        count_green_upto(q, s, c, n - 1) + if q[n - 1] == c && s[n - 1] == c {
            1int
        } else {
            0int
        }
    }
}

/// How many of the first `n` positions guess the letter `c` away from any
/// place the secret has it: the candidates for a yellow mark.
pub open spec fn count_misplaced_upto(q: Seq<char>, s: Seq<char>, c: char, n: int) -> int
    decreases n,
{
    if n <= 0 {
        0
    } else {
        count_misplaced_upto(q, s, c, n - 1) + if q[n - 1] == c && s[n - 1] != c {
            1int
        } else {
            0int
        }
    }
}

/// The mark position `i` earns when `q` is guessed against secret `s`.
///
/// A position is green when guess and secret agree there. Otherwise it is
/// yellow exactly when the earlier misplaced copies of its letter have not
/// yet used up the secret's unmatched copies of that letter — so the
/// earliest misplaced occurrences win ties over later duplicates.
pub open spec fn mark_at(q: Seq<char>, s: Seq<char>, i: int) -> Color {
    let c = q[i];
    if s[i] == c {
        Color::GREEN
    } else if count_misplaced_upto(q, s, c, i) + count_green_upto(q, s, c, WORD_LENGTH as int)
        < count_eq_upto(s, c, WORD_LENGTH as int) {
        Color::YELLOW
    } else {
        Color::GRAY
    }
}

/// The full feedback for guess `q` against secret `s`.
pub open spec fn feedback_marks(q: Seq<char>, s: Seq<char>) -> Seq<Color> {
    Seq::new(WORD_LENGTH as nat, |i: int| mark_at(q, s, i))
}

/// Every position is marked green.
pub open spec fn is_all_green(m: Seq<Color>) -> bool {
    forall|i: int| 0 <= i < m.len() ==> m[i] == Color::GREEN
}

/// Numeric weight of one mark, the digit of the canonical base-3 value.
pub open spec fn color_weight(c: Color) -> int {
    match c {
        Color::GRAY => 0,
        Color::YELLOW => 1,
        Color::GREEN => 2,
    }
}

/// Canonical base-3 value of a feedback, most significant digit first.
pub open spec fn filter_value(m: Seq<Color>) -> int
    recommends
        m.len() == WORD_LENGTH,
{
    81 * color_weight(m[0]) + 27 * color_weight(m[1]) + 9 * color_weight(m[2]) + 3 * color_weight(
        m[3],
    ) + color_weight(m[4])
}

/// Canonical value of the feedback guess `q` earns against secret `s`.
pub open spec fn feedback_value(q: Seq<char>, s: Seq<char>) -> int {
    filter_value(feedback_marks(q, s))
}

/// Number of distinct feedbacks: one for each assignment of three marks to
/// each of the five positions.
pub const FEEDBACK_COUNT: usize = 243;

/// The canonical value of any feedback lies below [`FEEDBACK_COUNT`].
pub proof fn lemma_filter_value_bounds(m: Seq<Color>)
    ensures
        0 <= filter_value(m) < FEEDBACK_COUNT as int,
{
}

/// The value of the all-green feedback, the largest canonical value.
pub proof fn lemma_value_of_all_green(m: Seq<Color>)
    requires
        m.len() == WORD_LENGTH,
    ensures
        filter_value(m) == FEEDBACK_COUNT - 1 <==> is_all_green(m),
{
    if filter_value(m) == FEEDBACK_COUNT - 1 {
        assert forall|i: int| 0 <= i < m.len() implies m[i] == Color::GREEN by {
            assert(color_weight(m[i]) == 2);
        }
    }
}

/// Positions guessing the letter `c` are exactly the green and the
/// misplaced ones.
proof fn lemma_guess_positions_split(q: Seq<char>, s: Seq<char>, c: char, n: int)
    ensures
        count_eq_upto(q, c, n) == count_green_upto(q, s, c, n) + count_misplaced_upto(q, s, c, n),
    decreases n,
{
    if n > 0 {
        lemma_guess_positions_split(q, s, c, n - 1);
    }
}

/// The count of misplaced positions grows along the word, by one at each
/// misplaced position.
proof fn lemma_misplaced_monotone(q: Seq<char>, s: Seq<char>, c: char, a: int, b: int)
    requires
        a <= b,
    ensures
        count_misplaced_upto(q, s, c, a) <= count_misplaced_upto(q, s, c, b),
    decreases b - a,
{
    if a < b {
        lemma_misplaced_monotone(q, s, c, a, b - 1);
    }
}

/// The yellow rule in the game's counting form: a position that guesses
/// letter `c` away from its place is yellow exactly when the earlier
/// misplaced copies of `c` number fewer than the smaller of the guessed and
/// secret copies of `c`, minus the green copies — so at most that many
/// yellows are given, earliest first.
pub proof fn lemma_yellow_rule_min_form(q: Seq<char>, s: Seq<char>, i: int)
    requires
        q.len() == WORD_LENGTH,
        s.len() == WORD_LENGTH,
        0 <= i < WORD_LENGTH,
        q[i] != s[i],
    ensures
        mark_at(q, s, i) == Color::YELLOW <==> count_misplaced_upto(q, s, q[i], i)
            < vstd::math::min(
            count_eq_upto(q, q[i], WORD_LENGTH as int),
            count_eq_upto(s, q[i], WORD_LENGTH as int),
        ) - count_green_upto(q, s, q[i], WORD_LENGTH as int),
{
    let c = q[i];
    let len = WORD_LENGTH as int;
    lemma_guess_positions_split(q, s, c, len);
    lemma_misplaced_monotone(q, s, c, i + 1, len);
    assert(count_misplaced_upto(q, s, c, i + 1) == count_misplaced_upto(q, s, c, i) + 1);
}

/// Law: a word guessed against itself is marked all-correct.
pub proof fn lemma_feedback_identity(w: Seq<char>)
    ensures
        is_all_green(feedback_marks(w, w)),
{
}

/// A guess earns the all-green feedback from exactly one secret: itself.
pub proof fn lemma_all_green_iff_same(q: Seq<char>, s: Seq<char>)
    requires
        q.len() == WORD_LENGTH,
        s.len() == WORD_LENGTH,
    ensures
        is_all_green(feedback_marks(q, s)) <==> q == s,
{
    if is_all_green(feedback_marks(q, s)) {
        assert forall|i: int| 0 <= i < WORD_LENGTH implies q[i] == s[i] by {
            assert(feedback_marks(q, s)[i] == Color::GREEN);
        }
        assert(q =~= s);
    } else if q == s {
        lemma_feedback_identity(q);
    }
}

impl Filter {
    /// The blank feedback: every position gray.
    pub fn new() -> (f: Filter)
        ensures
            f.colors@ =~= Seq::new(WORD_LENGTH as nat, |i: int| Color::GRAY),
    {
        Filter { colors: [Color::GRAY, Color::GRAY, Color::GRAY, Color::GRAY, Color::GRAY] }
    }

    /// Whether every mark is green, i.e. the guess found the secret.
    pub fn is_green(&self) -> (r: bool)
        ensures
            r == is_all_green(self.colors@),
    {
        let mut i: usize = 0;
        while i < WORD_LENGTH
            invariant
                i <= WORD_LENGTH,
                forall|j: int| 0 <= j < i ==> self.colors@[j] == Color::GREEN,
            decreases WORD_LENGTH - i,
        {
            if self.colors[i] != Color::GREEN {
                return false;
            }
            i += 1;
        }
        true
    }

    /// The canonical base-3 value of this feedback, used to order feedbacks
    /// deterministically.
    pub fn to_value(&self) -> (v: u8)
        ensures
            v as int == filter_value(self.colors@),
    {
        let w0 = color_weight_exec(self.colors[0]);
        let w1 = color_weight_exec(self.colors[1]);
        let w2 = color_weight_exec(self.colors[2]);
        let w3 = color_weight_exec(self.colors[3]);
        let w4 = color_weight_exec(self.colors[4]);
        81 * w0 + 27 * w1 + 9 * w2 + 3 * w3 + w4
    }
}

impl PartialEq for Filter {
    fn eq(&self, other: &Filter) -> (r: bool) {
        let r = self.colors[0] == other.colors[0] && self.colors[1] == other.colors[1]
            && self.colors[2] == other.colors[2] && self.colors[3] == other.colors[3]
            && self.colors[4] == other.colors[4];
        proof {
            if r {
                assert(self.colors@ =~= other.colors@);
            }
        }
        r
    }
}

impl vstd::std_specs::cmp::PartialEqSpecImpl for Filter {
    open spec fn obeys_eq_spec() -> bool {
        true
    }

    open spec fn eq_spec(&self, other: &Filter) -> bool {
        self.colors@ == other.colors@
    }
}

/// Numeric weight of one mark.
fn color_weight_exec(c: Color) -> (w: u8)
    ensures
        w as int == color_weight(c),
{
    match c {
        Color::GRAY => 0,
        Color::YELLOW => 1,
        Color::GREEN => 2,
    }
}

/// The mark whose weight is the given base-3 digit; out-of-range digits
/// read as green.
pub open spec fn color_of_digit(d: int) -> Color {
    if d == 0 {
        Color::GRAY
    } else if d == 1 {
        Color::YELLOW
    } else {
        Color::GREEN
    }
}

/// The mark sequence whose canonical value is `v`: its base-3 digits, most
/// significant first.
pub open spec fn marks_of_value(v: int) -> Seq<Color> {
    let d0 = v / 81;
    let r0 = v % 81;
    let d1 = r0 / 27;
    let r1 = r0 % 27;
    let d2 = r1 / 9;
    let r2 = r1 % 9;
    let d3 = r2 / 3;
    let d4 = r2 % 3;
    seq![
        color_of_digit(d0),
        color_of_digit(d1),
        color_of_digit(d2),
        color_of_digit(d3),
        color_of_digit(d4),
    ]
}

/// Rebuilds the feedback with the given canonical value.
pub fn filter_from_value(v: u8) -> (f: Filter)
    requires
        v < FEEDBACK_COUNT,
    ensures
        f.colors@ == marks_of_value(v as int),
        filter_value(f.colors@) == v as int,
{
    let d0 = v / 81;
    let r0 = v % 81;
    let d1 = r0 / 27;
    let r1 = r0 % 27;
    let d2 = r1 / 9;
    let r2 = r1 % 9;
    let d3 = r2 / 3;
    let d4 = r2 % 3;
    let f = Filter {
        colors: [
            color_of_weight(d0),
            color_of_weight(d1),
            color_of_weight(d2),
            color_of_weight(d3),
            color_of_weight(d4),
        ],
    };
    proof {
        assert(f.colors@ =~= marks_of_value(v as int));
    }
    f
}

/// The mark whose weight is the given base-3 digit.
fn color_of_weight(d: u8) -> (c: Color)
    requires
        d < 3,
    ensures
        color_weight(c) == d as int,
        c == color_of_digit(d as int),
{
    if d == 0 {
        Color::GRAY
    } else if d == 1 {
        Color::YELLOW
    } else {
        Color::GREEN
    }
}

/// How many of the first `n` letters of `secret` equal `c`.
fn count_letter(secret: &Word, c: char) -> (r: usize)
    requires
        secret.wf(),
    ensures
        r as int == count_eq_upto(secret@, c, WORD_LENGTH as int),
        r <= WORD_LENGTH,
{
    let mut r: usize = 0;
    let mut j: usize = 0;
    while j < WORD_LENGTH
        invariant
            secret.wf(),
            j <= WORD_LENGTH,
            r as int == count_eq_upto(secret@, c, j as int),
            r <= j,
        decreases WORD_LENGTH - j,
    {
        if secret.letter(j) == c {
            r += 1;
        }
        j += 1;
    }
    r
}

/// How many positions guess the letter `c` at the very place the secret has
/// it.
fn count_green(query: &Word, secret: &Word, c: char) -> (r: usize)
    requires
        query.wf(),
        secret.wf(),
    ensures
        r as int == count_green_upto(query@, secret@, c, WORD_LENGTH as int),
        r <= WORD_LENGTH,
{
    let mut r: usize = 0;
    let mut j: usize = 0;
    while j < WORD_LENGTH
        invariant
            query.wf(),
            secret.wf(),
            j <= WORD_LENGTH,
            r as int == count_green_upto(query@, secret@, c, j as int),
            r <= j,
        decreases WORD_LENGTH - j,
    {
        if query.letter(j) == c && secret.letter(j) == c {
            r += 1;
        }
        j += 1;
    }
    r
}

/// How many of the first `n` positions guess the letter `c` away from any
/// place the secret has it.
fn count_misplaced(query: &Word, secret: &Word, c: char, n: usize) -> (r: usize)
    requires
        query.wf(),
        secret.wf(),
        n <= WORD_LENGTH,
    ensures
        r as int == count_misplaced_upto(query@, secret@, c, n as int),
        r <= n,
{
    let mut r: usize = 0;
    let mut j: usize = 0;
    while j < n
        invariant
            query.wf(),
            secret.wf(),
            n <= WORD_LENGTH,
            j <= n,
            r as int == count_misplaced_upto(query@, secret@, c, j as int),
            r <= j,
        decreases n - j,
    {
        if query.letter(j) == c && secret.letter(j) != c {
            r += 1;
        }
        j += 1;
    }
    r
}

/// Computes the feedback `query` earns against `secret`, handling duplicate
/// letters by Wordle's green-first, earliest-yellow-wins policy.
pub fn compute_filter(query: &Word, secret: &Word) -> (f: Filter)
    requires
        query.wf(),
        secret.wf(),
    ensures
        f.colors@ == feedback_marks(query@, secret@),
{
    let mut f = Filter::new();
    let mut i: usize = 0;
    while i < WORD_LENGTH
        invariant
            query.wf(),
            secret.wf(),
            i <= WORD_LENGTH,
            f.colors@.len() == WORD_LENGTH,
            forall|j: int| 0 <= j < i ==> f.colors@[j] == mark_at(query@, secret@, j),
            forall|j: int| i <= j < WORD_LENGTH ==> f.colors@[j] == Color::GRAY,
        decreases WORD_LENGTH - i,
    {
        let c = query.letter(i);
        if secret.letter(i) == c {
            f.colors[i] = Color::GREEN;
        } else {
            let in_secret = count_letter(secret, c);
            let greens = count_green(query, secret, c);
            let misplaced_before = count_misplaced(query, secret, c, i);
            if misplaced_before + greens < in_secret {
                f.colors[i] = Color::YELLOW;
            }
        }
        i += 1;
    }
    proof {
        assert(f.colors@ =~= feedback_marks(query@, secret@));
    }
    f
}

} // verus!
