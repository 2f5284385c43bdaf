//! Guess and secret words: fixed-length immutable letter sequences.

use vstd::prelude::*;
use vstd::string::StrSliceExecFns;

verus! {

/// Number of letters in every guess and every secret word.
pub const WORD_LENGTH: usize = 5;

/// A guess or candidate secret word.
///
/// A word is well-formed ([`Word::wf`]) when it holds exactly
/// [`WORD_LENGTH`] letters; callers are responsible for validating the
/// length before construction. Words are immutable after construction and
/// compare by their letters.
#[derive(Debug)]
pub struct Word {
    pub data: String,
}

impl View for Word {
    type V = Seq<char>;

    open spec fn view(&self) -> Seq<char> {
        self.data@
    }
}

impl DeepView for Word {
    type V = Seq<char>;

    open spec fn deep_view(&self) -> Seq<char> {
        self.data@
    }
}

impl Word {
    /// A word is usable as a guess or secret only at the fixed length.
    pub open spec fn wf(&self) -> bool {
        self@.len() == WORD_LENGTH
    }

    /// Builds a word from a string of exactly [`WORD_LENGTH`] letters.
    pub fn new(word_string: &str) -> (w: Word)
        requires
            word_string@.len() == WORD_LENGTH,
        ensures
            w@ == word_string@,
            w.wf(),
    {
        Word { data: word_string.to_owned() }
    }

    /// The letter at position `i`.
    pub fn letter(&self, i: usize) -> (c: char)
        requires
            self.wf(),
            i < WORD_LENGTH,
        ensures
            c == self@[i as int],
    {
        self.data.as_str().get_char(i)
    }
}

impl Clone for Word {
    fn clone(&self) -> (w: Word)
        ensures
            w == *self,
    {
        Word { data: self.data.clone() }
    }
}

impl PartialEq for Word {
    fn eq(&self, other: &Word) -> bool {
        self.data == other.data
    }
}

impl vstd::std_specs::cmp::PartialEqSpecImpl for Word {
    open spec fn obeys_eq_spec() -> bool {
        true
    }

    open spec fn eq_spec(&self, other: &Word) -> bool {
        self@ == other@
    }
}

/// Every word of the sequence is well-formed.
pub open spec fn all_wf(ws: Seq<Word>) -> bool {
    forall|i: int| 0 <= i < ws.len() ==> (#[trigger] ws[i]).wf()
}

/// No two words of the sequence spell the same letters.
pub open spec fn distinct_views(ws: Seq<Word>) -> bool {
    forall|i: int, j: int| 0 <= i < j < ws.len() ==> ws[i]@ != ws[j]@
}

/// Some word of `bank` spells the same letters as `w`.
pub open spec fn in_bank(w: Word, bank: Seq<Word>) -> bool {
    exists|i: int| 0 <= i < bank.len() && (#[trigger] bank[i])@ == w@
}

/// Every word of `ws` is spelled by some word of `bank`.
pub open spec fn views_within(ws: Seq<Word>, bank: Seq<Word>) -> bool {
    forall|k: int| 0 <= k < ws.len() ==> in_bank(#[trigger] ws[k], bank)
}

/// Copies a word bank; the copy holds the very same word values.
pub fn clone_words(ws: &Vec<Word>) -> (r: Vec<Word>)
    ensures
        r@ == ws@,
{
    let r = ws.clone();
    proof {
        assert(r@ =~= ws@);
    }
    r
}

} // verus!
