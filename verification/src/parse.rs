//! Validation of externally supplied feedback: one case-insensitive label
//! per letter position, each naming one of the three marks.

use vstd::prelude::*;
use vstd::string::StrSliceExecFns;

use crate::feedback::{Color, Filter};
use crate::word::WORD_LENGTH;

verus! {

/// Why a feedback answer was rejected. Both conditions are recoverable:
/// the solving loop asks its feedback source again without consuming a
/// guess.
#[derive(PartialEq, Eq, Structural, Clone, Copy, Debug)]
pub enum FeedbackParseError {
    /// The answer does not hold exactly one label per letter position.
    WrongTokenCount,
    /// Some token is none of the three mark labels.
    UnrecognizedLabel,
}

/// Lower-cases the letters that can occur in a mark label; every other
/// character stands unchanged.
pub open spec fn lower_label_char(c: char) -> char {
    if c == 'G' {
        'g'
    } else if c == 'R' {
        'r'
    } else if c == 'A' {
        'a'
    } else if c == 'Y' {
        'y'
    } else if c == 'E' {
        'e'
    } else if c == 'L' {
        'l'
    } else if c == 'O' {
        'o'
    } else if c == 'W' {
        'w'
    } else if c == 'N' {
        'n'
    } else {
        c
    }
}

/// The label with its letters lower-cased.
pub open spec fn lower_label(s: Seq<char>) -> Seq<char> {
    s.map_values(|c: char| lower_label_char(c))
}

/// The mark a label names, compared case-insensitively; `None` for an
/// unrecognized label.
pub open spec fn spec_parse_color(s: Seq<char>) -> Option<Color> {
    if lower_label(s) == seq!['g', 'r', 'a', 'y'] {
        Some(Color::GRAY)
    } else if lower_label(s) == seq!['y', 'e', 'l', 'l', 'o', 'w'] {
        Some(Color::YELLOW)
    } else if lower_label(s) == seq!['g', 'r', 'e', 'e', 'n'] {
        Some(Color::GREEN)
    } else {
        None
    }
}

fn lower_label_char_exec(c: char) -> (r: char)
    ensures
        r == lower_label_char(c),
{
    if c == 'G' {
        'g'
    } else if c == 'R' {
        'r'
    } else if c == 'A' {
        'a'
    } else if c == 'Y' {
        'y'
    } else if c == 'E' {
        'e'
    } else if c == 'L' {
        'l'
    } else if c == 'O' {
        'o'
    } else if c == 'W' {
        'w'
    } else if c == 'N' {
        'n'
    } else {
        c
    }
}

/// Parses one mark label, case-insensitively.
pub fn parse_color_label(token: &str) -> (r: Option<Color>)
    ensures
        r == spec_parse_color(token@),
{
    let n = token.unicode_len();
    if n == 4 {
        let c0 = lower_label_char_exec(token.get_char(0));
        let c1 = lower_label_char_exec(token.get_char(1));
        let c2 = lower_label_char_exec(token.get_char(2));
        let c3 = lower_label_char_exec(token.get_char(3));
        proof {
            let lowered = lower_label(token@);
            assert(lowered.len() == 4);
            assert(lowered[0] == c0 && lowered[1] == c1 && lowered[2] == c2 && lowered[3] == c3);
        }
        if c0 == 'g' && c1 == 'r' && c2 == 'a' && c3 == 'y' {
            proof {
                assert(lower_label(token@) =~= seq!['g', 'r', 'a', 'y']);
            }
            Some(Color::GRAY)
        } else {
            None
        }
    } else if n == 5 {
        let c0 = lower_label_char_exec(token.get_char(0));
        let c1 = lower_label_char_exec(token.get_char(1));
        let c2 = lower_label_char_exec(token.get_char(2));
        let c3 = lower_label_char_exec(token.get_char(3));
        let c4 = lower_label_char_exec(token.get_char(4));
        proof {
            let lowered = lower_label(token@);
            assert(lowered.len() == 5);
            assert(lowered[0] == c0 && lowered[1] == c1 && lowered[2] == c2 && lowered[3] == c3
                && lowered[4] == c4);
        }
        if c0 == 'g' && c1 == 'r' && c2 == 'e' && c3 == 'e' && c4 == 'n' {
            proof {
                assert(lower_label(token@) =~= seq!['g', 'r', 'e', 'e', 'n']);
            }
            Some(Color::GREEN)
        } else {
            None
        }
    } else if n == 6 {
        let c0 = lower_label_char_exec(token.get_char(0));
        let c1 = lower_label_char_exec(token.get_char(1));
        let c2 = lower_label_char_exec(token.get_char(2));
        let c3 = lower_label_char_exec(token.get_char(3));
        let c4 = lower_label_char_exec(token.get_char(4));
        let c5 = lower_label_char_exec(token.get_char(5));
        proof {
            let lowered = lower_label(token@);
            assert(lowered.len() == 6);
            assert(lowered[0] == c0 && lowered[1] == c1 && lowered[2] == c2 && lowered[3] == c3
                && lowered[4] == c4 && lowered[5] == c5);
        }
        if c0 == 'y' && c1 == 'e' && c2 == 'l' && c3 == 'l' && c4 == 'o' && c5 == 'w' {
            proof {
                assert(lower_label(token@) =~= seq!['y', 'e', 'l', 'l', 'o', 'w']);
            }
            Some(Color::YELLOW)
        } else {
            None
        }
    } else {
        proof {
            assert(lower_label(token@).len() == token@.len());
        }
        None
    }
}

/// The letters of each token.
pub open spec fn token_views(tokens: Seq<String>) -> Seq<Seq<char>> {
    tokens.map_values(|t: String| t@)
}

/// The marks a feedback answer encodes, or why it is rejected: an answer is
/// accepted exactly when it holds one recognized label per letter position.
pub open spec fn spec_parse_filter(tokens: Seq<Seq<char>>) -> Result<Seq<Color>, FeedbackParseError> {
    if tokens.len() != WORD_LENGTH {
        Err(FeedbackParseError::WrongTokenCount)
    } else if exists|i: int|
        0 <= i < tokens.len() && spec_parse_color(#[trigger] tokens[i]) is None {
        Err(FeedbackParseError::UnrecognizedLabel)
    } else {
        Ok(
            Seq::new(
                WORD_LENGTH as nat,
                |i: int|
                    match spec_parse_color(tokens[i]) {
                        Some(c) => c,
                        None => Color::GRAY,
                    },
            ),
        )
    }
}

/// Parses a feedback answer of whitespace-split tokens into a filter,
/// rejecting a wrong token count or an unrecognized label.
pub fn parse_filter_labels(tokens: &Vec<String>) -> (r: Result<Filter, FeedbackParseError>)
    ensures
        r matches Ok(f) ==> spec_parse_filter(token_views(tokens@)) == Ok::<
            Seq<Color>,
            FeedbackParseError,
        >(f.colors@),
        r matches Err(e) ==> spec_parse_filter(token_views(tokens@)) == Err::<
            Seq<Color>,
            FeedbackParseError,
        >(e),
{
    let ghost tv = token_views(tokens@);
    if tokens.len() != WORD_LENGTH {
        return Err(FeedbackParseError::WrongTokenCount);
    }
    let mut filter = Filter::new();
    let mut i: usize = 0;
    while i < WORD_LENGTH
        invariant
            tv == token_views(tokens@),
            tv.len() == WORD_LENGTH,
            i <= WORD_LENGTH,
            filter.colors@.len() == WORD_LENGTH,
            forall|j: int|
                0 <= j < i ==> spec_parse_color(#[trigger] tv[j]) == Some(filter.colors@[j]),
        decreases WORD_LENGTH - i,
    {
        match parse_color_label(tokens[i].as_str()) {
            Some(c) => {
                filter.colors[i] = c;
            },
            None => {
                proof {
                    assert(spec_parse_color(tv[i as int]) is None);
                }
                return Err(FeedbackParseError::UnrecognizedLabel);
            },
        }
        i += 1;
    }
    proof {
        assert(forall|j: int| 0 <= j < tv.len() ==> !(spec_parse_color(#[trigger] tv[j]) is None));
        let expected = match spec_parse_filter(tv) {
            Ok(m) => m,
            Err(_) => Seq::empty(),
        };
        assert(filter.colors@ =~= expected);
    }
    Ok(filter)
}

} // verus!
