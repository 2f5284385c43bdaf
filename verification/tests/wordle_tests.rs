use wordle::feedback::{compute_filter, filter_from_value, Color, Filter};
use wordle::game::{play_round, simulate_play, GameOutcome, RoundStep};
use wordle::parse::{parse_color_label, parse_filter_labels, FeedbackParseError};
use wordle::partition::{
    compute_filters_to_secret_candidates_for_query, compute_hashmap_cost, compute_query_cost,
    filter_secret_candidates,
};
use wordle::selector::{compute_best_query, compute_best_query_and_hashmap};
use wordle::tree::{build_decision_tree, TraceItem};
use wordle::word::Word;

fn test_compute_filter_helper(query: &str, secret: &str) -> [Color; 5] {
    compute_filter(&Word::new(&query), &Word::new(&secret)).colors
}

fn words(entries: &[&str]) -> Vec<Word> {
    let mut bank: Vec<Word> = Vec::new();
    for entry in entries {
        bank.push(Word::new(entry));
    }
    bank
}

#[test]
fn test_compute_filter() {
    assert_eq!(
        test_compute_filter_helper("oooll", "llool"),
        [Color::YELLOW, Color::GRAY, Color::GREEN, Color::YELLOW, Color::GREEN]
    );
    assert_eq!(
        test_compute_filter_helper("alaap", "pause"),
        [Color::YELLOW, Color::GRAY, Color::GRAY, Color::GRAY, Color::YELLOW]
    );
    assert_eq!(
        test_compute_filter_helper("bench", "bench"),
        [Color::GREEN, Color::GREEN, Color::GREEN, Color::GREEN, Color::GREEN]
    );
}

#[test]
fn test_feedback_identity_is_all_green() {
    for w in ["crane", "llool", "zzzzz", "aabba"] {
        let word = Word::new(w);
        assert!(compute_filter(&word, &word).is_green());
    }
}

#[test]
fn test_filter_value_and_order() {
    // all-gray feedback has the least value, all-green the greatest
    assert_eq!(compute_filter(&Word::new("qrstu"), &Word::new("abcde")).to_value(), 0);
    assert_eq!(compute_filter(&Word::new("bench"), &Word::new("bench")).to_value(), 242);
    // [YELLOW, GRAY, GREEN, YELLOW, GREEN] = 1*81 + 0*27 + 2*9 + 1*3 + 2
    assert_eq!(compute_filter(&Word::new("oooll"), &Word::new("llool")).to_value(), 104);
}

#[test]
fn test_filter_from_value_round_trip() {
    for v in [0u8, 1, 104, 240, 242] {
        assert_eq!(filter_from_value(v).to_value(), v);
    }
}

#[test]
fn test_word_construction_and_equality() {
    let w = Word::new("crane");
    assert_eq!(w.data, "crane");
    assert_eq!(w.letter(0), 'c');
    assert_eq!(w.letter(4), 'e');
    assert!(w == Word::new("crane"));
    assert!(w != Word::new("crate"));
}

#[test]
fn test_partition_coverage() {
    // every candidate lands in exactly one bucket: sizes sum to the input
    // count, and each member reproduces its bucket's feedback value
    let query = Word::new("crane");
    let candidates = words(&["crane", "slate", "crate", "bench", "ooooo"]);
    let partition = compute_filters_to_secret_candidates_for_query(&query, &candidates);
    assert_eq!(partition.buckets.len(), 243);
    let mut total = 0;
    for (value, bucket) in partition.buckets.iter().enumerate() {
        total += bucket.len();
        for member in bucket {
            assert_eq!(compute_filter(&query, member).to_value() as usize, value);
        }
    }
    assert_eq!(total, candidates.len());
}

#[test]
fn test_query_cost_bounds() {
    // a guess sharing no letter with any candidate leaves one bucket of all
    // of them: the worst case
    let candidates = words(&["abcde", "abcdf", "bacde", "edcba"]);
    let (cost, _) = compute_query_cost(&Word::new("zzzzz"), &candidates);
    assert_eq!(cost, 4);
    // a guess that is itself a candidate splits off its own all-green bucket
    let (cost, _) = compute_query_cost(&Word::new("abcde"), &candidates);
    assert!(cost <= candidates.len() as u32);
    assert!(243 * cost >= candidates.len() as u32);
    assert_eq!(cost, 1);
}

#[test]
fn test_compute_hashmap_cost_matches_largest_bucket() {
    let query = Word::new("zzzzz");
    let candidates = words(&["abcde", "abcdf", "qrstu"]);
    let partition = compute_filters_to_secret_candidates_for_query(&query, &candidates);
    assert_eq!(compute_hashmap_cost(&partition), 3);
}

#[test]
fn test_filter_secret_candidates_keeps_matching_words() {
    let query = Word::new("aaaaa");
    let candidates = words(&["aabbb", "aaccc", "bbbaa"]);
    // "aaaaa" against "aabbb" marks the two leading letters green
    let filter = compute_filter(&query, &Word::new("aabbb"));
    let surviving = filter_secret_candidates(&query, &filter, &candidates);
    assert_eq!(surviving, words(&["aabbb", "aaccc"]));
}

#[test]
fn test_filter_secret_candidates_empty_when_nothing_matches() {
    let query = Word::new("abcde");
    let filter = compute_filter(&query, &Word::new("abcdf"));
    let surviving = filter_secret_candidates(&query, &filter, &words(&["qrstu"]));
    assert!(surviving.is_empty());
}

#[test]
fn test_compute_best_query_prefers_splitting_guess() {
    // "zzzzz" cannot split the candidates (cost 2); "abcde" can (cost 1)
    let word_bank = words(&["zzzzz", "abcde"]);
    let candidates = words(&["abcde", "abcdf"]);
    assert_eq!(compute_best_query(&word_bank, &candidates), Word::new("abcde"));
}

#[test]
fn test_compute_best_query_first_wins_ties() {
    let word_bank = words(&["zzzzz", "yyyyy"]);
    let candidates = words(&["abcde", "abcdf"]);
    // both guesses leave one bucket of two candidates: the first is kept
    assert_eq!(compute_best_query(&word_bank, &candidates), Word::new("zzzzz"));
}

#[test]
fn test_selector_determinism() {
    let word_bank = words(&["zzzzz", "abcde", "qrstu"]);
    let candidates = words(&["abcde", "abcdf", "qrstu"]);
    let first = compute_best_query(&word_bank, &candidates);
    let second = compute_best_query(&word_bank, &candidates);
    assert!(first == second);
    let (again, _) = compute_best_query_and_hashmap(&word_bank, &candidates);
    assert!(again == first);
}

#[test]
fn test_play_round_all_green_solves() {
    let query = Word::new("abcde");
    let filter = compute_filter(&query, &query);
    let candidates = words(&["abcde", "abcdf"]);
    match play_round(&query, &filter, &candidates, 2) {
        RoundStep::Solved { word, guesses } => {
            assert_eq!(word.data, "abcde");
            assert_eq!(guesses, 2);
        }
        _ => panic!("expected the round to be solved"),
    }
}

#[test]
fn test_play_round_single_survivor_solves() {
    let query = Word::new("abcde");
    let filter = compute_filter(&query, &Word::new("abcdf"));
    let candidates = words(&["abcde", "abcdf", "qrstu"]);
    match play_round(&query, &filter, &candidates, 1) {
        RoundStep::Solved { word, guesses } => {
            assert_eq!(word.data, "abcdf");
            assert_eq!(guesses, 2);
        }
        _ => panic!("expected the round to be solved"),
    }
}

#[test]
fn test_play_round_continues_with_survivors() {
    let query = Word::new("qrstu");
    let filter = compute_filter(&query, &Word::new("abcde"));
    let candidates = words(&["abcde", "abcdf", "qrstu"]);
    match play_round(&query, &filter, &candidates, 1) {
        RoundStep::Continue { candidates: surviving, guesses } => {
            assert_eq!(surviving, words(&["abcde", "abcdf"]));
            assert_eq!(guesses, 2);
        }
        _ => panic!("expected the round to continue"),
    }
}

#[test]
fn test_play_round_exhausted_when_no_bucket_matches() {
    let query = Word::new("abcde");
    let filter = compute_filter(&query, &Word::new("abcdf"));
    let candidates = words(&["qrstu"]);
    assert!(matches!(play_round(&query, &filter, &candidates, 1), RoundStep::Exhausted));
}

#[test]
fn test_simulate_play_finds_secret_in_bank() {
    let word_bank = words(&["abcde", "abcdf", "qrstu"]);
    let solution_bank = words(&["abcde", "abcdf", "qrstu"]);
    match simulate_play(&word_bank, &solution_bank, &Word::new("qrstu"), &Word::new("abcdf")) {
        GameOutcome::Solved { word, guesses } => {
            assert_eq!(word.data, "abcdf");
            assert_eq!(guesses, 3);
            assert!(guesses as usize <= solution_bank.len() + 1);
        }
        GameOutcome::Exhausted { .. } => panic!("expected the secret to be found"),
    }
}

#[test]
fn test_simulate_play_immediate_hit() {
    let bank = words(&["abcde"]);
    match simulate_play(&bank, &bank, &Word::new("abcde"), &Word::new("abcde")) {
        GameOutcome::Solved { word, guesses } => {
            assert_eq!(word.data, "abcde");
            assert_eq!(guesses, 1);
        }
        GameOutcome::Exhausted { .. } => panic!("expected the secret to be found"),
    }
}

#[test]
fn test_simulate_play_exhausts_on_foreign_secret() {
    let bank = words(&["aaaaa"]);
    match simulate_play(&bank, &bank, &Word::new("aaaaa"), &Word::new("bbbbb")) {
        GameOutcome::Exhausted { guesses } => assert_eq!(guesses, 1),
        GameOutcome::Solved { .. } => panic!("expected exhaustion"),
    }
}

#[test]
fn test_decision_tree_completeness() {
    let word_bank = words(&["abcde", "abcdf", "qrstu"]);
    let solution_bank = words(&["abcde", "abcdf", "qrstu"]);
    let paths = build_decision_tree(&word_bank, &solution_bank, &Word::new("abcde"));
    assert_eq!(paths.len(), solution_bank.len());
    let mut finals: Vec<String> = Vec::new();
    for path in &paths {
        assert!(path.len() >= 3);
        match &path[0] {
            TraceItem::Guess(w) => assert_eq!(w.data, "abcde"),
            TraceItem::Feedback(_) => panic!("paths start with the opening guess"),
        }
        match path.last().unwrap() {
            TraceItem::Guess(w) => finals.push(w.data.clone()),
            TraceItem::Feedback(_) => panic!("paths end in their secret"),
        }
    }
    // buckets are explored in ascending canonical feedback order: the
    // all-gray branch first, the all-green branch last
    assert_eq!(finals, vec!["qrstu", "abcdf", "abcde"]);
}

#[test]
fn test_decision_tree_branch_feedback_values() {
    let word_bank = words(&["abcde", "abcdf", "qrstu"]);
    let solution_bank = words(&["abcde", "abcdf", "qrstu"]);
    let paths = build_decision_tree(&word_bank, &solution_bank, &Word::new("abcde"));
    let mut branch_values: Vec<u8> = Vec::new();
    for path in &paths {
        match &path[1] {
            TraceItem::Feedback(f) => branch_values.push(f.to_value()),
            TraceItem::Guess(_) => panic!("the opening guess is followed by its feedback"),
        }
    }
    assert_eq!(branch_values, vec![0, 240, 242]);
}

#[test]
fn test_decision_tree_deterministic() {
    let word_bank = words(&["abcde", "abcdf", "qrstu"]);
    let solution_bank = words(&["abcde", "abcdf", "qrstu"]);
    let first = build_decision_tree(&word_bank, &solution_bank, &Word::new("abcde"));
    let second = build_decision_tree(&word_bank, &solution_bank, &Word::new("abcde"));
    assert_eq!(first.len(), second.len());
    for (p1, p2) in first.iter().zip(second.iter()) {
        assert_eq!(p1.len(), p2.len());
        for (t1, t2) in p1.iter().zip(p2.iter()) {
            match (t1, t2) {
                (TraceItem::Guess(w1), TraceItem::Guess(w2)) => assert_eq!(w1.data, w2.data),
                (TraceItem::Feedback(f1), TraceItem::Feedback(f2)) => {
                    assert_eq!(f1.to_value(), f2.to_value())
                }
                _ => panic!("token kinds diverge between the two runs"),
            }
        }
    }
}

#[test]
fn test_parse_color_label_case_insensitive() {
    assert_eq!(parse_color_label("gray"), Some(Color::GRAY));
    assert_eq!(parse_color_label("Gray"), Some(Color::GRAY));
    assert_eq!(parse_color_label("YELLOW"), Some(Color::YELLOW));
    assert_eq!(parse_color_label("gReEn"), Some(Color::GREEN));
    assert_eq!(parse_color_label("blue"), None);
    assert_eq!(parse_color_label("grayy"), None);
    assert_eq!(parse_color_label(""), None);
}

#[test]
fn test_parse_filter_labels_accepts_valid_answers() {
    let tokens: Vec<String> =
        ["Gray", "YELLOW", "green", "gray", "Green"].iter().map(|t| t.to_string()).collect();
    let filter: Filter = parse_filter_labels(&tokens).expect("the labels are valid");
    assert_eq!(
        filter.colors,
        [Color::GRAY, Color::YELLOW, Color::GREEN, Color::GRAY, Color::GREEN]
    );
}

#[test]
fn test_parse_filter_labels_rejects_wrong_count() {
    let tokens: Vec<String> = ["gray", "gray", "gray", "gray"].iter().map(|t| t.to_string()).collect();
    assert_eq!(parse_filter_labels(&tokens), Err(FeedbackParseError::WrongTokenCount));
}

#[test]
fn test_parse_filter_labels_rejects_unknown_label() {
    let tokens: Vec<String> =
        ["gray", "gray", "blue", "gray", "gray"].iter().map(|t| t.to_string()).collect();
    assert_eq!(parse_filter_labels(&tokens), Err(FeedbackParseError::UnrecognizedLabel));
}
