use ocr_index::fuzzy::{fuzzy_match, same_char, score_chars, MATCH_BONUS};
use ocr_index::text::chars_of;

#[test]
fn contiguous_match_scores_sixteen_per_character() {
    assert_eq!(MATCH_BONUS, 16);
    assert_eq!(fuzzy_match("cat", "a cat sat"), Some(48));
    assert_eq!(fuzzy_match("cat", "cat"), Some(48));
}

#[test]
fn each_skipped_character_costs_one_point() {
    // c . a . t : two characters are skipped between the first and the last place
    assert_eq!(fuzzy_match("cat", "c a t"), Some(46));
    assert_eq!(fuzzy_match("cat", "c-a---t"), Some(44));
}

#[test]
fn the_tightest_alignment_gives_the_score() {
    // the first c starts a wide alignment, the second a contiguous one
    assert_eq!(fuzzy_match("cat", "c....a....t cat"), Some(48));
    // the alignment that starts last is not always the best
    assert_eq!(fuzzy_match("ab", "axb a......b"), Some(31));
    assert_eq!(fuzzy_match("ab", "a......b axb"), Some(31));
}

#[test]
fn characters_before_and_after_the_match_cost_nothing() {
    assert_eq!(fuzzy_match("cat", "xxxxxxxxxxxxxcatxxxxxxxxx"), Some(48));
}

#[test]
fn no_match_gives_none() {
    assert_eq!(fuzzy_match("cat", "dog"), None);
    assert_eq!(fuzzy_match("cat", "tac"), None);
    assert_eq!(fuzzy_match("cat", "ca"), None);
    assert_eq!(fuzzy_match("cat", ""), None);
    assert_eq!(fuzzy_match("aa", "a"), None);
}

#[test]
fn the_empty_query_matches_everything_with_score_zero() {
    assert_eq!(fuzzy_match("", "anything"), Some(0));
    assert_eq!(fuzzy_match("", ""), Some(0));
}

#[test]
fn ascii_letters_match_without_regard_to_case() {
    assert_eq!(fuzzy_match("CAT", "a cat sat"), Some(48));
    assert_eq!(fuzzy_match("cat", "A CAT SAT"), Some(48));
    assert!(same_char('a', 'A'));
    assert!(same_char('Z', 'z'));
    assert!(!same_char('a', 'b'));
    // '@' stands just before 'A' and '[' just after 'Z': neither is folded
    assert!(!same_char('@', '`'));
    assert!(!same_char('[', '{'));
}

#[test]
fn other_letters_match_only_themselves() {
    assert_eq!(fuzzy_match("é", "café"), Some(16));
    assert_eq!(fuzzy_match("É", "café"), None);
    assert_eq!(fuzzy_match("日本", "日x本語"), Some(31));
    assert_eq!(fuzzy_match("語日", "日本語"), None);
}

#[test]
fn repeated_characters_need_as_many_places() {
    assert_eq!(fuzzy_match("aaa", "aa"), None);
    assert_eq!(fuzzy_match("aaa", "a.a.a"), Some(46));
    assert_eq!(fuzzy_match("aaa", "a.a.aaa"), Some(48));
}

#[test]
fn score_chars_agrees_with_fuzzy_match() {
    let query = chars_of("ocr");
    let text = chars_of("optical character recognition");
    assert_eq!(score_chars(&query, &text), fuzzy_match("ocr", "optical character recognition"));
    // only the first o has a c and an r after it: o at 0, r at 11 at the earliest
    assert_eq!(score_chars(&query, &text), Some(48 - 9));
}

#[test]
fn a_longer_query_scores_higher_on_a_contiguous_match() {
    assert_eq!(fuzzy_match("hello world", "say hello world!"), Some(16 * 11));
}
