use simple_regex::pattern_matching::{match_pattern, match_pattern_here};
use simple_regex::pattern_type::ParseError;

#[test]
fn literal_found() {
    assert_eq!(match_pattern("a", "banana"), Ok(true));
}

#[test]
fn literal_absent() {
    assert_eq!(match_pattern("z", "banana"), Ok(false));
}

#[test]
fn literal_special_like_plus() {
    assert_eq!(match_pattern("+", "a+b"), Ok(true));
    assert_eq!(match_pattern("+", "ab"), Ok(false));
}

#[test]
fn literal_multibyte_codepoint() {
    assert_eq!(match_pattern("é", "café"), Ok(true));
    assert_eq!(match_pattern("é", "cafe"), Ok(false));
}

#[test]
fn digit_found() {
    assert_eq!(match_pattern("\\d", "abc123"), Ok(true));
}

#[test]
fn digit_absent() {
    assert_eq!(match_pattern("\\d", "abc"), Ok(false));
}

#[test]
fn word_char_underscore() {
    assert_eq!(match_pattern("\\w", "--_--"), Ok(true));
}

#[test]
fn word_char_absent() {
    assert_eq!(match_pattern("\\w", "!!! ??"), Ok(false));
}

#[test]
fn word_char_unicode_letter() {
    assert_eq!(match_pattern("\\w", "¿é?"), Ok(true));
}

#[test]
fn char_class_member() {
    assert_eq!(match_pattern("[abc]", "xbz"), Ok(true));
}

#[test]
fn char_class_no_member() {
    assert_eq!(match_pattern("[abc]", "xyz"), Ok(false));
}

#[test]
fn char_class_is_literal_not_range() {
    assert_eq!(match_pattern("[a-z]", "m"), Ok(false));
    assert_eq!(match_pattern("[a-z]", "-"), Ok(true));
}

#[test]
fn empty_char_class_matches_nothing() {
    assert_eq!(match_pattern("[]", "anything"), Ok(false));
}

#[test]
fn neg_class_all_members() {
    assert_eq!(match_pattern("[^abc]", "cab"), Ok(false));
}

#[test]
fn neg_class_outsider() {
    assert_eq!(match_pattern("[^abc]", "cabx"), Ok(true));
}

#[test]
fn start_anchor_at_start() {
    assert_eq!(match_pattern("^log", "log: x"), Ok(true));
}

#[test]
fn start_anchor_not_at_start() {
    assert_eq!(match_pattern("^log", "slog"), Ok(false));
}

#[test]
fn end_anchor_at_end() {
    assert_eq!(match_pattern("dogs$", "there are dogs"), Ok(true));
}

#[test]
fn end_anchor_not_at_end() {
    assert_eq!(match_pattern("dogs$", "dogs are here"), Ok(false));
}

#[test]
fn both_anchors_empty_input() {
    assert_eq!(match_pattern("^$", ""), Ok(true));
    assert_eq!(match_pattern("^$", "x"), Ok(false));
}

#[test]
fn end_anchor_ends_the_pattern() {
    assert_eq!(match_pattern("a$b", "a"), Ok(true));
}

#[test]
fn greedy_plus_backtracks() {
    assert_eq!(match_pattern("ca+t", "caaats"), Ok(true));
}

#[test]
fn plus_needs_one() {
    assert_eq!(match_pattern("ca+t", "ct"), Ok(false));
}

#[test]
fn optional_absent() {
    assert_eq!(match_pattern("colou?r", "color"), Ok(true));
}

#[test]
fn optional_present() {
    assert_eq!(match_pattern("colou?r", "colour"), Ok(true));
}

#[test]
fn optional_at_most_once() {
    assert_eq!(match_pattern("colou?r", "colouur"), Ok(false));
}

#[test]
fn alternation_second_wins() {
    assert_eq!(match_pattern("(cat|dog)", "I have a dog"), Ok(true));
}

#[test]
fn alternation_no_match() {
    assert_eq!(match_pattern("(cat|dog)", "I have a bird"), Ok(false));
}

#[test]
fn alternative_retried_after_continuation_fails() {
    assert_eq!(match_pattern("(cat|ca)ts", "cats"), Ok(true));
}

#[test]
fn repeated_group() {
    assert_eq!(match_pattern("(cat|dog)+", "catdogcat"), Ok(true));
}

#[test]
fn repeated_group_prefix_unanchored() {
    assert_eq!(match_pattern("(cat|dog)+", "catbird"), Ok(true));
}

#[test]
fn repeated_group_anchored_whole_line() {
    assert_eq!(match_pattern("^(cat|dog)+$", "catbird"), Ok(false));
    assert_eq!(match_pattern("^(cat|dog)+$", "catdogcat"), Ok(true));
}

#[test]
fn optional_group() {
    assert_eq!(match_pattern("(ab)?c", "c"), Ok(true));
    assert_eq!(match_pattern("(ab)?c", "abc"), Ok(true));
}

#[test]
fn nested_group_alternation() {
    assert_eq!(match_pattern("(a(b|c)|d)", "xacx"), Ok(true));
    assert_eq!(match_pattern("(a(b|c)|d)", "zdz"), Ok(true));
    assert_eq!(match_pattern("(a(b|c)|d)", "axe"), Ok(false));
}

#[test]
fn nested_bar_does_not_split_outer_group() {
    assert_eq!(match_pattern("(a(b|c)|d)", "a(b"), Ok(false));
}

#[test]
fn zero_width_group_repeat_terminates() {
    assert_eq!(match_pattern("(a?)+", "b"), Ok(true));
    assert_eq!(match_pattern("^(a?)+$", "b"), Ok(false));
}

#[test]
fn empty_alternative() {
    assert_eq!(match_pattern("(a|)x", "x"), Ok(true));
}

#[test]
fn empty_pattern_matches() {
    assert_eq!(match_pattern("", "anything"), Ok(true));
    assert_eq!(match_pattern("", ""), Ok(true));
}

#[test]
fn dot_matches_any_single() {
    assert_eq!(match_pattern(".", "x"), Ok(true));
    assert_eq!(match_pattern(".", ""), Ok(false));
    assert_eq!(match_pattern("a.c", "abc"), Ok(true));
}

#[test]
fn greedy_digits_give_back_one() {
    assert_eq!(match_pattern("^\\d+3$", "123"), Ok(true));
    assert_eq!(match_pattern("^\\d+3$", "124"), Ok(false));
}

#[test]
fn caret_alone_matches_everything() {
    assert_eq!(match_pattern("^", "abc"), Ok(true));
    assert_eq!(match_pattern("^", ""), Ok(true));
}

#[test]
fn end_anchor_alone_matches_line_end() {
    assert_eq!(match_pattern("$", "abc"), Ok(true));
}

#[test]
fn here_matches_at_start_only() {
    assert_eq!(match_pattern_here("ana", "anagram"), Ok(true));
    assert_eq!(match_pattern_here("ana", "banana"), Ok(false));
}

#[test]
fn here_empty_pattern() {
    assert_eq!(match_pattern_here("", "x"), Ok(true));
}

#[test]
fn unterminated_class_is_error() {
    assert_eq!(match_pattern("[abc", "x"), Err(ParseError::UnterminatedClass));
    assert_eq!(match_pattern_here("[abc", "x"), Err(ParseError::UnterminatedClass));
}

#[test]
fn unterminated_group_is_error() {
    assert_eq!(match_pattern("(cat", "x"), Err(ParseError::UnterminatedGroup));
    assert_eq!(match_pattern_here("(cat", "x"), Err(ParseError::UnterminatedGroup));
}

#[test]
fn error_found_inside_alternative() {
    assert_eq!(match_pattern("(a|[b)", "x"), Err(ParseError::UnterminatedClass));
}

#[test]
fn error_reported_even_when_unreachable() {
    assert_eq!(match_pattern("a[", "xyz"), Err(ParseError::UnterminatedClass));
}

#[test]
fn anchored_error_after_caret() {
    assert_eq!(match_pattern("^a(", "a"), Err(ParseError::UnterminatedGroup));
}
