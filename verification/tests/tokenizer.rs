use simple_regex::pattern_type::{
    get_next_token, validate_pattern, ParseError, PatternType, Quantifier, Token,
};

fn chars_of(s: &str) -> Vec<char> {
    s.chars().collect()
}

fn all_tokens(pattern: &[char]) -> Vec<Token> {
    let mut tokens: Vec<Token> = Vec::new();
    let mut rest: &[char] = pattern;
    loop {
        match get_next_token(rest).unwrap() {
            None => return tokens,
            Some((token, after)) => {
                tokens.push(token);
                rest = after;
            }
        }
    }
}

#[test]
fn empty_pattern_has_no_token() {
    assert_eq!(get_next_token(&[]).unwrap(), None);
}

#[test]
fn literal_token() {
    let p = chars_of("ab");
    let (token, rest) = get_next_token(&p).unwrap().unwrap();
    assert_eq!(token.kind, PatternType::Literal('a'));
    assert_eq!(token.quant, Quantifier::One);
    assert_eq!(rest, &['b'][..]);
}

#[test]
fn digit_and_word_tokens() {
    let p = chars_of("\\d\\w");
    let (token, rest) = get_next_token(&p).unwrap().unwrap();
    assert_eq!(token.kind, PatternType::Digit);
    let (token2, rest2) = get_next_token(rest).unwrap().unwrap();
    assert_eq!(token2.kind, PatternType::Word);
    assert_eq!(rest2, &[][..]);
}

#[test]
fn lone_backslash_is_literal() {
    let p = chars_of("\\");
    let (token, _) = get_next_token(&p).unwrap().unwrap();
    assert_eq!(token.kind, PatternType::Literal('\\'));
}

#[test]
fn plus_quantifier_consumed() {
    let p = chars_of("a+t");
    let (token, rest) = get_next_token(&p).unwrap().unwrap();
    assert_eq!(token.kind, PatternType::Literal('a'));
    assert_eq!(token.quant, Quantifier::OneOrMore);
    assert_eq!(rest, &['t'][..]);
}

#[test]
fn question_quantifier_consumed() {
    let p = chars_of("u?r");
    let (token, rest) = get_next_token(&p).unwrap().unwrap();
    assert_eq!(token.quant, Quantifier::ZeroOrOne);
    assert_eq!(rest, &['r'][..]);
}

#[test]
fn anchors_are_tokens() {
    let p = chars_of("^a$");
    let tokens = all_tokens(&p);
    assert_eq!(tokens.len(), 3);
    assert_eq!(tokens[0].kind, PatternType::StartAnchor);
    assert_eq!(tokens[1].kind, PatternType::Literal('a'));
    assert_eq!(tokens[2].kind, PatternType::EndAnchor);
}

#[test]
fn char_class_token() {
    let p = chars_of("[abc]x");
    let (token, rest) = get_next_token(&p).unwrap().unwrap();
    assert_eq!(token.kind, PatternType::CharClass(vec!['a', 'b', 'c']));
    assert_eq!(rest, &['x'][..]);
}

#[test]
fn neg_class_token() {
    let p = chars_of("[^ab]?");
    let (token, rest) = get_next_token(&p).unwrap().unwrap();
    assert_eq!(token.kind, PatternType::NegClass(vec!['a', 'b']));
    assert_eq!(token.quant, Quantifier::ZeroOrOne);
    assert_eq!(rest, &[][..]);
}

#[test]
fn group_token_alternatives() {
    let p = chars_of("(cat|dog)x");
    let (token, rest) = get_next_token(&p).unwrap().unwrap();
    assert_eq!(
        token.kind,
        PatternType::Group(vec![chars_of("cat"), chars_of("dog")])
    );
    assert_eq!(token.quant, Quantifier::One);
    assert_eq!(rest, &['x'][..]);
}

#[test]
fn group_split_tracks_nesting_depth() {
    let p = chars_of("(a(b|c)|d)");
    let (token, rest) = get_next_token(&p).unwrap().unwrap();
    assert_eq!(
        token.kind,
        PatternType::Group(vec![chars_of("a(b|c)"), chars_of("d")])
    );
    assert_eq!(rest, &[][..]);
}

#[test]
fn group_with_quantifier() {
    let p = chars_of("(a|b)+c");
    let (token, rest) = get_next_token(&p).unwrap().unwrap();
    assert_eq!(token.quant, Quantifier::OneOrMore);
    assert_eq!(rest, &['c'][..]);
}

#[test]
fn unterminated_class_reported() {
    let p = chars_of("[abc");
    assert_eq!(get_next_token(&p), Err(ParseError::UnterminatedClass));
}

#[test]
fn unterminated_group_reported() {
    let p = chars_of("(ab");
    assert_eq!(get_next_token(&p), Err(ParseError::UnterminatedGroup));
}

#[test]
fn tokenizer_idempotent_single() {
    for pat in ["a+", "(cat|dog)x", "[abc]?", "\\d\\w", "^ab$", ".", "[^xy]z"] {
        let p: Vec<char> = pat.chars().collect();
        assert_eq!(get_next_token(&p), get_next_token(&p));
    }
}

#[test]
fn tokenizer_idempotent_full_walk() {
    let p = chars_of("(a(b|c)|d)+x[yz]?\\w$");
    assert_eq!(all_tokens(&p), all_tokens(&p));
}

#[test]
fn validate_accepts_well_formed() {
    for pat in ["", "abc", "^(cat|dog)+$", "[abc]x?\\d", "(a(b|c)|d)"] {
        let p: Vec<char> = pat.chars().collect();
        assert_eq!(validate_pattern(&p), Ok(()));
    }
}

#[test]
fn validate_rejects_malformed() {
    let p = chars_of("ab[cd");
    assert_eq!(validate_pattern(&p), Err(ParseError::UnterminatedClass));
    let q = chars_of("a(b(c)");
    assert_eq!(validate_pattern(&q), Err(ParseError::UnterminatedGroup));
    let r = chars_of("(a|[b)");
    assert_eq!(validate_pattern(&r), Err(ParseError::UnterminatedClass));
}
