//! Pattern tokens and the tokenizer.
//!
//! A pattern string is parsed one token at a time from the front.  Each
//! token is a base kind (a literal, a character class, an anchor, a
//! group of alternatives, ...) together with a quantifier taken from a
//! trailing `+` or `?`.  Group alternatives are kept as unparsed pattern
//! substrings and re-tokenized when the matcher tries them.

use vstd::prelude::*;

verus! {

/// How many times a token may match at its position.
#[derive(Debug, Clone, Copy, PartialEq, Eq)]
pub enum Quantifier {
    /// Exactly once (the default, no trailing quantifier).
    One,
    /// One or more times (`+`).
    OneOrMore,
    /// Zero or one time (`?`).
    ZeroOrOne,
}

/// What a token matches.
///
/// Character classes hold their members as literal characters; `a-z`
/// between brackets is three members, not a range.  A group holds its
/// alternatives as unparsed pattern substrings.
#[derive(Debug, PartialEq, Eq)]
pub enum PatternType {
    /// `.`: any single character.
    Any,
    /// `\d`: an ASCII digit.
    Digit,
    /// `\w`: an alphanumeric character or underscore.
    Word,
    /// A single literal character.
    Literal(char),
    /// `[...]`: any character listed between the brackets.
    CharClass(Vec<char>),
    /// `[^...]`: any character not listed between the brackets.
    NegClass(Vec<char>),
    /// `^`: start of input; consumes nothing.
    StartAnchor,
    /// `$`: end of input; consumes nothing.
    EndAnchor,
    /// `(a|b|...)`: a parenthesized list of alternative sub-patterns.
    Group(Vec<Vec<char>>),
}

/// A parsed pattern token: a base kind plus its quantifier.
#[derive(Debug, PartialEq, Eq)]
pub struct Token {
    pub kind: PatternType,
    pub quant: Quantifier,
}

/// A malformed pattern, reported by the tokenizer.
#[derive(Debug, Clone, Copy, PartialEq, Eq)]
pub enum ParseError {
    /// A `[` whose closing `]` is never found.
    UnterminatedClass,
    /// A `(` whose matching `)` is never found.
    UnterminatedGroup,
}

/// Mathematical counterpart of `PatternType`: classes and alternatives
/// as sequences.
pub ghost enum SpecKind {
    Any,
    Digit,
    Word,
    Literal(char),
    CharClass(Seq<char>),
    NegClass(Seq<char>),
    StartAnchor,
    EndAnchor,
    Group(Seq<Seq<char>>),
}

/// Mathematical counterpart of `Token`.
pub ghost struct SpecToken {
    pub kind: SpecKind,
    pub quant: Quantifier,
}

impl View for PatternType {
    type V = SpecKind;

    open spec fn view(&self) -> SpecKind {
        match self {
            PatternType::Any => SpecKind::Any,
            PatternType::Digit => SpecKind::Digit,
            PatternType::Word => SpecKind::Word,
            PatternType::Literal(c) => SpecKind::Literal(*c),
            PatternType::CharClass(cs) => SpecKind::CharClass(cs@),
            PatternType::NegClass(cs) => SpecKind::NegClass(cs@),
            PatternType::StartAnchor => SpecKind::StartAnchor,
            PatternType::EndAnchor => SpecKind::EndAnchor,
            PatternType::Group(alts) => SpecKind::Group(alts.deep_view()),
        }
    }
}

impl View for Token {
    type V = SpecToken;

    open spec fn view(&self) -> SpecToken {
        SpecToken { kind: self.kind@, quant: self.quant }
    }
}

/// Index of the first occurrence of `c` in `p` at or after `from`.
pub open spec fn spec_find_from(p: Seq<char>, c: char, from: int) -> Option<int>
    decreases p.len() - from,
{
    if from < 0 || from >= p.len() {
        None
    } else if p[from] == c {
        Some(from)
    } else {
        spec_find_from(p, c, from + 1)
    }
}

/// Index in `t` of the `)` that closes the group whose opening `(` stands
/// just before `t`; scanning starts at `i` with `depth` parentheses open.
pub open spec fn spec_find_group_close(t: Seq<char>, i: int, depth: int) -> Option<int>
    decreases t.len() - i,
{
    if i < 0 || i >= t.len() {
        None
    } else if t[i] == '(' {
        spec_find_group_close(t, i + 1, depth + 1)
    } else if t[i] == ')' {
        if depth == 1 {
            Some(i)
        } else {
            spec_find_group_close(t, i + 1, depth - 1)
        }
    } else {
        spec_find_group_close(t, i + 1, depth)
    }
}

/// Index in `body` of the first `|` that stands outside every nested
/// group; scanning starts at `i` with `depth` nested parentheses open.
pub open spec fn spec_find_top_bar(body: Seq<char>, i: int, depth: int) -> Option<int>
    decreases body.len() - i,
{
    if i < 0 || i >= body.len() {
        None
    } else if body[i] == '|' && depth == 0 {
        Some(i)
    } else if body[i] == '(' {
        spec_find_top_bar(body, i + 1, depth + 1)
    } else if body[i] == ')' {
        spec_find_top_bar(body, i + 1, depth - 1)
    } else {
        spec_find_top_bar(body, i + 1, depth)
    }
}

/// The alternatives of a group body: the pieces between its top-level
/// `|` separators.  A `|` inside a nested group does not split the
/// outer alternation.
pub open spec fn spec_split_alternatives(body: Seq<char>) -> Seq<Seq<char>>
    decreases body.len(),
    via spec_split_alternatives_decreases
{
    match spec_find_top_bar(body, 0, 0) {
        Some(i) => seq![body.subrange(0, i)] + spec_split_alternatives(body.skip(i + 1)),
        None => seq![body],
    }
}

#[via_fn]
proof fn spec_split_alternatives_decreases(body: Seq<char>) {
    lemma_find_top_bar_range(body, 0, 0);
}

/// The summed length of a list of alternatives.
pub open spec fn alts_total(alts: Seq<Seq<char>>) -> nat
    decreases alts.len(),
{
    if alts.len() == 0 {
        0
    } else {
        alts[0].len() + alts_total(alts.skip(1))
    }
}

/// The base kind at the front of a non-empty pattern, and the pattern
/// remainder after it.  First match wins: `\d`, `\w`, `^`, `$`, a group,
/// a negated class, a class, `.`, and otherwise a literal character.
pub open spec fn spec_base_kind(p: Seq<char>) -> Result<(SpecKind, Seq<char>), ParseError>
    recommends
        p.len() > 0,
{
    if p.len() >= 2 && p[0] == '\\' && p[1] == 'd' {
        Ok((SpecKind::Digit, p.skip(2)))
    } else if p.len() >= 2 && p[0] == '\\' && p[1] == 'w' {
        Ok((SpecKind::Word, p.skip(2)))
    } else if p[0] == '^' {
        Ok((SpecKind::StartAnchor, p.skip(1)))
    } else if p[0] == '$' {
        Ok((SpecKind::EndAnchor, p.skip(1)))
    } else if p[0] == '(' {
        let t = p.skip(1);
        match spec_find_group_close(t, 0, 1) {
            None => Err(ParseError::UnterminatedGroup),
            Some(ci) => Ok(
                (SpecKind::Group(spec_split_alternatives(t.subrange(0, ci))), t.skip(ci + 1)),
            ),
        }
    } else if p.len() >= 2 && p[0] == '[' && p[1] == '^' {
        match spec_find_from(p, ']', 0) {
            None => Err(ParseError::UnterminatedClass),
            Some(end) => Ok((SpecKind::NegClass(p.subrange(2, end)), p.skip(end + 1))),
        }
    } else if p[0] == '[' {
        match spec_find_from(p, ']', 0) {
            None => Err(ParseError::UnterminatedClass),
            Some(end) => Ok((SpecKind::CharClass(p.subrange(1, end)), p.skip(end + 1))),
        }
    } else if p[0] == '.' {
        Ok((SpecKind::Any, p.skip(1)))
    } else {
        Ok((SpecKind::Literal(p[0]), p.skip(1)))
    }
}

/// The first token of a pattern and the remainder after it, `Ok(None)`
/// at the end of the pattern, or the malformed-pattern error.  A `+` or
/// `?` just after the base kind becomes its quantifier.
pub open spec fn spec_next_token(p: Seq<char>) -> Result<
    Option<(SpecToken, Seq<char>)>,
    ParseError,
> {
    if p.len() == 0 {
        Ok(None)
    } else {
        match spec_base_kind(p) {
            Err(e) => Err(e),
            Ok((kind, rest_k)) => {
                if rest_k.len() > 0 && rest_k[0] == '+' {
                    Ok(Some((SpecToken { kind, quant: Quantifier::OneOrMore }, rest_k.skip(1))))
                } else if rest_k.len() > 0 && rest_k[0] == '?' {
                    Ok(Some((SpecToken { kind, quant: Quantifier::ZeroOrOne }, rest_k.skip(1))))
                } else {
                    Ok(Some((SpecToken { kind, quant: Quantifier::One }, rest_k)))
                }
            },
        }
    }
}

/// Whether a whole pattern is well formed: every token parses, and the
/// alternatives of every group are themselves well-formed patterns.
/// Returns the first error found, scanning left to right and into each
/// group's alternatives before the pattern remainder.
pub open spec fn spec_validate(p: Seq<char>) -> Result<(), ParseError>
    decreases p.len(), 0int,
    via spec_validate_decreases
{
    if p.len() == 0 {
        Ok(())
    } else {
        match spec_next_token(p) {
            Err(e) => Err(e),
            Ok(None) => Ok(()),
            Ok(Some((tok, rest))) => {
                let alts_ok = match tok.kind {
                    SpecKind::Group(alts) => spec_validate_alts(alts, 0),
                    _ => Ok(()),
                };
                match alts_ok {
                    Err(e) => Err(e),
                    Ok(_) => spec_validate(rest),
                }
            },
        }
    }
}

/// Whether the alternatives of a group, from index `j` on, are all well
/// formed; the first error wins.
pub open spec fn spec_validate_alts(alts: Seq<Seq<char>>, j: int) -> Result<(), ParseError>
    decreases alts_total(alts) + 1, alts.len() - j,
    via spec_validate_alts_decreases
{
    if j < 0 || j >= alts.len() {
        Ok(())
    } else {
        match spec_validate(alts[j]) {
            Err(e) => Err(e),
            Ok(_) => spec_validate_alts(alts, j + 1),
        }
    }
}

#[via_fn]
proof fn spec_validate_decreases(p: Seq<char>) {
    if p.len() > 0 {
        lemma_token_size(p);
    }
}

#[via_fn]
proof fn spec_validate_alts_decreases(alts: Seq<Seq<char>>, j: int) {
    if 0 <= j < alts.len() {
        lemma_elem_le_total(alts, j);
    }
}

/// A well-formed pattern, as the matcher requires it.
pub open spec fn valid_pattern(p: Seq<char>) -> bool {
    spec_validate(p) is Ok
}

/// `spec_find_from` finds exactly the first occurrence at or after `from`.
pub proof fn lemma_find_from_props(p: Seq<char>, c: char, from: int)
    requires
        0 <= from <= p.len(),
    ensures
        match spec_find_from(p, c, from) {
            Some(e) => from <= e < p.len() && p[e] == c && (forall|k: int|
                from <= k < e ==> p[k] != c),
            None => forall|k: int| from <= k < p.len() ==> p[k] != c,
        },
    decreases p.len() - from,
{
    if from < p.len() && p[from] != c {
        lemma_find_from_props(p, c, from + 1);
    }
}

/// Conversely, a position that holds `c` with no earlier occurrence is
/// exactly what `spec_find_from` returns.
pub proof fn lemma_find_from_at(p: Seq<char>, c: char, from: int, e: int)
    requires
        0 <= from <= e < p.len(),
        p[e] == c,
        forall|k: int| from <= k < e ==> p[k] != c,
    ensures
        spec_find_from(p, c, from) == Some(e),
    decreases e - from,
{
    if from < e {
        lemma_find_from_at(p, c, from + 1, e);
    }
}

/// A found closing parenthesis lies between the scan start and the end
/// of the text.
pub proof fn lemma_find_close_range(t: Seq<char>, i: int, depth: int)
    requires
        0 <= i <= t.len(),
    ensures
        match spec_find_group_close(t, i, depth) {
            Some(ci) => i <= ci < t.len(),
            None => true,
        },
    decreases t.len() - i,
{
    if i < t.len() {
        lemma_find_close_range(t, i + 1, depth + 1);
        lemma_find_close_range(t, i + 1, depth - 1);
        lemma_find_close_range(t, i + 1, depth);
    }
}

/// A found top-level `|` lies between the scan start and the end of the
/// body.
pub proof fn lemma_find_top_bar_range(body: Seq<char>, i: int, depth: int)
    requires
        0 <= i <= body.len(),
    ensures
        match spec_find_top_bar(body, i, depth) {
            Some(b) => i <= b < body.len(),
            None => true,
        },
    decreases body.len() - i,
{
    if i < body.len() {
        lemma_find_top_bar_range(body, i + 1, depth + 1);
        lemma_find_top_bar_range(body, i + 1, depth - 1);
        lemma_find_top_bar_range(body, i + 1, depth);
    }
}

/// Splitting a body never yields more text than the body holds, and
/// always yields at least one alternative.
pub proof fn lemma_split_total(body: Seq<char>)
    ensures
        alts_total(spec_split_alternatives(body)) <= body.len(),
        spec_split_alternatives(body).len() >= 1,
    decreases body.len(),
{
    lemma_find_top_bar_range(body, 0, 0);
    match spec_find_top_bar(body, 0, 0) {
        Some(i) => {
            let head = body.subrange(0, i);
            let tail = body.skip(i + 1);
            lemma_split_total(tail);
            let alts = spec_split_alternatives(body);
            assert(alts == seq![head] + spec_split_alternatives(tail));
            assert(alts[0] == head);
            assert(alts.skip(1) =~= spec_split_alternatives(tail));
            assert(alts_total(alts) == head.len() + alts_total(spec_split_alternatives(tail)));
        },
        None => {
            let alts = spec_split_alternatives(body);
            assert(alts == seq![body]);
            assert(alts[0] == body);
            assert(alts.skip(1) =~= Seq::<Seq<char>>::empty());
            assert(alts_total(alts.skip(1)) == 0);
        },
    }
}

/// One alternative is never longer than the summed length of all of
/// them.
pub proof fn lemma_elem_le_total(alts: Seq<Seq<char>>, j: int)
    requires
        0 <= j < alts.len(),
    ensures
        alts[j].len() <= alts_total(alts),
    decreases j,
{
    if j > 0 {
        lemma_elem_le_total(alts.skip(1), j - 1);
    }
}

/// Sizes that tokenizing takes off a pattern: the remainder is strictly
/// shorter; a quantified token consumed at least two characters; and a
/// group's alternatives plus the remainder fit inside the pattern minus
/// its two parentheses.
pub proof fn lemma_token_size(p: Seq<char>)
    requires
        p.len() > 0,
    ensures
        match spec_next_token(p) {
            Ok(Some((tok, rest))) => {
                &&& rest.len() < p.len()
                &&& (tok.quant != Quantifier::One ==> rest.len() + 2 <= p.len())
                &&& match tok.kind {
                    SpecKind::Group(alts) => alts_total(alts) + rest.len() + 2 <= p.len(),
                    _ => true,
                }
            },
            _ => true,
        },
{
    if p[0] == '(' {
        let t = p.skip(1);
        lemma_find_close_range(t, 0, 1);
        match spec_find_group_close(t, 0, 1) {
            None => {},
            Some(ci) => {
                lemma_split_total(t.subrange(0, ci));
            },
        }
    }
    if p[0] == '[' {
        lemma_find_from_props(p, ']', 0);
    }
}

/// In a well-formed, non-empty pattern the next token parses, its
/// remainder and every group alternative are themselves well formed,
/// and the size bounds of `lemma_token_size` hold.
pub proof fn lemma_valid_token(p: Seq<char>)
    requires
        p.len() > 0,
        valid_pattern(p),
    ensures
        match spec_next_token(p) {
            Ok(Some((tok, rest))) => {
                &&& valid_pattern(rest)
                &&& rest.len() < p.len()
                &&& (tok.quant != Quantifier::One ==> rest.len() + 2 <= p.len())
                &&& match tok.kind {
                    SpecKind::Group(alts) => {
                        &&& alts_total(alts) + rest.len() + 2 <= p.len()
                        &&& forall|j: int| 0 <= j < alts.len() ==> valid_pattern(#[trigger] alts[j])
                    },
                    _ => true,
                }
            },
            _ => false,
        },
{
    lemma_token_size(p);
    match spec_next_token(p) {
        Ok(Some((tok, rest))) => {
            match tok.kind {
                SpecKind::Group(alts) => {
                    lemma_validate_alts_all(alts, 0);
                },
                _ => {},
            }
        },
        _ => {},
    }
}

/// If validating a list of alternatives from `j` on succeeds, each of
/// them is well formed.
proof fn lemma_validate_alts_all(alts: Seq<Seq<char>>, j: int)
    requires
        0 <= j <= alts.len(),
        spec_validate_alts(alts, j) is Ok,
    ensures
        forall|k: int| j <= k < alts.len() ==> valid_pattern(#[trigger] alts[k]),
    decreases alts.len() - j,
{
    if j < alts.len() {
        lemma_validate_alts_all(alts, j + 1);
    }
}

/// Index of the first `c` in `p`, if any.
fn find_char(p: &[char], c: char) -> (r: Option<usize>)
    ensures
        match r {
            Some(e) => spec_find_from(p@, c, 0) == Some(e as int),
            None => spec_find_from(p@, c, 0) is None,
        },
{
    let mut i: usize = 0;
    while i < p.len()
        invariant
            0 <= i <= p@.len(),
            spec_find_from(p@, c, 0) == spec_find_from(p@, c, i as int),
        decreases p@.len() - i,
    {
        if p[i] == c {
            return Some(i);
        }
        i = i + 1;
    }
    None
}

/// Index in `t` of the `)` closing the group whose `(` stands just
/// before `t`, if any, tracking nested parentheses.
fn find_group_close(t: &[char]) -> (r: Option<usize>)
    ensures
        match r {
            Some(ci) => spec_find_group_close(t@, 0, 1) == Some(ci as int),
            None => spec_find_group_close(t@, 0, 1) is None,
        },
{
    let mut i: usize = 0;
    let mut depth: i128 = 1;
    while i < t.len()
        invariant
            0 <= i <= t@.len(),
            1 <= depth <= 1 + i as int,
            spec_find_group_close(t@, 0, 1) == spec_find_group_close(t@, i as int, depth as int),
        decreases t@.len() - i,
    {
        let c = t[i];
        if c == '(' {
            depth = depth + 1;
        } else if c == ')' {
            if depth == 1 {
                return Some(i);
            }
            depth = depth - 1;
        }
        i = i + 1;
    }
    None
}

/// Index in `body` of the first top-level `|`, if any, tracking nested
/// parentheses.
fn find_top_bar(body: &[char]) -> (r: Option<usize>)
    ensures
        match r {
            Some(b) => spec_find_top_bar(body@, 0, 0) == Some(b as int),
            None => spec_find_top_bar(body@, 0, 0) is None,
        },
{
    let mut i: usize = 0;
    let mut depth: i128 = 0;
    while i < body.len()
        invariant
            0 <= i <= body@.len(),
            -(i as int) <= depth <= i as int,
            spec_find_top_bar(body@, 0, 0) == spec_find_top_bar(body@, i as int, depth as int),
        decreases body@.len() - i,
    {
        let c = body[i];
        if c == '|' && depth == 0 {
            return Some(i);
        }
        if c == '(' {
            depth = depth + 1;
        } else if c == ')' {
            depth = depth - 1;
        }
        i = i + 1;
    }
    None
}

/// Split a group body into its alternatives on top-level `|` only.
fn split_alternatives(body: &[char]) -> (alts: Vec<Vec<char>>)
    ensures
        alts.deep_view() == spec_split_alternatives(body@),
{
    let mut alts: Vec<Vec<char>> = Vec::new();
    let mut seg_start: usize = 0;
    proof {
        assert(body@.skip(0) =~= body@);
        assert(alts.deep_view() + spec_split_alternatives(body@) =~~= spec_split_alternatives(
            body@,
        ));
    }
    loop
        invariant
            0 <= seg_start <= body@.len(),
            spec_split_alternatives(body@) == alts.deep_view() + spec_split_alternatives(
                body@.skip(seg_start as int),
            ),
        decreases body@.len() - seg_start,
    {
        let suf = &body[seg_start..body.len()];
        proof {
            assert(suf@ =~= body@.skip(seg_start as int));
        }
        match find_top_bar(suf) {
            None => {
                let ghost old_alts = alts.deep_view();
                alts.push(vstd::slice::slice_to_vec(suf));
                proof {
                    assert(alts.deep_view() =~~= old_alts + seq![suf@]);
                    assert(spec_split_alternatives(suf@) == seq![suf@]);
                    assert(spec_split_alternatives(body@) =~~= alts.deep_view());
                }
                return alts;
            },
            Some(bar) => {
                proof {
                    lemma_find_top_bar_range(suf@, 0, 0);
                }
                let ghost old_alts = alts.deep_view();
                let piece = &suf[0..bar];
                alts.push(vstd::slice::slice_to_vec(piece));
                proof {
                    assert(alts.deep_view() =~~= old_alts + seq![piece@]);
                    assert(piece@ == suf@.subrange(0, bar as int));
                    assert(suf@.skip(bar + 1) =~= body@.skip(seg_start + bar + 1));
                    assert(spec_split_alternatives(suf@) == seq![piece@]
                        + spec_split_alternatives(suf@.skip(bar + 1)));
                    assert(spec_split_alternatives(body@) =~~= alts.deep_view()
                        + spec_split_alternatives(body@.skip(seg_start + bar + 1)));
                }
                seg_start = seg_start + bar + 1;
            },
        }
    }
}

/// Parse a group body such as `cat|dog|bird)` (the text after the
/// opening parenthesis), returning the alternatives and the pattern
/// remainder after the closing parenthesis.
fn parse_group<'a>(tail: &'a [char]) -> (r: Result<(Vec<Vec<char>>, &'a [char]), ParseError>)
    ensures
        match r {
            Ok((alts, rest)) => spec_find_group_close(tail@, 0, 1) matches Some(ci)
                && alts.deep_view() == spec_split_alternatives(tail@.subrange(0, ci))
                && rest@ == tail@.skip(ci + 1),
            Err(e) => e == ParseError::UnterminatedGroup && spec_find_group_close(
                tail@,
                0,
                1,
            ) is None,
        },
{
    match find_group_close(tail) {
        None => Err(ParseError::UnterminatedGroup),
        Some(ci) => {
            let tlen = tail.len();
            proof {
                lemma_find_close_range(tail@, 0, 1);
            }
            let body = &tail[0..ci];
            let alts = split_alternatives(body);
            let rest = &tail[ci + 1..tlen];
            proof {
                assert(rest@ =~= tail@.skip(ci + 1));
            }
            Ok((alts, rest))
        },
    }
}

/// Parse the next token from the front of a pattern: the token and the
/// pattern remainder after it, `Ok(None)` at the end of the pattern, or
/// the malformed-pattern error.  The result depends on the pattern
/// alone.
pub fn get_next_token<'a>(pattern: &'a [char]) -> (r: Result<
    Option<(Token, &'a [char])>,
    ParseError,
>)
    ensures
        match r {
            Ok(None) => spec_next_token(pattern@) == Ok::<
                Option<(SpecToken, Seq<char>)>,
                ParseError,
            >(None),
            Ok(Some((tok, rest))) => spec_next_token(pattern@) == Ok::<
                Option<(SpecToken, Seq<char>)>,
                ParseError,
            >(Some((tok@, rest@))),
            Err(e) => spec_next_token(pattern@) == Err::<
                Option<(SpecToken, Seq<char>)>,
                ParseError,
            >(e),
        },
{
    let n = pattern.len();
    if n == 0 {
        return Ok(None);
    }
    let first = pattern[0];
    let (kind, rest_k): (PatternType, &[char]) = if n >= 2 && first == '\\' && pattern[1] == 'd' {
        proof {
            assert(pattern@.subrange(2, n as int) =~= pattern@.skip(2));
        }
        (PatternType::Digit, &pattern[2..n])
    } else if n >= 2 && first == '\\' && pattern[1] == 'w' {
        proof {
            assert(pattern@.subrange(2, n as int) =~= pattern@.skip(2));
        }
        (PatternType::Word, &pattern[2..n])
    } else if first == '^' {
        proof {
            assert(pattern@.subrange(1, n as int) =~= pattern@.skip(1));
        }
        (PatternType::StartAnchor, &pattern[1..n])
    } else if first == '$' {
        proof {
            assert(pattern@.subrange(1, n as int) =~= pattern@.skip(1));
        }
        (PatternType::EndAnchor, &pattern[1..n])
    } else if first == '(' {
        let tail = &pattern[1..n];
        proof {
            assert(tail@ =~= pattern@.skip(1));
        }
        match parse_group(tail) {
            Err(e) => {
                return Err(e);
            },
            Ok((alts, rest)) => (PatternType::Group(alts), rest),
        }
    } else if n >= 2 && first == '[' && pattern[1] == '^' {
        match find_char(pattern, ']') {
            None => {
                return Err(ParseError::UnterminatedClass);
            },
            Some(end) => {
                proof {
                    lemma_find_from_props(pattern@, ']', 0);
                    assert(pattern@.subrange(end + 1, n as int) =~= pattern@.skip(end + 1));
                }
                (PatternType::NegClass(vstd::slice::slice_to_vec(&pattern[2..end])), &pattern[end
                    + 1..n])
            },
        }
    } else if first == '[' {
        match find_char(pattern, ']') {
            None => {
                return Err(ParseError::UnterminatedClass);
            },
            Some(end) => {
                proof {
                    lemma_find_from_props(pattern@, ']', 0);
                    assert(pattern@.subrange(end + 1, n as int) =~= pattern@.skip(end + 1));
                }
                (PatternType::CharClass(vstd::slice::slice_to_vec(&pattern[1..end])), &pattern[end
                    + 1..n])
            },
        }
    } else if first == '.' {
        proof {
            assert(pattern@.subrange(1, n as int) =~= pattern@.skip(1));
        }
        (PatternType::Any, &pattern[1..n])
    } else {
        proof {
            assert(pattern@.subrange(1, n as int) =~= pattern@.skip(1));
        }
        (PatternType::Literal(first), &pattern[1..n])
    };
    proof {
        assert(spec_base_kind(pattern@) == Ok::<(SpecKind, Seq<char>), ParseError>(
            (kind@, rest_k@),
        ));
    }
    if rest_k.len() > 0 && rest_k[0] == '+' {
        proof {
            assert(rest_k@.subrange(1, rest_k@.len() as int) =~= rest_k@.skip(1));
        }
        Ok(Some((Token { kind, quant: Quantifier::OneOrMore }, &rest_k[1..rest_k.len()])))
    } else if rest_k.len() > 0 && rest_k[0] == '?' {
        proof {
            assert(rest_k@.subrange(1, rest_k@.len() as int) =~= rest_k@.skip(1));
        }
        Ok(Some((Token { kind, quant: Quantifier::ZeroOrOne }, &rest_k[1..rest_k.len()])))
    } else {
        Ok(Some((Token { kind, quant: Quantifier::One }, rest_k)))
    }
}

/// Check a whole pattern for malformed constructs before matching:
/// every token must parse, and the alternatives of every group must
/// themselves be well-formed patterns.
pub fn validate_pattern(p: &[char]) -> (r: Result<(), ParseError>)
    ensures
        r == spec_validate(p@),
    decreases p@.len(),
{
    if p.len() == 0 {
        return Ok(());
    }
    proof {
        lemma_token_size(p@);
    }
    match get_next_token(p) {
        Err(e) => Err(e),
        Ok(None) => Ok(()),
        Ok(Some((token, rest))) => {
            match &token.kind {
                PatternType::Group(alts) => {
                    let ghost dalts = alts.deep_view();
                    let mut j: usize = 0;
                    while j < alts.len()
                        invariant
                            0 <= j <= alts@.len(),
                            dalts == alts.deep_view(),
                            dalts.len() == alts@.len(),
                            spec_validate_alts(dalts, 0) == spec_validate_alts(dalts, j as int),
                            spec_next_token(p@) matches Ok(Some((tok, r2))) && tok.kind
                                == SpecKind::Group(dalts) && r2 == rest@,
                            alts_total(dalts) + rest@.len() + 2 <= p@.len(),
                        decreases alts@.len() - j,
                    {
                        proof {
                            assert(dalts[j as int] =~= alts@[j as int]@);
                            lemma_elem_le_total(dalts, j as int);
                        }
                        match validate_pattern(alts[j].as_slice()) {
                            Err(e) => {
                                return Err(e);
                            },
                            Ok(_) => {},
                        }
                        j = j + 1;
                    }
                    validate_pattern(rest)
                },
                _ => validate_pattern(rest),
            }
        },
    }
}

} // verus!
