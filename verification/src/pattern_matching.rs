//! The backtracking matcher and the search driver.
//!
//! `match_pattern_core` walks the pattern tokens left to right against
//! the input.  A quantified token is greedy: it first consumes the
//! longest run it can, and gives characters back one at a time when the
//! rest of the pattern fails.  Group alternatives are tried in source
//! order, and an alternative whose continuation fails causes the next
//! alternative to be tried.  `match_pattern` slides the attempt across
//! every start position unless the pattern is anchored with `^`.
//!
//! The mathematical model (`spec_core` and its helpers) states the same
//! greedy, leftmost-first semantics over sequences of characters; each
//! executable function is proved to return exactly what the model says.

use vstd::prelude::*;
use vstd::string::StrSliceExecFns;
use crate::pattern_type::{
    alts_total, get_next_token, lemma_elem_le_total, lemma_valid_token, spec_next_token,
    spec_validate, valid_pattern, validate_pattern, ParseError, PatternType, Quantifier, SpecKind,
};

verus! {

/// What `char::is_alphanumeric` returns; a function of the character
/// alone, left unstated because it is a large Unicode table.
pub uninterp spec fn spec_is_alphanumeric(c: char) -> bool;

/// Relies on `char::is_alphanumeric` from std: whether the character is
/// alphanumeric in Unicode.  The result depends on the character alone.
#[verifier::external_body]
fn char_is_alphanumeric(c: char) -> (r: bool)
    ensures
        r == spec_is_alphanumeric(c),
{
    c.is_alphanumeric()
}

/// An ASCII digit.
pub open spec fn is_digit_char(c: char) -> bool {
    '0' as u32 <= c as u32 && c as u32 <= '9' as u32
}

/// An alphanumeric character or underscore (what `\w` matches).
pub open spec fn is_word_char(c: char) -> bool {
    spec_is_alphanumeric(c) || c == '_'
}

/// Whether a single character satisfies a token kind.  Anchors and
/// groups match no character; they are handled by the matcher itself.
pub open spec fn spec_char_matches(kind: SpecKind, c: char) -> bool {
    match kind {
        SpecKind::Any => true,
        SpecKind::Digit => is_digit_char(c),
        SpecKind::Word => is_word_char(c),
        SpecKind::Literal(l) => l == c,
        SpecKind::CharClass(cs) => cs.contains(c),
        SpecKind::NegClass(cs) => !cs.contains(c),
        SpecKind::StartAnchor => false,
        SpecKind::EndAnchor => false,
        SpecKind::Group(_) => false,
    }
}

/// Length of the maximal run of characters satisfying `kind` at the
/// front of `input`.
pub open spec fn spec_run_len(kind: SpecKind, input: Seq<char>) -> nat
    decreases input.len(),
{
    if input.len() > 0 && spec_char_matches(kind, input[0]) {
        1 + spec_run_len(kind, input.skip(1))
    } else {
        0
    }
}

/// The outcome of matching `p` against the front of `input`: the
/// unconsumed suffix on success, `None` on failure.  Greedy with
/// backtracking; the leftmost group alternative wins ties.
pub open spec fn spec_core(p: Seq<char>, input: Seq<char>) -> Option<Seq<char>>
    decreases input.len(), p.len(), 3int, 0int,
    via spec_core_decreases
{
    if p.len() == 0 {
        Some(input)
    } else {
        match spec_next_token(p) {
            Err(_) => None,
            Ok(None) => Some(input),
            Ok(Some((tok, rest))) => match tok.kind {
                SpecKind::StartAnchor => spec_core(rest, input),
                SpecKind::EndAnchor => if input.len() == 0 {
                    Some(input)
                } else {
                    None
                },
                SpecKind::Group(alts) => spec_group(alts, input, rest, tok.quant),
                _ => match tok.quant {
                    Quantifier::One => if input.len() > 0 && spec_char_matches(
                        tok.kind,
                        input[0],
                    ) {
                        spec_core(rest, input.skip(1))
                    } else {
                        None
                    },
                    Quantifier::ZeroOrOne => if input.len() > 0 && spec_char_matches(
                        tok.kind,
                        input[0],
                    ) && spec_core(rest, input.skip(1)) is Some {
                        spec_core(rest, input.skip(1))
                    } else {
                        spec_core(rest, input)
                    },
                    Quantifier::OneOrMore => {
                        let run = spec_run_len(tok.kind, input);
                        if run == 0 {
                            None
                        } else {
                            spec_try_runs(rest, input, run as int)
                        }
                    },
                },
            },
        }
    }
}

#[via_fn]
proof fn spec_core_decreases(p: Seq<char>, input: Seq<char>) {
    if p.len() > 0 {
        crate::pattern_type::lemma_token_size(p);
    }
}

/// Try continuing with `rest` after a one-or-more token consumed `n`
/// characters, backing off one character at a time: the result for the
/// largest successful consumption in `n, n - 1, ..., 1`.
pub open spec fn spec_try_runs(rest: Seq<char>, input: Seq<char>, n: int) -> Option<Seq<char>>
    decreases input.len(), rest.len() + 1, 1int, n,
{
    if n < 1 || n > input.len() {
        None
    } else if spec_core(rest, input.skip(n)) is Some {
        spec_core(rest, input.skip(n))
    } else {
        spec_try_runs(rest, input, n - 1)
    }
}

/// The outcome of matching a group with the given quantifier, followed
/// by the pattern remainder `rest`.
pub open spec fn spec_group(
    alts: Seq<Seq<char>>,
    input: Seq<char>,
    rest: Seq<char>,
    quant: Quantifier,
) -> Option<Seq<char>>
    decreases input.len(), alts_total(alts) + rest.len() + 1, 2int, 0int,
{
    match quant {
        Quantifier::One => spec_group_once(alts, 0, input, rest),
        Quantifier::ZeroOrOne => if spec_group_once(alts, 0, input, rest) is Some {
            spec_group_once(alts, 0, input, rest)
        } else {
            spec_core(rest, input)
        },
        Quantifier::OneOrMore => {
            let ps = spec_collect_group(alts, input);
            if ps.len() == 0 {
                None
            } else {
                spec_try_positions(rest, ps, ps.len() - 1, input)
            }
        },
    }
}

/// Match the group exactly once, trying alternatives from index `j` in
/// source order.  An alternative that matches but whose continuation
/// with `rest` fails causes the next alternative to be tried.
pub open spec fn spec_group_once(
    alts: Seq<Seq<char>>,
    j: int,
    input: Seq<char>,
    rest: Seq<char>,
) -> Option<Seq<char>>
    decreases input.len(), alts_total(alts) + rest.len() + 1, 0int, alts.len() - j,
    via spec_group_once_decreases
{
    if j < 0 || j >= alts.len() {
        None
    } else {
        match spec_core(alts[j], input) {
            Some(rem) => if rem.len() <= input.len() && spec_core(rest, rem) is Some {
                spec_core(rest, rem)
            } else {
                spec_group_once(alts, j + 1, input, rest)
            },
            None => spec_group_once(alts, j + 1, input, rest),
        }
    }
}

#[via_fn]
proof fn spec_group_once_decreases(alts: Seq<Seq<char>>, j: int, input: Seq<char>, rest: Seq<char>) {
    if 0 <= j < alts.len() {
        lemma_elem_le_total(alts, j);
    }
}

/// The remainder left by the first alternative, from index `j` on, that
/// matches at `input`; `None` when none matches.
pub open spec fn spec_first_alt(alts: Seq<Seq<char>>, j: int, input: Seq<char>) -> Option<Seq<char>>
    decreases input.len(), alts_total(alts) + 1, 0int, alts.len() - j,
    via spec_first_alt_decreases
{
    if j < 0 || j >= alts.len() {
        None
    } else {
        match spec_core(alts[j], input) {
            Some(rem) => Some(rem),
            None => spec_first_alt(alts, j + 1, input),
        }
    }
}

#[via_fn]
proof fn spec_first_alt_decreases(alts: Seq<Seq<char>>, j: int, input: Seq<char>) {
    if 0 <= j < alts.len() {
        lemma_elem_le_total(alts, j);
    }
}

/// The stopping positions left by matching the group one, two, three,
/// ... times from `pos`, in that order.  Collection stops at the end of
/// the input and also when an iteration consumes nothing, since further
/// iterations could only repeat that same position.
pub open spec fn spec_collect_group(alts: Seq<Seq<char>>, pos: Seq<char>) -> Seq<Seq<char>>
    decreases pos.len(), alts_total(alts) + 1, 1int, 0int,
{
    match spec_first_alt(alts, 0, pos) {
        None => Seq::empty(),
        Some(rem) => if rem.len() == 0 || rem.len() >= pos.len() {
            seq![rem]
        } else {
            seq![rem] + spec_collect_group(alts, rem)
        },
    }
}

/// Try continuing with `rest` at each collected stopping position,
/// greediest (last collected) first: the result for the latest position
/// in `ps[k], ps[k - 1], ..., ps[0]` whose continuation succeeds.
pub open spec fn spec_try_positions(
    rest: Seq<char>,
    ps: Seq<Seq<char>>,
    k: int,
    input: Seq<char>,
) -> Option<Seq<char>>
    decreases input.len(), rest.len() + 1, 1int, k + 1,
{
    if k < 0 || k >= ps.len() {
        None
    } else if ps[k].len() <= input.len() && spec_core(rest, ps[k]) is Some {
        spec_core(rest, ps[k])
    } else {
        spec_try_positions(rest, ps, k - 1, input)
    }
}

/// Result of trying to match a pattern at one position: on success,
/// `remaining_input` is the unconsumed suffix; on failure it is
/// meaningless.
pub struct MatchResult<'a> {
    pub success: bool,
    pub remaining_input: &'a [char],
}

impl<'a> View for MatchResult<'a> {
    type V = Option<Seq<char>>;

    open spec fn view(&self) -> Option<Seq<char>> {
        if self.success {
            Some(self.remaining_input@)
        } else {
            None
        }
    }
}

impl<'a> MatchResult<'a> {
    fn success(remaining: &'a [char]) -> (r: Self)
        ensures
            r@ == Some(remaining@),
    {
        MatchResult { success: true, remaining_input: remaining }
    }

    fn failure(at: &'a [char]) -> (r: Self)
        ensures
            r@ is None,
    {
        MatchResult { success: false, remaining_input: at }
    }
}

/// Whether one character satisfies a token kind.
fn char_matches(kind: &PatternType, ch: char) -> (b: bool)
    ensures
        b == spec_char_matches(kind@, ch),
{
    match kind {
        PatternType::Any => true,
        PatternType::Digit => ch as u32 >= '0' as u32 && ch as u32 <= '9' as u32,
        PatternType::Word => char_is_alphanumeric(ch) || ch == '_',
        PatternType::Literal(c) => *c == ch,
        PatternType::CharClass(chars) => class_contains(chars, ch),
        PatternType::NegClass(chars) => !class_contains(chars, ch),
        PatternType::StartAnchor => false,
        PatternType::EndAnchor => false,
        PatternType::Group(_) => false,
    }
}

/// Whether a character class lists `ch`.
fn class_contains(chars: &Vec<char>, ch: char) -> (b: bool)
    ensures
        b == chars@.contains(ch),
{
    let mut i: usize = 0;
    while i < chars.len()
        invariant
            0 <= i <= chars@.len(),
            forall|k: int| 0 <= k < i ==> chars@[k] != ch,
        decreases chars@.len() - i,
    {
        if chars[i] == ch {
            return true;
        }
        i = i + 1;
    }
    false
}

/// Core matching function: try `pattern` at the current position of
/// `input` only, returning the unconsumed suffix on success.
fn match_pattern_core<'a>(pattern: &[char], input: &'a [char]) -> (r: MatchResult<'a>)
    requires
        valid_pattern(pattern@),
    ensures
        r@ == spec_core(pattern@, input@),
        r.success ==> r.remaining_input@.len() <= input@.len(),
    decreases input@.len(), pattern@.len(), 4int,
{
    if pattern.len() == 0 {
        return MatchResult::success(input);
    }
    proof {
        lemma_valid_token(pattern@);
    }
    let (token, rest_pattern) = match get_next_token(pattern) {
        Ok(Some(tr)) => tr,
        _ => {
            return vstd::pervasive::unreached();
        },
    };
    match &token.kind {
        PatternType::StartAnchor => match_pattern_core(rest_pattern, input),
        PatternType::EndAnchor => {
            if input.len() == 0 {
                MatchResult::success(input)
            } else {
                MatchResult::failure(input)
            }
        },
        PatternType::Group(alternatives) => {
            match_group_core(alternatives, input, rest_pattern, &token.quant)
        },
        _ => {
            match token.quant {
                Quantifier::One => match_token_once(&token.kind, input, rest_pattern),
                Quantifier::OneOrMore => match_token_one_or_more(&token.kind, input, rest_pattern),
                Quantifier::ZeroOrOne => match_token_zero_or_one(&token.kind, input, rest_pattern),
            }
        },
    }
}

/// Match a single-character token exactly once, then the pattern
/// remainder.
fn match_token_once<'a>(kind: &PatternType, input: &'a [char], rest_pattern: &[char]) -> (r:
    MatchResult<'a>)
    requires
        valid_pattern(rest_pattern@),
    ensures
        r@ == (if input@.len() > 0 && spec_char_matches(kind@, input@[0]) {
            spec_core(rest_pattern@, input@.skip(1))
        } else {
            None
        }),
        r.success ==> r.remaining_input@.len() <= input@.len(),
    decreases input@.len(), rest_pattern@.len(), 1int,
{
    if input.len() == 0 {
        return MatchResult::failure(input);
    }
    let ch = input[0];
    if char_matches(kind, ch) {
        let remaining = &input[1..input.len()];
        proof {
            assert(remaining@ =~= input@.skip(1));
        }
        match_pattern_core(rest_pattern, remaining)
    } else {
        MatchResult::failure(input)
    }
}

/// Match a single-character token zero or one time (`?`): greedily try
/// the one-match path, and fall back to consuming nothing when the rest
/// of the pattern then fails.
fn match_token_zero_or_one<'a>(kind: &PatternType, input: &'a [char], rest_pattern: &[char]) -> (r:
    MatchResult<'a>)
    requires
        valid_pattern(rest_pattern@),
    ensures
        r@ == (if input@.len() > 0 && spec_char_matches(kind@, input@[0]) && spec_core(
            rest_pattern@,
            input@.skip(1),
        ) is Some {
            spec_core(rest_pattern@, input@.skip(1))
        } else {
            spec_core(rest_pattern@, input@)
        }),
        r.success ==> r.remaining_input@.len() <= input@.len(),
    decreases input@.len(), rest_pattern@.len() + 1, 1int,
{
    if input.len() > 0 {
        let ch = input[0];
        if char_matches(kind, ch) {
            let remaining = &input[1..input.len()];
            proof {
                assert(remaining@ =~= input@.skip(1));
            }
            let result = match_pattern_core(rest_pattern, remaining);
            if result.success {
                return result;
            }
        }
    }
    match_pattern_core(rest_pattern, input)
}

/// Match a single-character token one or more times (`+`): consume the
/// maximal run, then back off one character at a time until the rest of
/// the pattern succeeds.
fn match_token_one_or_more<'a>(kind: &PatternType, input: &'a [char], rest_pattern: &[char]) -> (r:
    MatchResult<'a>)
    requires
        valid_pattern(rest_pattern@),
    ensures
        r@ == ({
            let run = spec_run_len(kind@, input@);
            if run == 0 {
                None
            } else {
                spec_try_runs(rest_pattern@, input@, run as int)
            }
        }),
        r.success ==> r.remaining_input@.len() <= input@.len(),
    decreases input@.len(), rest_pattern@.len() + 1, 1int,
{
    let positions = collect_quantifier_positions(kind, input);
    if positions.len() == 0 {
        return MatchResult::failure(input);
    }
    let ghost run = spec_run_len(kind@, input@);
    let mut idx: usize = positions.len();
    loop
        invariant
            valid_pattern(rest_pattern@),
            0 <= idx <= positions@.len(),
            positions@.len() == run,
            run >= 1,
            run == spec_run_len(kind@, input@),
            run <= input@.len(),
            forall|k: int| 0 <= k < positions@.len() ==> positions@[k]@ == input@.skip(k + 1),
            spec_try_runs(rest_pattern@, input@, run as int) == spec_try_runs(
                rest_pattern@,
                input@,
                idx as int,
            ),
        decreases idx,
    {
        if idx == 0 {
            return MatchResult::failure(input);
        }
        idx = idx - 1;
        let pos = positions[idx];
        let result = match_pattern_core(rest_pattern, pos);
        proof {
            assert(pos@ == input@.skip(idx + 1));
            assert(spec_try_runs(rest_pattern@, input@, idx as int + 1) == (if spec_core(
                rest_pattern@,
                input@.skip(idx + 1),
            ) is Some {
                spec_core(rest_pattern@, input@.skip(idx + 1))
            } else {
                spec_try_runs(rest_pattern@, input@, idx as int)
            }));
        }
        if result.success {
            return result;
        }
    }
}

/// All stopping positions after consuming 1, 2, ... matching characters
/// from the front of `input`, in that order.
fn collect_quantifier_positions<'a>(kind: &PatternType, input: &'a [char]) -> (positions: Vec<
    &'a [char],
>)
    ensures
        positions@.len() == spec_run_len(kind@, input@),
        positions@.len() <= input@.len(),
        forall|k: int| 0 <= k < positions@.len() ==> positions@[k]@ == input@.skip(k + 1),
{
    let mut positions: Vec<&[char]> = Vec::new();
    let mut i: usize = 0;
    loop
        invariant
            0 <= i <= input@.len(),
            positions@.len() == i as int,
            forall|k: int| 0 <= k < i ==> spec_char_matches(kind@, input@[k]),
            forall|k: int| 0 <= k < i ==> positions@[k]@ == input@.skip(k + 1),
        ensures
            0 <= i <= input@.len(),
            positions@.len() == i as int,
            forall|k: int| 0 <= k < i ==> spec_char_matches(kind@, input@[k]),
            forall|k: int| 0 <= k < i ==> positions@[k]@ == input@.skip(k + 1),
            i == input@.len() || !spec_char_matches(kind@, input@[i as int]),
        decreases input@.len() - i,
    {
        if i >= input.len() {
            break;
        }
        if !char_matches(kind, input[i]) {
            break;
        }
        let next_pos = &input[i + 1..input.len()];
        proof {
            assert(next_pos@ =~= input@.skip(i + 1));
        }
        positions.push(next_pos);
        i = i + 1;
    }
    proof {
        lemma_run_len_chars(kind@, input@, i as int);
    }
    positions
}

/// The run length equals any count of leading matching characters that
/// stops at the end of the input or at a non-matching character.
proof fn lemma_run_len_chars(kind: SpecKind, s: Seq<char>, n: int)
    requires
        0 <= n <= s.len(),
        forall|k: int| 0 <= k < n ==> spec_char_matches(kind, s[k]),
        n == s.len() || !spec_char_matches(kind, s[n]),
    ensures
        spec_run_len(kind, s) == n,
    decreases n,
{
    if n == 0 {
    } else {
        assert(spec_char_matches(kind, s[0]));
        lemma_run_len_chars(kind, s.skip(1), n - 1);
    }
}

/// Match a group with its quantifier, then the pattern remainder.
fn match_group_core<'a>(
    alternatives: &Vec<Vec<char>>,
    input: &'a [char],
    rest_pattern: &[char],
    quant: &Quantifier,
) -> (r: MatchResult<'a>)
    requires
        forall|k: int|
            0 <= k < alternatives.deep_view().len() ==> valid_pattern(
                #[trigger] alternatives.deep_view()[k],
            ),
        valid_pattern(rest_pattern@),
    ensures
        r@ == spec_group(alternatives.deep_view(), input@, rest_pattern@, *quant),
        r.success ==> r.remaining_input@.len() <= input@.len(),
    decreases input@.len(), alts_total(alternatives.deep_view()) + rest_pattern@.len() + 1, 3int,
{
    match quant {
        Quantifier::One => match_group_once(alternatives, input, rest_pattern),
        Quantifier::OneOrMore => match_group_one_or_more(alternatives, input, rest_pattern),
        Quantifier::ZeroOrOne => match_group_zero_or_one(alternatives, input, rest_pattern),
    }
}

/// Match a group exactly once: the first alternative, in source order,
/// that matches and whose continuation with the pattern remainder also
/// succeeds, wins.
fn match_group_once<'a>(alternatives: &Vec<Vec<char>>, input: &'a [char], rest_pattern: &[char]) -> (r:
    MatchResult<'a>)
    requires
        forall|k: int|
            0 <= k < alternatives.deep_view().len() ==> valid_pattern(
                #[trigger] alternatives.deep_view()[k],
            ),
        valid_pattern(rest_pattern@),
    ensures
        r@ == spec_group_once(alternatives.deep_view(), 0, input@, rest_pattern@),
        r.success ==> r.remaining_input@.len() <= input@.len(),
    decreases input@.len(), alts_total(alternatives.deep_view()) + rest_pattern@.len() + 1, 0int,
{
    let ghost dalts = alternatives.deep_view();
    let mut j: usize = 0;
    while j < alternatives.len()
        invariant
            forall|k: int| 0 <= k < dalts.len() ==> valid_pattern(#[trigger] dalts[k]),
            valid_pattern(rest_pattern@),
            dalts == alternatives.deep_view(),
            dalts.len() == alternatives@.len(),
            0 <= j <= alternatives@.len(),
            spec_group_once(dalts, 0, input@, rest_pattern@) == spec_group_once(
                dalts,
                j as int,
                input@,
                rest_pattern@,
            ),
        decreases alternatives@.len() - j,
    {
        proof {
            assert(dalts[j as int] =~= alternatives@[j as int]@);
            lemma_elem_le_total(dalts, j as int);
        }
        let result = match_pattern_core(alternatives[j].as_slice(), input);
        if result.success {
            let final_result = match_pattern_core(rest_pattern, result.remaining_input);
            if final_result.success {
                return final_result;
            }
        }
        j = j + 1;
    }
    MatchResult::failure(input)
}

/// Match a group zero or one time (`?`): greedily try the one-match
/// path, and fall back to consuming nothing when the rest of the
/// pattern then fails.
fn match_group_zero_or_one<'a>(
    alternatives: &Vec<Vec<char>>,
    input: &'a [char],
    rest_pattern: &[char],
) -> (r: MatchResult<'a>)
    requires
        forall|k: int|
            0 <= k < alternatives.deep_view().len() ==> valid_pattern(
                #[trigger] alternatives.deep_view()[k],
            ),
        valid_pattern(rest_pattern@),
    ensures
        r@ == (if spec_group_once(alternatives.deep_view(), 0, input@, rest_pattern@) is Some {
            spec_group_once(alternatives.deep_view(), 0, input@, rest_pattern@)
        } else {
            spec_core(rest_pattern@, input@)
        }),
        r.success ==> r.remaining_input@.len() <= input@.len(),
    decreases input@.len(), alts_total(alternatives.deep_view()) + rest_pattern@.len() + 1, 2int,
{
    let once_result = match_group_once(alternatives, input, rest_pattern);
    if once_result.success {
        return once_result;
    }
    match_pattern_core(rest_pattern, input)
}

/// Match a group one or more times (`+`): collect the stopping
/// positions of repeated group matches, then back off from the
/// greediest one until the rest of the pattern succeeds.
fn match_group_one_or_more<'a>(
    alternatives: &Vec<Vec<char>>,
    input: &'a [char],
    rest_pattern: &[char],
) -> (r: MatchResult<'a>)
    requires
        forall|k: int|
            0 <= k < alternatives.deep_view().len() ==> valid_pattern(
                #[trigger] alternatives.deep_view()[k],
            ),
        valid_pattern(rest_pattern@),
    ensures
        r@ == ({
            let ps = spec_collect_group(alternatives.deep_view(), input@);
            if ps.len() == 0 {
                None
            } else {
                spec_try_positions(rest_pattern@, ps, ps.len() - 1, input@)
            }
        }),
        r.success ==> r.remaining_input@.len() <= input@.len(),
    decreases input@.len(), alts_total(alternatives.deep_view()) + rest_pattern@.len() + 1, 2int,
{
    let ghost ps = spec_collect_group(alternatives.deep_view(), input@);
    let positions = collect_group_positions(alternatives, input);
    if positions.len() == 0 {
        return MatchResult::failure(input);
    }
    let mut idx: usize = positions.len();
    loop
        invariant
            valid_pattern(rest_pattern@),
            ps == spec_collect_group(alternatives.deep_view(), input@),
            positions@.len() == ps.len(),
            forall|k: int|
                0 <= k < ps.len() ==> positions@[k]@ == ps[k] && #[trigger] ps[k].len()
                    <= input@.len(),
            0 <= idx <= positions@.len(),
            positions@.len() > 0,
            spec_try_positions(rest_pattern@, ps, ps.len() - 1, input@) == spec_try_positions(
                rest_pattern@,
                ps,
                idx as int - 1,
                input@,
            ),
        decreases idx,
    {
        if idx == 0 {
            return MatchResult::failure(input);
        }
        idx = idx - 1;
        let pos = positions[idx];
        let result = match_pattern_core(rest_pattern, pos);
        if result.success {
            return result;
        }
    }
}

/// The remainder left by the first alternative, in source order, that
/// matches at `input`.
fn first_alt_match<'a>(alternatives: &Vec<Vec<char>>, input: &'a [char]) -> (r: Option<&'a [char]>)
    requires
        forall|k: int|
            0 <= k < alternatives.deep_view().len() ==> valid_pattern(
                #[trigger] alternatives.deep_view()[k],
            ),
    ensures
        match r {
            Some(rem) => spec_first_alt(alternatives.deep_view(), 0, input@) == Some(rem@)
                && rem@.len() <= input@.len(),
            None => spec_first_alt(alternatives.deep_view(), 0, input@) is None,
        },
    decreases input@.len(), alts_total(alternatives.deep_view()) + 1, 0int,
{
    let ghost dalts = alternatives.deep_view();
    let mut j: usize = 0;
    while j < alternatives.len()
        invariant
            forall|k: int| 0 <= k < dalts.len() ==> valid_pattern(#[trigger] dalts[k]),
            dalts == alternatives.deep_view(),
            dalts.len() == alternatives@.len(),
            0 <= j <= alternatives@.len(),
            spec_first_alt(dalts, 0, input@) == spec_first_alt(dalts, j as int, input@),
        decreases alternatives@.len() - j,
    {
        proof {
            assert(dalts[j as int] =~= alternatives@[j as int]@);
            lemma_elem_le_total(dalts, j as int);
        }
        let result = match_pattern_core(alternatives[j].as_slice(), input);
        if result.success {
            return Some(result.remaining_input);
        }
        j = j + 1;
    }
    None
}

/// All stopping positions of repeated group matches from `input`, in
/// the order they are reached.  Collection stops at the end of the
/// input and when an iteration consumes nothing.
fn collect_group_positions<'a>(alternatives: &Vec<Vec<char>>, input: &'a [char]) -> (positions: Vec<
    &'a [char],
>)
    requires
        forall|k: int|
            0 <= k < alternatives.deep_view().len() ==> valid_pattern(
                #[trigger] alternatives.deep_view()[k],
            ),
    ensures
        ({
            let ps = spec_collect_group(alternatives.deep_view(), input@);
            positions@.len() == ps.len() && forall|k: int|
                0 <= k < ps.len() ==> positions@[k]@ == ps[k] && #[trigger] ps[k].len()
                    <= input@.len()
        }),
    decreases input@.len(), alts_total(alternatives.deep_view()) + 1, 1int,
{
    let ghost dalts = alternatives.deep_view();
    let mut positions: Vec<&[char]> = Vec::new();
    let ghost mut gps: Seq<Seq<char>> = Seq::empty();
    let mut current_pos: &[char] = input;
    proof {
        assert(gps + spec_collect_group(dalts, input@) =~~= spec_collect_group(dalts, input@));
    }
    loop
        invariant
            forall|k: int| 0 <= k < dalts.len() ==> valid_pattern(#[trigger] dalts[k]),
            dalts == alternatives.deep_view(),
            positions@.len() == gps.len(),
            forall|k: int|
                0 <= k < gps.len() ==> positions@[k]@ == gps[k] && #[trigger] gps[k].len()
                    <= input@.len(),
            current_pos@.len() <= input@.len(),
            spec_collect_group(dalts, input@) == gps + spec_collect_group(dalts, current_pos@),
        decreases current_pos@.len(),
    {
        let found = first_alt_match(alternatives, current_pos);
        match found {
            None => {
                proof {
                    assert(spec_collect_group(dalts, current_pos@) =~~= Seq::<Seq<char>>::empty());
                    assert(spec_collect_group(dalts, input@) =~~= gps);
                }
                return positions;
            },
            Some(rem) => {
                let ghost old_gps = gps;
                positions.push(rem);
                proof {
                    gps = gps.push(rem@);
                    assert(gps =~~= old_gps + seq![rem@]);
                }
                if rem.len() == 0 || rem.len() >= current_pos.len() {
                    proof {
                        assert(spec_collect_group(dalts, current_pos@) == seq![rem@]);
                        assert(spec_collect_group(dalts, input@) =~~= gps);
                    }
                    return positions;
                }
                proof {
                    assert(spec_collect_group(dalts, current_pos@) == seq![rem@]
                        + spec_collect_group(dalts, rem@));
                    assert(old_gps + (seq![rem@] + spec_collect_group(dalts, rem@)) =~~= gps
                        + spec_collect_group(dalts, rem@));
                }
                current_pos = rem;
            },
        }
    }
}

/// A well-formed pattern matched here: the whole-pattern outcome as the
/// caller of `match_pattern_here` sees it.
pub open spec fn spec_match_here(p: Seq<char>, text: Seq<char>) -> Result<bool, ParseError> {
    match spec_validate(p) {
        Err(e) => Err(e),
        Ok(_) => Ok(spec_core(p, text) is Some),
    }
}

/// Whether `p` matches at some start position of `text`.
pub open spec fn spec_search(p: Seq<char>, text: Seq<char>) -> bool
    decreases text.len(),
{
    spec_core(p, text) is Some || (text.len() > 0 && spec_search(p, text.skip(1)))
}

/// The whole-pattern outcome as the caller of `match_pattern` sees it:
/// a pattern starting with `^` is matched at the start only; any other
/// pattern is searched across every start position.
pub open spec fn spec_match(p: Seq<char>, text: Seq<char>) -> Result<bool, ParseError> {
    if p.len() > 0 && p[0] == '^' {
        match spec_validate(p.skip(1)) {
            Err(e) => Err(e),
            Ok(_) => Ok(spec_core(p.skip(1), text) is Some),
        }
    } else {
        match spec_validate(p) {
            Err(e) => Err(e),
            Ok(_) => Ok(spec_search(p, text)),
        }
    }
}

/// The characters of a string, in order.
fn to_char_vec(s: &str) -> (v: Vec<char>)
    ensures
        v@ == s@,
{
    let n = s.unicode_len();
    let mut v: Vec<char> = Vec::new();
    let mut i: usize = 0;
    while i < n
        invariant
            0 <= i <= n,
            n == s@.len(),
            v@.len() == i as int,
            forall|k: int| 0 <= k < i ==> v@[k] == s@[k],
        decreases n - i,
    {
        let c = s.get_char(i);
        v.push(c);
        i = i + 1;
    }
    proof {
        assert(v@ =~= s@);
    }
    v
}

/// Try to match `pattern` at the start of `input` only.  Returns the
/// malformed-pattern error instead of a match result when the pattern
/// is not well formed.
pub fn match_pattern_here(pattern: &str, input: &str) -> (r: Result<bool, ParseError>)
    ensures
        r == spec_match_here(pattern@, input@),
{
    let p = to_char_vec(pattern);
    let text = to_char_vec(input);
    match validate_pattern(p.as_slice()) {
        Err(e) => Err(e),
        Ok(_) => {
            let m = match_pattern_core(p.as_slice(), text.as_slice());
            Ok(m.success)
        },
    }
}

/// Top-level search: a pattern beginning with `^` is matched at the
/// start of `input` only; otherwise the attempt slides across every
/// start position, one character at a time, until a match is found or
/// the input is exhausted.  Returns the malformed-pattern error instead
/// of a match result when the pattern is not well formed.
pub fn match_pattern(pattern: &str, input: &str) -> (r: Result<bool, ParseError>)
    ensures
        r == spec_match(pattern@, input@),
{
    let p = to_char_vec(pattern);
    let text = to_char_vec(input);
    if p.len() > 0 && p[0] == '^' {
        let tail = &p.as_slice()[1..p.len()];
        proof {
            assert(tail@ =~= pattern@.skip(1));
        }
        match validate_pattern(tail) {
            Err(e) => Err(e),
            Ok(_) => {
                let m = match_pattern_core(tail, text.as_slice());
                Ok(m.success)
            },
        }
    } else {
        match validate_pattern(p.as_slice()) {
            Err(e) => Err(e),
            Ok(_) => {
                let n = text.len();
                let mut start: usize = 0;
                proof {
                    assert(text@.skip(0) =~= text@);
                }
                loop
                    invariant
                        valid_pattern(p@),
                        p@ == pattern@,
                        text@ == input@,
                        p@.len() == 0 || p@[0] != '^',
                        n == text@.len(),
                        0 <= start <= n,
                        spec_search(p@, text@) == spec_search(p@, text@.skip(start as int)),
                    decreases n - start,
                {
                    let suffix = &text.as_slice()[start..n];
                    proof {
                        assert(suffix@ =~= text@.skip(start as int));
                    }
                    let m = match_pattern_core(p.as_slice(), suffix);
                    if m.success {
                        return Ok(true);
                    }
                    if start == n {
                        return Ok(false);
                    }
                    proof {
                        assert(text@.skip(start as int).skip(1) =~= text@.skip(start + 1));
                    }
                    start = start + 1;
                }
            },
        }
    }
}

} // verus!
