//! Laws of the search driver, proved once and for all inputs.
//!
//! Each lemma here relates `match_pattern`'s outcome, as stated by
//! `spec_match`, to a direct description of the text: a one-token
//! pattern matches somewhere in the text exactly when some character of
//! the text satisfies the token.

use vstd::prelude::*;
use crate::pattern_matching::{
    is_digit_char, is_word_char, spec_char_matches, spec_core, spec_match, spec_search,
};
use crate::pattern_type::{
    lemma_find_from_at, spec_base_kind, spec_next_token, spec_validate, ParseError, Quantifier,
    SpecKind, SpecToken,
};

verus! {

/// A pattern consisting of one single-character token (no anchor, no
/// group, no quantifier) is found somewhere in `t` exactly when some
/// character of `t` satisfies the token.
pub proof fn lemma_search_single_token(p: Seq<char>, kind: SpecKind, t: Seq<char>)
    requires
        spec_next_token(p) == Ok::<Option<(SpecToken, Seq<char>)>, ParseError>(
            Some((SpecToken { kind, quant: Quantifier::One }, Seq::<char>::empty())),
        ),
        !(kind is StartAnchor),
        !(kind is EndAnchor),
        !(kind is Group),
    ensures
        spec_search(p, t) == (exists|i: int|
            0 <= i < t.len() && spec_char_matches(kind, #[trigger] t[i])),
    decreases t.len(),
{
    assert(p.len() > 0);
    let has = exists|i: int| 0 <= i < t.len() && spec_char_matches(kind, #[trigger] t[i]);
    if t.len() == 0 {
        assert(spec_core(p, t) is None);
        assert(!spec_search(p, t));
        assert(!has);
    } else {
        lemma_search_single_token(p, kind, t.skip(1));
        let tail = t.skip(1);
        let has_tail = exists|i: int|
            0 <= i < tail.len() && spec_char_matches(kind, #[trigger] tail[i]);
        if spec_char_matches(kind, t[0]) {
            assert(spec_core(p, t) == spec_core(Seq::<char>::empty(), t.skip(1)));
            assert(spec_core(p, t) is Some);
            assert(spec_search(p, t));
            assert(has);
        } else {
            assert(spec_core(p, t) is None);
            assert(spec_search(p, t) == spec_search(p, tail));
            if has_tail {
                let j = choose|j: int|
                    0 <= j < tail.len() && spec_char_matches(kind, #[trigger] tail[j]);
                assert(tail[j] == t[j + 1]);
                assert(has);
            }
            if has {
                let i = choose|i: int|
                    0 <= i < t.len() && spec_char_matches(kind, #[trigger] t[i]);
                assert(i > 0);
                assert(tail[i - 1] == t[i]);
                assert(has_tail);
            }
        }
    }
}

/// Unanchored search means exactly: the pattern matches at some start
/// position of the text.
pub proof fn lemma_search_positions(p: Seq<char>, t: Seq<char>)
    ensures
        spec_search(p, t) == (exists|k: int|
            0 <= k <= t.len() && spec_core(p, #[trigger] t.skip(k)) is Some),
    decreases t.len(),
{
    assert(t.skip(0) =~= t);
    let rhs = exists|k: int| 0 <= k <= t.len() && spec_core(p, #[trigger] t.skip(k)) is Some;
    if t.len() == 0 {
        if rhs {
            let k = choose|k: int| 0 <= k <= t.len() && spec_core(p, #[trigger] t.skip(k)) is Some;
            assert(t.skip(k) =~= t);
        }
    } else {
        lemma_search_positions(p, t.skip(1));
        let tail = t.skip(1);
        let rhs_tail = exists|k: int|
            0 <= k <= tail.len() && spec_core(p, #[trigger] tail.skip(k)) is Some;
        if spec_core(p, t) is Some {
            assert(spec_core(p, t.skip(0)) is Some);
            assert(rhs);
        } else {
            if rhs_tail {
                let k2 = choose|k: int|
                    0 <= k <= tail.len() && spec_core(p, #[trigger] tail.skip(k)) is Some;
                assert(tail.skip(k2) =~= t.skip(k2 + 1));
                assert(spec_core(p, t.skip(k2 + 1)) is Some);
                assert(rhs);
            }
            if rhs {
                let k = choose|k: int|
                    0 <= k <= t.len() && spec_core(p, #[trigger] t.skip(k)) is Some;
                assert(k > 0);
                assert(tail.skip(k - 1) =~= t.skip(k));
                assert(spec_core(p, tail.skip(k - 1)) is Some);
                assert(rhs_tail);
            }
        }
    }
}

/// A single literal character `c` matches a text exactly when the text
/// contains `c`.  The characters that open another construct (`^`, `$`,
/// `(`, `[`, `.`) are not literals and are left out.
pub proof fn lemma_matches_literal(c: char, t: Seq<char>)
    requires
        c != '^',
        c != '$',
        c != '(',
        c != '[',
        c != '.',
    ensures
        spec_match(seq![c], t) == Ok::<bool, ParseError>(t.contains(c)),
{
    let p = seq![c];
    assert(p.len() == 1 && p[0] == c);
    assert(p.skip(1) =~= Seq::<char>::empty());
    assert(spec_next_token(p) == Ok::<Option<(SpecToken, Seq<char>)>, ParseError>(
        Some((SpecToken { kind: SpecKind::Literal(c), quant: Quantifier::One }, Seq::<
            char,
        >::empty())),
    ));
    assert(spec_validate(Seq::<char>::empty()) is Ok);
    assert(spec_validate(p) is Ok);
    lemma_search_single_token(p, SpecKind::Literal(c), t);
    assert((exists|i: int| 0 <= i < t.len() && spec_char_matches(SpecKind::Literal(c), #[trigger] t[i]))
        == t.contains(c)) by {
        if exists|i: int|
            0 <= i < t.len() && spec_char_matches(SpecKind::Literal(c), #[trigger] t[i]) {
            let i = choose|i: int|
                0 <= i < t.len() && spec_char_matches(SpecKind::Literal(c), #[trigger] t[i]);
            assert(t[i] == c);
            assert(t.contains(c));
        }
        if t.contains(c) {
            let i = choose|i: int| 0 <= i < t.len() && t[i] == c;
            assert(spec_char_matches(SpecKind::Literal(c), t[i]));
        }
    }
}

/// `\d` matches a text exactly when the text contains an ASCII digit.
pub proof fn lemma_matches_digit(t: Seq<char>)
    ensures
        spec_match(seq!['\\', 'd'], t) == Ok::<bool, ParseError>(
            exists|i: int| 0 <= i < t.len() && is_digit_char(#[trigger] t[i]),
        ),
{
    let p = seq!['\\', 'd'];
    assert(p.len() == 2 && p[0] == '\\' && p[1] == 'd');
    assert(p.skip(2) =~= Seq::<char>::empty());
    assert(spec_next_token(p) == Ok::<Option<(SpecToken, Seq<char>)>, ParseError>(
        Some((SpecToken { kind: SpecKind::Digit, quant: Quantifier::One }, Seq::<char>::empty())),
    ));
    assert(spec_validate(Seq::<char>::empty()) is Ok);
    assert(spec_validate(p) is Ok);
    lemma_search_single_token(p, SpecKind::Digit, t);
}

/// `\w` matches a text exactly when the text contains an alphanumeric
/// character or underscore.
pub proof fn lemma_matches_word(t: Seq<char>)
    ensures
        spec_match(seq!['\\', 'w'], t) == Ok::<bool, ParseError>(
            exists|i: int| 0 <= i < t.len() && is_word_char(#[trigger] t[i]),
        ),
{
    let p = seq!['\\', 'w'];
    assert(p.len() == 2 && p[0] == '\\' && p[1] == 'w');
    assert(p.skip(2) =~= Seq::<char>::empty());
    assert(spec_next_token(p) == Ok::<Option<(SpecToken, Seq<char>)>, ParseError>(
        Some((SpecToken { kind: SpecKind::Word, quant: Quantifier::One }, Seq::<char>::empty())),
    ));
    assert(spec_validate(Seq::<char>::empty()) is Ok);
    assert(spec_validate(p) is Ok);
    lemma_search_single_token(p, SpecKind::Word, t);
}

/// `[...]` matches a text exactly when the text contains one of the
/// listed characters.  The list must not hold `]` (which would end the
/// class early) and must not begin with `^` (which would negate it).
pub proof fn lemma_matches_char_class(cs: Seq<char>, t: Seq<char>)
    requires
        !cs.contains(']'),
        cs.len() == 0 || cs[0] != '^',
    ensures
        spec_match(seq!['['] + cs + seq![']'], t) == Ok::<bool, ParseError>(
            exists|i: int| 0 <= i < t.len() && cs.contains(#[trigger] t[i]),
        ),
{
    let p = seq!['['] + cs + seq![']'];
    let e = cs.len() as int + 1;
    assert(p.len() == cs.len() + 2);
    assert(p[0] == '[');
    assert(p[e] == ']');
    assert(forall|k: int| 0 <= k < cs.len() ==> p[k + 1] == #[trigger] cs[k]);
    assert forall|k: int| 0 <= k < e implies p[k] != ']' by {
        if k > 0 {
            assert(p[k] == cs[k - 1]);
            assert(!cs.contains(']'));
            if cs[k - 1] == ']' {
                assert(cs.contains(']'));
            }
        }
    }
    lemma_find_from_at(p, ']', 0, e);
    if cs.len() > 0 {
        assert(p[1] == cs[0]);
    }
    let body = p.subrange(1, e);
    assert(body =~= cs);
    assert(p.skip(e + 1) =~= Seq::<char>::empty());
    assert(spec_base_kind(p) == Ok::<(SpecKind, Seq<char>), ParseError>(
        (SpecKind::CharClass(cs), Seq::<char>::empty()),
    ));
    assert(spec_next_token(p) == Ok::<Option<(SpecToken, Seq<char>)>, ParseError>(
        Some((SpecToken { kind: SpecKind::CharClass(cs), quant: Quantifier::One }, Seq::<
            char,
        >::empty())),
    ));
    assert(spec_validate(Seq::<char>::empty()) is Ok);
    assert(spec_validate(p) is Ok);
    lemma_search_single_token(p, SpecKind::CharClass(cs), t);
}

/// `[^...]` matches a text exactly when the text contains some
/// character that is not listed.  The list must not hold `]`.
pub proof fn lemma_matches_neg_class(cs: Seq<char>, t: Seq<char>)
    requires
        !cs.contains(']'),
    ensures
        spec_match(seq!['[', '^'] + cs + seq![']'], t) == Ok::<bool, ParseError>(
            exists|i: int| 0 <= i < t.len() && !cs.contains(#[trigger] t[i]),
        ),
{
    let p = seq!['[', '^'] + cs + seq![']'];
    let e = cs.len() as int + 2;
    assert(p.len() == cs.len() + 3);
    assert(p[0] == '[');
    assert(p[1] == '^');
    assert(p[e] == ']');
    assert(forall|k: int| 0 <= k < cs.len() ==> p[k + 2] == #[trigger] cs[k]);
    assert forall|k: int| 0 <= k < e implies p[k] != ']' by {
        if k > 1 {
            assert(p[k] == cs[k - 2]);
            if cs[k - 2] == ']' {
                assert(cs.contains(']'));
            }
        }
    }
    lemma_find_from_at(p, ']', 0, e);
    let body = p.subrange(2, e);
    assert(body =~= cs);
    assert(p.skip(e + 1) =~= Seq::<char>::empty());
    assert(spec_base_kind(p) == Ok::<(SpecKind, Seq<char>), ParseError>(
        (SpecKind::NegClass(cs), Seq::<char>::empty()),
    ));
    assert(spec_next_token(p) == Ok::<Option<(SpecToken, Seq<char>)>, ParseError>(
        Some((SpecToken { kind: SpecKind::NegClass(cs), quant: Quantifier::One }, Seq::<
            char,
        >::empty())),
    ));
    assert(spec_validate(Seq::<char>::empty()) is Ok);
    assert(spec_validate(p) is Ok);
    lemma_search_single_token(p, SpecKind::NegClass(cs), t);
}

} // verus!

