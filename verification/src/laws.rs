//! General properties of the tokenizer, stated once over the models that
//! the executable contracts use and proved for all inputs.

use vstd::prelude::*;

use crate::ascii::BANG;
use crate::ascii::HASH;
use crate::ascii::NEWLINE;
use crate::ascii::QUOTE;
use crate::ascii::DOT;
use crate::ascii::STAR;
use crate::ascii::COMMA;
use crate::ascii::COLON;
use crate::ascii::SEMICOLON;
use crate::ascii::AT_SIGN;
use crate::ascii::LEFT_PAREN;
use crate::ascii::RIGHT_PAREN;
use crate::ascii::QUESTION_MARK;
use crate::scan::chars_of_ascii;
use crate::scan::has_dot;
use crate::scan::ident_end;
use crate::scan::is_digit;
use crate::scan::is_letter;
use crate::scan::lemma_quote_end;
use crate::scan::lemma_token_end;
use crate::scan::num_end;
use crate::scan::num_val;
use crate::scan::frac_len;
use crate::scan::spec_token;
use crate::token::SpecToken;
use crate::token::SpecValue;
use crate::token::TokenizeError;
use crate::token::keyword_of;
use crate::token::ty_of;
use crate::trivia::is_ws;
use crate::trivia::lemma_block_end;
use crate::trivia::lemma_line_end;
use crate::trivia::lemma_trivia_end;
use crate::trivia::lemma_ws_end;
use crate::trivia::block_end;
use crate::trivia::line_end;
use crate::trivia::trivia_end;
use crate::trivia::ws_end;

verus! {

/// True when, from offset `i` on, the buffer holds nothing but ASCII
/// whitespace and comments: each `#` opens a comment classified by the byte
/// after it — `!` a block comment closed by a `!#` pair whose `#` is
/// re-examined as a fresh comment start, a newline an empty comment,
/// anything else a line comment closed by a newline. A buffer that ends
/// inside a comment counts too: the skipper treats that end as the end of
/// the sequence, not as an error.
pub open spec fn trivia_only(s: Seq<u8>, i: int) -> bool
    recommends
        0 <= i <= s.len(),
    decreases s.len() - i,
    when 0 <= i <= s.len()
    via trivia_only_decreases
{
    if i >= s.len() {
        true
    } else if is_ws(s[i]) {
        trivia_only(s, i + 1)
    } else if s[i] == HASH {
        if i + 1 >= s.len() {
            true
        } else if s[i + 1] == BANG {
            match block_end(s, i + 2) {
                None => true,
                Some(q) => trivia_only(s, q),
            }
        } else if s[i + 1] == NEWLINE {
            trivia_only(s, i + 2)
        } else {
            match line_end(s, i + 2) {
                None => true,
                Some(k) => trivia_only(s, k),
            }
        }
    } else {
        false
    }
}

#[via_fn]
proof fn trivia_only_decreases(s: Seq<u8>, i: int) {
    if 0 <= i && i < s.len() {
        if !is_ws(s[i]) && s[i] == HASH && i + 1 < s.len() {
            if s[i + 1] == BANG {
                lemma_block_end(s, i + 2);
            } else if s[i + 1] != NEWLINE {
                lemma_line_end(s, i + 2);
            }
        }
    }
}

/// An input consisting solely of ASCII whitespace and well-formed comments
/// yields no tokens: the first pull already reaches the end of the buffer
/// and the sequence ends cleanly.
pub proof fn lemma_trivia_only_yields_nothing(s: Seq<u8>, i: int)
    requires
        0 <= i <= s.len(),
        trivia_only(s, i),
    ensures
        trivia_end(s, i) is None,
    decreases s.len() - i,
{
    if i >= s.len() {
    } else if is_ws(s[i]) {
        lemma_trivia_only_yields_nothing(s, i + 1);
        assert(ws_end(s, i) == ws_end(s, i + 1));
        assert(trivia_end(s, i) == trivia_end(s, i + 1));
    } else if s[i] == HASH {
        assert(ws_end(s, i) == i);
        if i + 1 >= s.len() {
        } else if s[i + 1] == BANG {
            lemma_block_end(s, i + 2);
            match block_end(s, i + 2) {
                None => {},
                Some(q) => {
                    lemma_trivia_only_yields_nothing(s, q);
                    assert(trivia_end(s, i) == trivia_end(s, q));
                },
            }
        } else if s[i + 1] == NEWLINE {
            lemma_trivia_only_yields_nothing(s, i + 2);
            assert(trivia_end(s, i) == trivia_end(s, i + 2));
        } else {
            lemma_line_end(s, i + 2);
            match line_end(s, i + 2) {
                None => {},
                Some(k) => {
                    lemma_trivia_only_yields_nothing(s, k);
                    assert(trivia_end(s, i) == trivia_end(s, k));
                },
            }
        }
    }
}

/// An input of nothing but ASCII whitespace is pure trivia: the very first
/// pull reaches the end of the buffer and the sequence yields no tokens.
pub proof fn lemma_whitespace_only_ends(s: Seq<u8>)
    requires
        forall|k: int| 0 <= k < s.len() ==> is_ws(s[k]),
    ensures
        trivia_end(s, 0) is None,
{
    lemma_ws_end(s, 0);
    assert(ws_end(s, 0) == s.len());
}

/// Whitespace is pure trivia: the skip that starts at `i` gives the same
/// result as one that starts past the whitespace run at `i`. Together with
/// the comment lemmas below, any prefix of whitespace and well-formed
/// comments reduces step by step to the tokens of what follows it.
pub proof fn lemma_whitespace_skipped(s: Seq<u8>, i: int)
    requires
        0 <= i <= s.len(),
    ensures
        trivia_end(s, i) == trivia_end(s, ws_end(s, i)),
{
    lemma_ws_end(s, i);
    lemma_ws_end(s, ws_end(s, i));
    assert(ws_end(s, ws_end(s, i)) == ws_end(s, i));
}

/// An identifier-shaped run that resolves to neither a keyword nor a type
/// name is yielded as an identifier whose text is exactly the run.
pub proof fn lemma_identifier_token(s: Seq<u8>, j: int)
    requires
        0 <= j < s.len(),
        is_letter(s[j]),
        keyword_of(s.subrange(j, ident_end(s, j + 1))) is None,
        ty_of(s.subrange(j, ident_end(s, j + 1))) is None,
    ensures
        spec_token(s, j).0 == Ok::<SpecToken, TokenizeError>(
            SpecToken::Identifier(chars_of_ascii(s.subrange(j, ident_end(s, j + 1)))),
        ),
        spec_token(s, j).1 == ident_end(s, j + 1),
{
}

/// Keyword resolution takes precedence: a run equal to a known keyword is
/// yielded as that keyword, never as an identifier or a type name.
pub proof fn lemma_keyword_precedence(s: Seq<u8>, j: int)
    requires
        0 <= j < s.len(),
        is_letter(s[j]),
        keyword_of(s.subrange(j, ident_end(s, j + 1))) is Some,
    ensures
        spec_token(s, j).0 == Ok::<SpecToken, TokenizeError>(
            SpecToken::Keyword(keyword_of(s.subrange(j, ident_end(s, j + 1)))->Some_0),
        ),
{
}

/// Type-name resolution takes precedence over plain identifiers: a run
/// equal to a known type name, and to no keyword, is yielded as that type
/// name, never as an identifier.
pub proof fn lemma_ty_precedence(s: Seq<u8>, j: int)
    requires
        0 <= j < s.len(),
        is_letter(s[j]),
        keyword_of(s.subrange(j, ident_end(s, j + 1))) is None,
        ty_of(s.subrange(j, ident_end(s, j + 1))) is Some,
    ensures
        spec_token(s, j).0 == Ok::<SpecToken, TokenizeError>(
            SpecToken::Ty(ty_of(s.subrange(j, ident_end(s, j + 1)))->Some_0),
        ),
{
}

/// A digit run without a decimal point whose value fits in 64 bits is
/// yielded as an integer literal holding the exact numeric value of the
/// digits.
pub proof fn lemma_integer_literal(s: Seq<u8>, j: int)
    requires
        0 <= j < s.len(),
        is_digit(s[j]),
        !has_dot(s.subrange(j, num_end(s, j + 1, false))),
        num_val(s.subrange(j, num_end(s, j + 1, false))) <= u64::MAX,
    ensures
        spec_token(s, j).0 == Ok::<SpecToken, TokenizeError>(
            SpecToken::Literal(SpecValue::Int(num_val(s.subrange(j, num_end(s, j + 1, false))))),
        ),
        spec_token(s, j).1 == num_end(s, j + 1, false),
{
}

/// A digit run without a decimal point whose value does not fit in 64 bits
/// fails as an invalid integer literal.
pub proof fn lemma_integer_overflow(s: Seq<u8>, j: int)
    requires
        0 <= j < s.len(),
        is_digit(s[j]),
        !has_dot(s.subrange(j, num_end(s, j + 1, false))),
        num_val(s.subrange(j, num_end(s, j + 1, false))) > u64::MAX,
    ensures
        spec_token(s, j).0 == Err::<SpecToken, TokenizeError>(TokenizeError::InvalidIntLiteral),
{
}

/// A digit run with a decimal point whose digits fit in 64 bits is yielded
/// as a float literal holding the equivalent exact decimal: the digits as
/// mantissa and the number of fraction digits as scale.
pub proof fn lemma_float_literal(s: Seq<u8>, j: int)
    requires
        0 <= j < s.len(),
        is_digit(s[j]),
        has_dot(s.subrange(j, num_end(s, j + 1, false))),
        num_val(s.subrange(j, num_end(s, j + 1, false))) <= u64::MAX,
    ensures
        spec_token(s, j).0 == Ok::<SpecToken, TokenizeError>(
            SpecToken::Literal(
                SpecValue::Float(
                    num_val(s.subrange(j, num_end(s, j + 1, false))),
                    frac_len(s.subrange(j, num_end(s, j + 1, false))),
                ),
            ),
        ),
        spec_token(s, j).1 == num_end(s, j + 1, false),
{
}

/// A second decimal point ends the numeric run before it: the run scanned
/// with the seen-decimal-point state set stops at any further `.`, which is
/// left for the next pull.
pub proof fn lemma_second_dot_stops(s: Seq<u8>, i: int)
    requires
        0 <= i < s.len(),
        s[i] == DOT,
    ensures
        num_end(s, i, true) == i,
{
}

/// A `.` cannot start a token: the pull that meets it fails with an
/// unexpected character, consuming exactly that byte.
pub proof fn lemma_dot_unexpected(s: Seq<u8>, j: int)
    requires
        0 <= j < s.len(),
        s[j] == DOT,
    ensures
        spec_token(s, j).0 == Err::<SpecToken, TokenizeError>(TokenizeError::UnexpectedCharacter),
        spec_token(s, j).1 == j + 1,
{
}

/// A string literal with no closing quote before the buffer end fails as
/// unterminated, with the whole rest of the buffer as its span.
pub proof fn lemma_unterminated_string(s: Seq<u8>, j: int)
    requires
        0 <= j < s.len(),
        s[j] == QUOTE,
        forall|k: int| j < k < s.len() ==> s[k] != QUOTE,
    ensures
        spec_token(s, j).0 == Err::<SpecToken, TokenizeError>(TokenizeError::NonTerminatedStr),
        spec_token(s, j).1 == s.len(),
{
    lemma_quote_end(s, j + 1);
}

/// A line comment is pure trivia: the skip that meets its `#` resumes just
/// past the comment's newline, so the tokens that follow are exactly those
/// of the source without the comment.
pub proof fn lemma_line_comment_skipped(s: Seq<u8>, i: int)
    requires
        0 <= i,
        i + 1 < s.len(),
        s[i] == HASH,
        s[i + 1] != BANG,
        s[i + 1] != NEWLINE,
    ensures
        trivia_end(s, i) == match line_end(s, i + 2) {
            Some(k) => trivia_end(s, k),
            None => None,
        },
{
    lemma_line_end(s, i + 2);
    assert(ws_end(s, i) == i);
}

/// Block comment re-entry: the scan for `!#` leaves the closing `#`
/// unconsumed, and skipping resumes at that very `#`, which is examined as
/// a fresh potential comment start; when the buffer ends inside the block,
/// the sequence simply ends.
pub proof fn lemma_block_comment_reentry(s: Seq<u8>, i: int)
    requires
        0 <= i,
        i + 1 < s.len(),
        s[i] == HASH,
        s[i + 1] == BANG,
    ensures
        match block_end(s, i + 2) {
            Some(q) => s[q] == HASH && trivia_end(s, i) == trivia_end(s, q),
            None => trivia_end(s, i) is None,
        },
{
    lemma_block_end(s, i + 2);
    assert(ws_end(s, i) == i);
}

/// Each of the eight fixed punctuation bytes is yielded as exactly its own
/// token, consuming exactly its own byte.
pub proof fn lemma_punctuation(s: Seq<u8>, j: int)
    requires
        0 <= j < s.len(),
    ensures
        s[j] == STAR ==> spec_token(s, j) == (
            Ok::<SpecToken, TokenizeError>(SpecToken::Star),
            j + 1,
        ),
        s[j] == COMMA ==> spec_token(s, j) == (
            Ok::<SpecToken, TokenizeError>(SpecToken::Comma),
            j + 1,
        ),
        s[j] == COLON ==> spec_token(s, j) == (
            Ok::<SpecToken, TokenizeError>(SpecToken::Colon),
            j + 1,
        ),
        s[j] == SEMICOLON ==> spec_token(s, j) == (
            Ok::<SpecToken, TokenizeError>(SpecToken::SemiColon),
            j + 1,
        ),
        s[j] == AT_SIGN ==> spec_token(s, j) == (
            Ok::<SpecToken, TokenizeError>(SpecToken::At),
            j + 1,
        ),
        s[j] == LEFT_PAREN ==> spec_token(s, j) == (
            Ok::<SpecToken, TokenizeError>(SpecToken::LeftSmooth),
            j + 1,
        ),
        s[j] == RIGHT_PAREN ==> spec_token(s, j) == (
            Ok::<SpecToken, TokenizeError>(SpecToken::RightSmooth),
            j + 1,
        ),
        s[j] == QUESTION_MARK ==> spec_token(s, j) == (
            Ok::<SpecToken, TokenizeError>(SpecToken::QuestionMark),
            j + 1,
        ),
{
}

/// The spans one pull accounts for, starting at offset `i`: the trivia span
/// up to the token's first byte and the token's own span; at the end of the
/// sequence, the single trailing trivia span.
pub open spec fn pull_spans(s: Seq<u8>, i: int) -> Seq<(int, int)>
    recommends
        0 <= i <= s.len(),
    decreases s.len() - i,
    when 0 <= i <= s.len()
    via pull_spans_decreases
{
    match trivia_end(s, i) {
        None => seq![(i, s.len() as int)],
        Some(j) => seq![(i, j), (j, spec_token(s, j).1)] + pull_spans(s, spec_token(s, j).1),
    }
}

#[via_fn]
proof fn pull_spans_decreases(s: Seq<u8>, i: int) {
    lemma_trivia_end(s, i);
    if 0 <= i <= s.len() {
        match trivia_end(s, i) {
            None => {},
            Some(j) => {
                lemma_token_end(s, j);
            },
        }
    }
}

/// The bytes of the buffer that the given spans name, concatenated in
/// order.
pub open spec fn cat_spans(s: Seq<u8>, spans: Seq<(int, int)>) -> Seq<u8>
    decreases spans.len(),
{
    if spans.len() == 0 {
        Seq::empty()
    } else {
        s.subrange(spans[0].0, spans[0].1) + cat_spans(s, spans.drop_first())
    }
}

/// Round trip: concatenating the literal source spans, in order, of all
/// yielded tokens together with all skipped trivia spans reconstructs the
/// buffer exactly, from offset `i` to its end.
pub proof fn lemma_round_trip(s: Seq<u8>, i: int)
    requires
        0 <= i <= s.len(),
    ensures
        cat_spans(s, pull_spans(s, i)) == s.subrange(i, s.len() as int),
    decreases s.len() - i,
{
    lemma_trivia_end(s, i);
    match trivia_end(s, i) {
        None => {
            let spans = pull_spans(s, i);
            assert(spans == seq![(i, s.len() as int)]);
            assert(spans[0] == (i, s.len() as int));
            assert(spans.drop_first() =~= Seq::<(int, int)>::empty());
            assert(cat_spans(s, spans.drop_first()) =~= Seq::<u8>::empty());
            assert(cat_spans(s, spans) =~= s.subrange(i, s.len() as int));
        },
        Some(j) => {
            lemma_token_end(s, j);
            let e = spec_token(s, j).1;
            lemma_round_trip(s, e);
            let spans = pull_spans(s, i);
            let rest = pull_spans(s, e);
            assert(spans == seq![(i, j), (j, e)] + rest);
            assert(spans[0] == (i, j));
            let tail = spans.drop_first();
            assert(tail =~= seq![(j, e)] + rest);
            assert(tail[0] == (j, e));
            assert(cat_spans(s, spans) == s.subrange(i, j) + cat_spans(s, tail));
            assert(tail.drop_first() =~= rest);
            assert(cat_spans(s, tail) == s.subrange(j, e) + cat_spans(s, rest));
            assert(s.subrange(i, j) + (s.subrange(j, e) + s.subrange(e, s.len() as int)) =~= s.subrange(
                i,
                s.len() as int,
            ));
            assert(cat_spans(s, spans) =~= s.subrange(i, s.len() as int));
        },
    }
}

} // verus!
