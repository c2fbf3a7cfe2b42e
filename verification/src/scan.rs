//! The token classifier's model: given the offset of a token's first
//! significant byte, `spec_token` says which token (or error) the classifier
//! produces and at which offset the token ends.

use vstd::prelude::*;

use crate::ascii::AT_SIGN;
use crate::ascii::COLON;
use crate::ascii::COMMA;
use crate::ascii::DIGIT_NINE;
use crate::ascii::DIGIT_ZERO;
use crate::ascii::DOT;
use crate::ascii::LEFT_PAREN;
use crate::ascii::LOWER_A;
use crate::ascii::LOWER_Z;
use crate::ascii::QUESTION_MARK;
use crate::ascii::QUOTE;
use crate::ascii::RIGHT_PAREN;
use crate::ascii::SEMICOLON;
use crate::ascii::STAR;
use crate::ascii::UNDERSCORE;
use crate::ascii::UPPER_A;
use crate::ascii::UPPER_Z;
use vstd::utf8::decode_utf8;
use vstd::utf8::valid_utf8;

use crate::token::Keyword;
use crate::token::SpecToken;
use crate::token::SpecValue;
use crate::token::Token;
use crate::token::TokenizeError;
use crate::token::Ty;
use crate::token::keyword_of;
use crate::token::ty_of;

verus! {

/// True for an ASCII letter, the byte that starts an identifier-shaped run.
pub open spec fn is_letter(b: u8) -> bool {
    (LOWER_A <= b && b <= LOWER_Z) || (UPPER_A <= b && b <= UPPER_Z)
}

/// True for an ASCII decimal digit.
pub open spec fn is_digit(b: u8) -> bool {
    DIGIT_ZERO <= b && b <= DIGIT_NINE
}

/// True for a byte that may continue an identifier-shaped run.
pub open spec fn is_ident_cont(b: u8) -> bool {
    is_letter(b) || is_digit(b) || b == UNDERSCORE
}

/// The first offset at or after `i` whose byte cannot continue an
/// identifier, or the buffer length.
pub open spec fn ident_end(s: Seq<u8>, i: int) -> int
    recommends
        0 <= i <= s.len(),
    decreases s.len() - i,
{
    if i < s.len() && is_ident_cont(s[i]) {
        ident_end(s, i + 1)
    } else {
        i
    }
}

/// The offset of the first `"` at or after `i`, or `None` when the buffer
/// holds no further quote.
pub open spec fn quote_end(s: Seq<u8>, i: int) -> Option<int>
    recommends
        0 <= i <= s.len(),
    decreases s.len() - i,
{
    if i >= s.len() {
        None
    } else if s[i] == QUOTE {
        Some(i)
    } else {
        quote_end(s, i + 1)
    }
}

/// The first offset at or after `i` that ends a numeric run begun with
/// seen-decimal-point state `dot`: digits always continue the run, a first
/// `.` continues it and flips the state, and a second `.` ends it, left
/// unconsumed.
pub open spec fn num_end(s: Seq<u8>, i: int, dot: bool) -> int
    recommends
        0 <= i <= s.len(),
    decreases s.len() - i,
{
    if i < s.len() && is_digit(s[i]) {
        num_end(s, i + 1, dot)
    } else if i < s.len() && s[i] == DOT && !dot {
        num_end(s, i + 1, true)
    } else {
        i
    }
}

/// True when the run holds a decimal point.
pub open spec fn has_dot(run: Seq<u8>) -> bool {
    exists|k: int| 0 <= k < run.len() && run[k] == DOT
}

/// The numeric value of a run of digits with at most one `.`, the `.`
/// ignored: the digits read as one decimal number.
pub open spec fn num_val(run: Seq<u8>) -> nat
    decreases run.len(),
{
    if run.len() == 0 {
        0
    } else if run.last() == DOT {
        num_val(run.drop_last())
    } else {
        num_val(run.drop_last()) * 10 + (run.last() - DIGIT_ZERO) as nat
    }
}

/// How many bytes follow the first `.` of the run; 0 when it has none.
pub open spec fn frac_len(run: Seq<u8>) -> nat
    decreases run.len(),
{
    if run.len() == 0 {
        0
    } else if run[0] == DOT {
        (run.len() - 1) as nat
    } else {
        frac_len(run.drop_first())
    }
}

/// The characters of a byte run that holds only ASCII, read byte for byte.
pub open spec fn chars_of_ascii(run: Seq<u8>) -> Seq<char> {
    Seq::new(run.len(), |k: int| run[k] as char)
}

/// The token or error that the classifier produces for the token whose first
/// significant byte stands at offset `j`, together with the offset just past
/// the token's last consumed byte.
///
/// Dispatch is on the byte at `j`: a letter starts an identifier-shaped run,
/// resolved as a keyword before a type name before a plain identifier; a `"`
/// starts a raw string literal, unterminated when no closing quote follows
/// and malformed when its bytes are not UTF-8; a digit starts a numeric run,
/// a float exactly when the run holds a decimal point, the value exact while
/// it fits in 64 bits; eight fixed bytes are punctuation; anything else is
/// an unexpected character.
pub open spec fn spec_token(s: Seq<u8>, j: int) -> (Result<SpecToken, TokenizeError>, int)
    recommends
        0 <= j < s.len(),
{
    let b = s[j];
    if is_letter(b) {
        let e = ident_end(s, j + 1);
        let run = s.subrange(j, e);
        let tok = match keyword_of(run) {
            Some(k) => SpecToken::Keyword(k),
            None => match ty_of(run) {
                Some(t) => SpecToken::Ty(t),
                None => SpecToken::Identifier(chars_of_ascii(run)),
            },
        };
        (Ok(tok), e)
    } else if b == QUOTE {
        match quote_end(s, j + 1) {
            Some(q) => {
                let content = s.subrange(j + 1, q);
                if valid_utf8(content) {
                    (Ok(SpecToken::Literal(SpecValue::Str(decode_utf8(content)))), q + 1)
                } else {
                    (Err(TokenizeError::NonUTF8), q + 1)
                }
            },
            None => (Err(TokenizeError::NonTerminatedStr), s.len() as int),
        }
    } else if is_digit(b) {
        let e = num_end(s, j + 1, false);
        let run = s.subrange(j, e);
        if num_val(run) > u64::MAX {
            if has_dot(run) {
                (Err(TokenizeError::InvalidFloatLiteral), e)
            } else {
                (Err(TokenizeError::InvalidIntLiteral), e)
            }
        } else if has_dot(run) {
            (Ok(SpecToken::Literal(SpecValue::Float(num_val(run), frac_len(run)))), e)
        } else {
            (Ok(SpecToken::Literal(SpecValue::Int(num_val(run)))), e)
        }
    } else if b == STAR {
        (Ok(SpecToken::Star), j + 1)
    } else if b == COMMA {
        (Ok(SpecToken::Comma), j + 1)
    } else if b == COLON {
        (Ok(SpecToken::Colon), j + 1)
    } else if b == SEMICOLON {
        (Ok(SpecToken::SemiColon), j + 1)
    } else if b == AT_SIGN {
        (Ok(SpecToken::At), j + 1)
    } else if b == LEFT_PAREN {
        (Ok(SpecToken::LeftSmooth), j + 1)
    } else if b == RIGHT_PAREN {
        (Ok(SpecToken::RightSmooth), j + 1)
    } else if b == QUESTION_MARK {
        (Ok(SpecToken::QuestionMark), j + 1)
    } else {
        (Err(TokenizeError::UnexpectedCharacter), j + 1)
    }
}

/// True when the executable result and the model agree: an `Ok` token views
/// to the model token, an error is the model error.
pub open spec fn res_matches(
    r: Result<Token, TokenizeError>,
    m: Result<SpecToken, TokenizeError>,
) -> bool {
    match r {
        Ok(t) => m is Ok && t@ == m->Ok_0,
        Err(e) => m is Err && e == m->Err_0,
    }
}

/// Characterizes `ident_end`: it stays within the buffer, every byte before
/// it (from `i` on) continues an identifier, and the byte at it, if any,
/// does not.
pub proof fn lemma_ident_end(s: Seq<u8>, i: int)
    requires
        0 <= i <= s.len(),
    ensures
        i <= ident_end(s, i) <= s.len(),
        ident_end(s, i) < s.len() ==> !is_ident_cont(s[ident_end(s, i)]),
        forall|k: int| i <= k < ident_end(s, i) ==> is_ident_cont(s[k]),
    decreases s.len() - i,
{
    if i < s.len() && is_ident_cont(s[i]) {
        lemma_ident_end(s, i + 1);
    }
}

/// Characterizes `quote_end`: the offset it finds holds the first quote at
/// or after `i`; when it finds none, no quote remains.
pub proof fn lemma_quote_end(s: Seq<u8>, i: int)
    requires
        0 <= i <= s.len(),
    ensures
        match quote_end(s, i) {
            Some(q) => i <= q < s.len() && s[q] == QUOTE && forall|m: int|
                i <= m < q ==> s[m] != QUOTE,
            None => forall|m: int| i <= m < s.len() ==> s[m] != QUOTE,
        },
    decreases s.len() - i,
{
    if i < s.len() && s[i] != QUOTE {
        lemma_quote_end(s, i + 1);
    }
}

/// Characterizes `num_end`: it stays within the buffer and never moves
/// backwards.
pub proof fn lemma_num_end(s: Seq<u8>, i: int, dot: bool)
    requires
        0 <= i <= s.len(),
    ensures
        i <= num_end(s, i, dot) <= s.len(),
    decreases s.len() - i,
{
    if i < s.len() && is_digit(s[i]) {
        lemma_num_end(s, i + 1, dot);
    } else if i < s.len() && s[i] == DOT && !dot {
        lemma_num_end(s, i + 1, true);
    }
}

/// A run holds a decimal point exactly when its first byte is one or the
/// rest of the run holds one.
pub proof fn lemma_has_dot_unfold(run: Seq<u8>)
    requires
        run.len() > 0,
    ensures
        has_dot(run) == (run[0] == DOT || has_dot(run.drop_first())),
{
    if run[0] == DOT {
        assert(has_dot(run));
    } else if has_dot(run.drop_first()) {
        let k = choose|k: int| 0 <= k < run.drop_first().len() && run.drop_first()[k] == DOT;
        assert(run[k + 1] == DOT);
        assert(has_dot(run));
    } else if has_dot(run) {
        let k = choose|k: int| 0 <= k < run.len() && run[k] == DOT;
        assert(run.drop_first()[k - 1] == DOT);
    }
}

/// Appending a byte to a run gives it a decimal point exactly when the run
/// already had one or the byte is one.
pub proof fn lemma_has_dot_push(run: Seq<u8>, b: u8)
    ensures
        has_dot(run.push(b)) == (has_dot(run) || b == DOT),
{
    if b == DOT {
        assert(run.push(b)[run.len() as int] == DOT);
        assert(has_dot(run.push(b)));
    } else if has_dot(run) {
        let k = choose|k: int| 0 <= k < run.len() && run[k] == DOT;
        assert(run.push(b)[k] == DOT);
        assert(has_dot(run.push(b)));
    } else if has_dot(run.push(b)) {
        let k = choose|k: int| 0 <= k < run.push(b).len() && run.push(b)[k] == DOT;
        assert(0 <= k < run.len() && run[k] == DOT);
    }
}

/// Appending a digit multiplies the run's value by ten and adds the digit;
/// appending the decimal point leaves the value unchanged.
pub proof fn lemma_num_val_push(run: Seq<u8>, b: u8)
    ensures
        b != DOT ==> num_val(run.push(b)) == num_val(run) * 10 + (b - DIGIT_ZERO) as nat,
        b == DOT ==> num_val(run.push(b)) == num_val(run),
{
    assert(run.push(b).last() == b);
    assert(run.push(b).drop_last() =~= run);
}

/// A run with a decimal point has fewer fraction digits than bytes.
pub proof fn lemma_frac_bound(run: Seq<u8>)
    requires
        has_dot(run),
    ensures
        frac_len(run) < run.len(),
    decreases run.len(),
{
    lemma_has_dot_unfold(run);
    if run[0] != DOT {
        lemma_frac_bound(run.drop_first());
    }
}

/// A run without a decimal point has no fraction digits.
pub proof fn lemma_frac_no_dot(run: Seq<u8>)
    requires
        !has_dot(run),
    ensures
        frac_len(run) == 0,
    decreases run.len(),
{
    if run.len() > 0 {
        lemma_has_dot_unfold(run);
        lemma_frac_no_dot(run.drop_first());
    }
}

/// Appending a byte other than the decimal point extends the fraction by
/// one digit when the run already has its point, and otherwise leaves the
/// fraction empty.
pub proof fn lemma_frac_push(run: Seq<u8>, b: u8)
    requires
        b != DOT,
    ensures
        frac_len(run.push(b)) == if has_dot(run) {
            frac_len(run) + 1
        } else {
            0nat
        },
    decreases run.len(),
{
    let p = run.push(b);
    if run.len() == 0 {
        assert(p.len() == 1 && p[0] == b && b != DOT);
        assert(p.drop_first() =~= run);
        assert(frac_len(p) == frac_len(run));
        assert(frac_len(run) == 0);
    } else {
        lemma_has_dot_unfold(run);
        if run[0] == DOT {
            assert(has_dot(run));
            assert(p[0] == DOT);
            assert(frac_len(p) == (p.len() - 1) as nat);
        } else {
            assert(p[0] == run[0]);
            assert(frac_len(p) == frac_len(p.drop_first()));
            assert(p.drop_first() =~= run.drop_first().push(b));
            lemma_frac_push(run.drop_first(), b);
            assert(frac_len(run) == frac_len(run.drop_first()));
        }
    }
}

/// Appending the decimal point to a run without one starts an empty
/// fraction.
pub proof fn lemma_frac_push_dot(run: Seq<u8>)
    requires
        !has_dot(run),
    ensures
        frac_len(run.push(DOT)) == 0,
    decreases run.len(),
{
    if run.len() == 0 {
    } else {
        lemma_has_dot_unfold(run);
        assert(run[0] != DOT);
        assert(run.push(DOT).drop_first() =~= run.drop_first().push(DOT));
        lemma_frac_push_dot(run.drop_first());
    }
}

/// A run of ASCII bytes is valid UTF-8 and decodes byte for byte.
pub proof fn lemma_ascii_decode(run: Seq<u8>)
    requires
        forall|k: int| 0 <= k < run.len() ==> run[k] < 0x80,
    ensures
        valid_utf8(run),
        decode_utf8(run) == chars_of_ascii(run),
    decreases run.len(),
{
    if run.len() > 0 {
        let b = run[0];
        assert(b & 0x7f == b) by (bit_vector)
            requires
                b < 0x80,
        ;
        assert(vstd::utf8::valid_first_scalar(run));
        assert(vstd::utf8::pop_first_scalar(run) =~= run.drop_first());
        lemma_ascii_decode(run.drop_first());
        assert(decode_utf8(run) =~= chars_of_ascii(run));
    } else {
        assert(decode_utf8(run) =~= chars_of_ascii(run));
    }
}


/// A token always consumes at least its first byte and never runs past the
/// buffer end.
pub proof fn lemma_token_end(s: Seq<u8>, j: int)
    requires
        0 <= j < s.len(),
    ensures
        j < spec_token(s, j).1 <= s.len(),
{
    lemma_ident_end(s, j + 1);
    lemma_quote_end(s, j + 1);
    lemma_num_end(s, j + 1, false);
}

} // verus!
