//! The tokenizer: a forward-only cursor over a borrowed byte buffer that
//! yields one classified token or error per pull.

use vstd::prelude::*;

use crate::ascii::AT_SIGN;
use crate::ascii::BANG;
use crate::ascii::COLON;
use crate::ascii::COMMA;
use crate::ascii::DIGIT_NINE;
use crate::ascii::DIGIT_ZERO;
use crate::ascii::DOT;
use crate::ascii::HASH;
use crate::ascii::LEFT_PAREN;
use crate::ascii::LOWER_A;
use crate::ascii::LOWER_Z;
use crate::ascii::NEWLINE;
use crate::ascii::QUESTION_MARK;
use crate::ascii::QUOTE;
use crate::ascii::RIGHT_PAREN;
use crate::ascii::SEMICOLON;
use crate::ascii::STAR;
use crate::ascii::UNDERSCORE;
use crate::ascii::UPPER_A;
use crate::ascii::UPPER_Z;
use vstd::utf8::decode_utf8;
use vstd::utf8::valid_utf8;

use crate::scan::has_dot;
use crate::scan::ident_end;
use crate::scan::is_digit;
use crate::scan::lemma_ascii_decode;
use crate::scan::lemma_frac_bound;
use crate::scan::lemma_frac_no_dot;
use crate::scan::lemma_frac_push;
use crate::scan::lemma_frac_push_dot;
use crate::scan::lemma_has_dot_push;
use crate::scan::lemma_ident_end;
use crate::scan::lemma_num_end;
use crate::scan::lemma_num_val_push;
use crate::scan::lemma_quote_end;
use crate::scan::num_end;
use crate::scan::num_val;
use crate::scan::frac_len;
use crate::scan::quote_end;
use crate::scan::res_matches;
use crate::scan::spec_token;
use crate::token::Decimal;
use crate::token::Token;
use crate::token::TokenizeError;
use crate::token::Value;
use crate::token::keyword_lookup;
use crate::token::ty_lookup;
use crate::trivia::is_ws;
use crate::trivia::lemma_block_end;
use crate::trivia::lemma_line_end;
use crate::trivia::lemma_trivia_end;
use crate::trivia::lemma_ws_end;
use crate::trivia::block_end;
use crate::trivia::line_end;
use crate::trivia::trivia_end;
use crate::trivia::ws_end;

verus! {

broadcast use vstd::slice::group_slice_axioms;

/// Relies on `String::from_utf8`: it returns the string decoded from the
/// given bytes exactly when they are valid UTF-8, and rejects them
/// otherwise.
#[verifier::external_body]
fn bytes_to_string(bytes: Vec<u8>) -> (r: Option<String>)
    ensures
        r is Some <==> valid_utf8(bytes@),
        r is Some ==> r->Some_0@ == decode_utf8(bytes@),
{
    String::from_utf8(bytes).ok()
}

/// The mathematical length of a borrowed slice fits in `usize`.
proof fn lemma_slice_len_bound(bytes: &[u8])
    ensures
        bytes@.len() <= usize::MAX,
{
    assert(vstd::slice::spec_slice_len(bytes) == bytes@.len());
}

/// True exactly for the five ASCII whitespace bytes.
fn is_ws_byte(b: u8) -> (r: bool)
    ensures
        r == is_ws(b),
{
    b == 32 || b == 9 || b == 10 || b == 12 || b == 13
}

/// The first offset at or after `start` holding a non-whitespace byte.
fn ws_scan(bytes: &[u8], start: usize) -> (r: usize)
    requires
        start <= bytes@.len(),
    ensures
        r as int == ws_end(bytes@, start as int),
        start <= r <= bytes@.len(),
{
    let mut i: usize = start;
    loop
        invariant
            start <= i <= bytes@.len(),
            ws_end(bytes@, start as int) == ws_end(bytes@, i as int),
        ensures
            i == ws_end(bytes@, start as int),
        decreases bytes@.len() - i,
    {
        if i >= bytes.len() {
            break;
        }
        if !is_ws_byte(bytes[i]) {
            break;
        }
        i = i + 1;
    }
    i
}

/// The offset just past the first newline at or after `start`, or `None`
/// when the buffer ends first.
fn line_scan(bytes: &[u8], start: usize) -> (r: Option<usize>)
    requires
        start <= bytes@.len(),
    ensures
        match r {
            Some(k) => line_end(bytes@, start as int) == Some(k as int) && start < k
                <= bytes@.len(),
            None => line_end(bytes@, start as int) is None,
        },
{
    proof {
        lemma_line_end(bytes@, start as int);
    }
    let mut i: usize = start;
    loop
        invariant
            start <= i <= bytes@.len(),
            line_end(bytes@, start as int) == line_end(bytes@, i as int),
        ensures
            match line_end(bytes@, start as int) {
                Some(k) => i < bytes@.len() && k == i + 1 && bytes@[i as int] == NEWLINE,
                None => i == bytes@.len(),
            },
        decreases bytes@.len() - i,
    {
        if i >= bytes.len() {
            break;
        }
        if bytes[i] == NEWLINE {
            break;
        }
        i = i + 1;
    }
    if i >= bytes.len() {
        None
    } else {
        Some(i + 1)
    }
}

/// The offset of the first `#` directly after a consumed `!`, scanning from
/// `start`; `None` when the buffer ends first.
fn block_scan(bytes: &[u8], start: usize) -> (r: Option<usize>)
    requires
        start <= bytes@.len(),
    ensures
        match r {
            Some(q) => block_end(bytes@, start as int) == Some(q as int) && start < q
                < bytes@.len(),
            None => block_end(bytes@, start as int) is None,
        },
{
    proof {
        lemma_block_end(bytes@, start as int);
    }
    let mut i: usize = start;
    loop
        invariant
            start <= i <= bytes@.len(),
            block_end(bytes@, start as int) == block_end(bytes@, i as int),
        ensures
            match block_end(bytes@, start as int) {
                Some(q) => q == i + 1,
                None => i >= bytes@.len() || (bytes@[i as int] == BANG && i + 1 >= bytes@.len()),
            },
        decreases bytes@.len() - i,
    {
        if i >= bytes.len() {
            break;
        }
        if bytes[i] != BANG {
            i = i + 1;
            continue;
        }
        if i + 1 >= bytes.len() {
            break;
        }
        if bytes[i + 1] == HASH {
            break;
        }
        i = i + 1;
    }
    if i >= bytes.len() || i + 1 >= bytes.len() {
        None
    } else {
        Some(i + 1)
    }
}

/// The offset of the first significant byte at or after `start`, skipping
/// whitespace and comments; `None` when the buffer ends during the skip.
fn trivia_scan(bytes: &[u8], start: usize) -> (r: Option<usize>)
    requires
        start <= bytes@.len(),
    ensures
        match r {
            Some(j) => trivia_end(bytes@, start as int) == Some(j as int) && start <= j
                < bytes@.len(),
            None => trivia_end(bytes@, start as int) is None,
        },
{
    proof {
        lemma_trivia_end(bytes@, start as int);
    }
    let ghost s = bytes@;
    let mut i: usize = start;
    loop
        invariant
            start <= i <= s.len(),
            s == bytes@,
            trivia_end(s, start as int) == trivia_end(s, i as int),
        decreases s.len() - i,
    {
        let w = ws_scan(bytes, i);
        proof {
            lemma_ws_end(s, i as int);
            lemma_ws_end(s, w as int);
            assert(ws_end(s, w as int) == w);
            assert(trivia_end(s, i as int) == trivia_end(s, w as int));
        }
        if w >= bytes.len() {
            return None;
        }
        let b = bytes[w];
        if b != HASH {
            return Some(w);
        }
        if w + 1 >= bytes.len() {
            return None;
        }
        let c = bytes[w + 1];
        if c == BANG {
            match block_scan(bytes, w + 2) {
                None => {
                    return None;
                },
                Some(q) => {
                    proof {
                        assert(trivia_end(s, w as int) == trivia_end(s, q as int));
                    }
                    i = q;
                },
            }
        } else if c == NEWLINE {
            proof {
                assert(trivia_end(s, w as int) == trivia_end(s, w + 2));
            }
            i = w + 2;
        } else {
            match line_scan(bytes, w + 2) {
                None => {
                    return None;
                },
                Some(k) => {
                    proof {
                        assert(trivia_end(s, w as int) == trivia_end(s, k as int));
                    }
                    i = k;
                },
            }
        }
    }
}

/// Copies the byte range `[from, to)` of the buffer into an owned vector.
fn copy_range(bytes: &[u8], from: usize, to: usize) -> (r: Vec<u8>)
    requires
        from <= to <= bytes@.len(),
    ensures
        r@ == bytes@.subrange(from as int, to as int),
{
    let mut v: Vec<u8> = Vec::new();
    let mut i: usize = from;
    while i < to
        invariant
            from <= i <= to <= bytes@.len(),
            v@ == bytes@.subrange(from as int, i as int),
        decreases to - i,
    {
        v.push(bytes[i]);
        i = i + 1;
        proof {
            assert(bytes@.subrange(from as int, i as int) =~= bytes@.subrange(
                from as int,
                i - 1,
            ).push(bytes@[i - 1]));
        }
    }
    v
}

/// The first offset at or after `start` whose byte cannot continue an
/// identifier.
fn ident_scan(bytes: &[u8], start: usize) -> (r: usize)
    requires
        start <= bytes@.len(),
    ensures
        r as int == ident_end(bytes@, start as int),
        start <= r <= bytes@.len(),
{
    let mut i: usize = start;
    loop
        invariant
            start <= i <= bytes@.len(),
            ident_end(bytes@, start as int) == ident_end(bytes@, i as int),
        ensures
            i == ident_end(bytes@, start as int),
        decreases bytes@.len() - i,
    {
        if i >= bytes.len() {
            break;
        }
        let b = bytes[i];
        let cont = (LOWER_A <= b && b <= LOWER_Z) || (UPPER_A <= b && b <= UPPER_Z) || (DIGIT_ZERO <= b && b <= DIGIT_NINE)
            || b == UNDERSCORE;
        if !cont {
            break;
        }
        i = i + 1;
    }
    i
}

/// The offset of the first `"` at or after `start`, or `None` when the
/// buffer holds no further quote.
fn quote_scan(bytes: &[u8], start: usize) -> (r: Option<usize>)
    requires
        start <= bytes@.len(),
    ensures
        match r {
            Some(q) => quote_end(bytes@, start as int) == Some(q as int) && start <= q
                < bytes@.len(),
            None => quote_end(bytes@, start as int) is None,
        },
{
    proof {
        lemma_quote_end(bytes@, start as int);
    }
    let mut i: usize = start;
    loop
        invariant
            start <= i <= bytes@.len(),
            quote_end(bytes@, start as int) == quote_end(bytes@, i as int),
        ensures
            match quote_end(bytes@, start as int) {
                Some(q) => i < bytes@.len() && q == i && bytes@[i as int] == QUOTE,
                None => i == bytes@.len(),
            },
        decreases bytes@.len() - i,
    {
        if i >= bytes.len() {
            break;
        }
        if bytes[i] == QUOTE {
            break;
        }
        i = i + 1;
    }
    if i >= bytes.len() {
        None
    } else {
        Some(i)
    }
}

/// Scans the numeric run whose first digit stands at `start - 1`, with the
/// remaining bytes read from `start` on. Returns, in order: the offset just
/// past the run, whether the run holds a decimal point, the run's numeric
/// value when it fits in 64 bits, whether it overflowed, and the number of
/// fraction digits.
fn num_scan(bytes: &[u8], start: usize) -> (r: (usize, bool, u64, bool, usize))
    requires
        1 <= start <= bytes@.len(),
        is_digit(bytes@[start - 1]),
    ensures
        ({
            let e = num_end(bytes@, start as int, false);
            let run = bytes@.subrange(start - 1, e);
            &&& r.0 == e
            &&& start <= e <= bytes@.len()
            &&& r.1 == has_dot(run)
            &&& (!r.3 ==> r.2 == num_val(run))
            &&& (r.3 <==> num_val(run) > u64::MAX)
            &&& r.4 == frac_len(run)
        }),
{
    proof {
        lemma_num_end(bytes@, start as int, false);
    }
    let ghost s = bytes@;
    let ghost j = start - 1;
    let d0 = bytes[start - 1];
    let mut i: usize = start;
    let mut dot = false;
    let mut of = false;
    let mut frac: usize = 0;
    let mut val: u64 = (d0 - DIGIT_ZERO) as u64;
    proof {
        let run0 = s.subrange(j as int, start as int);
        assert(run0 =~= Seq::<u8>::empty().push(d0));
        lemma_has_dot_push(Seq::<u8>::empty(), d0);
        lemma_num_val_push(Seq::<u8>::empty(), d0);
        lemma_frac_push(Seq::<u8>::empty(), d0);
    }
    loop
        invariant
            s == bytes@,
            j == start - 1,
            1 <= start <= i <= s.len(),
            is_digit(s[j as int]),
            num_end(s, start as int, false) == num_end(s, i as int, dot),
            dot == has_dot(s.subrange(j as int, i as int)),
            frac == frac_len(s.subrange(j as int, i as int)),
            !of ==> val == num_val(s.subrange(j as int, i as int)),
            of ==> num_val(s.subrange(j as int, i as int)) > u64::MAX,
        ensures
            i == num_end(s, start as int, false),
            ({
                let run = s.subrange(j as int, i as int);
                &&& dot == has_dot(run)
                &&& frac == frac_len(run)
                &&& (!of ==> val == num_val(run))
                &&& (of ==> num_val(run) > u64::MAX)
            }),
        decreases s.len() - i,
    {
        if i >= bytes.len() {
            break;
        }
        let b = bytes[i];
        let ghost run = s.subrange(j as int, i as int);
        proof {
            assert(s.subrange(j as int, i + 1) =~= run.push(b));
        }
        if DIGIT_ZERO <= b && b <= DIGIT_NINE {
            proof {
                lemma_has_dot_push(run, b);
                lemma_num_val_push(run, b);
                lemma_frac_push(run, b);
                if dot {
                    lemma_frac_bound(run);
                } else {
                    lemma_frac_no_dot(run);
                }
            }
            if !of {
                match val.checked_mul(10) {
                    Some(v10) => {
                        match v10.checked_add((b - DIGIT_ZERO) as u64) {
                            Some(v) => {
                                val = v;
                            },
                            None => {
                                of = true;
                            },
                        }
                    },
                    None => {
                        of = true;
                    },
                }
            }
            if dot {
                frac = frac + 1;
            }
            i = i + 1;
        } else if b == DOT && !dot {
            proof {
                lemma_has_dot_push(run, b);
                lemma_num_val_push(run, b);
                lemma_frac_push_dot(run);
                lemma_frac_no_dot(run);
            }
            dot = true;
            i = i + 1;
        } else {
            break;
        }
    }
    (i, dot, val, of, frac)
}

/// A lazy, finite, forward-only sequence of token-or-error results over a
/// borrowed byte buffer. `last_index` and `index` delimit the span of the
/// most recently produced token or error; pulling after the sequence has
/// ended is well-defined and keeps returning the end signal.
#[derive(Debug, Clone, Copy)]
pub struct TokenIter<'a> {
    pub bytes: &'a [u8],
    pub last_index: usize,
    pub index: usize,
}

impl<'a> TokenIter<'a> {
    /// Cursor invariant: the span start never passes the read position,
    /// which never passes the buffer end.
    pub open spec fn wf(&self) -> bool {
        self.last_index <= self.index <= self.bytes@.len()
    }

    /// A fresh tokenizer over the whole buffer.
    pub fn new(bytes: &'a [u8]) -> (r: TokenIter<'a>)
        ensures
            r.bytes@ == bytes@,
            r.index == 0,
            r.last_index == 0,
            r.wf(),
    {
        TokenIter { bytes, last_index: 0, index: 0 }
    }

    /// The byte span `[start, end)` of the most recently produced token or
    /// error.
    pub fn src_pos(&self) -> (r: core::ops::Range<usize>)
        ensures
            r.start == self.last_index,
            r.end == self.index,
    {
        self.last_index..self.index
    }

    /// The byte at the read position, the position unchanged; `None` at the
    /// buffer end.
    pub fn peek_byte(&self) -> (r: Option<u8>)
        ensures
            r == if self.index < self.bytes@.len() {
                Some(self.bytes@[self.index as int])
            } else {
                None::<u8>
            },
    {
        if self.index < self.bytes.len() {
            Some(self.bytes[self.index])
        } else {
            None
        }
    }

    /// The byte at the read position, the position advanced past it; `None`
    /// at the buffer end, the position unchanged.
    pub fn next_byte(&mut self) -> (r: Option<u8>)
        requires
            old(self).wf(),
        ensures
            final(self).wf(),
            final(self).bytes@ == old(self).bytes@,
            final(self).last_index == old(self).last_index,
            match r {
                Some(b) => old(self).index < old(self).bytes@.len() && b == old(self).bytes@[old(
                    self,
                ).index as int] && final(self).index == old(self).index + 1,
                None => final(self).index == old(self).index && old(self).index == old(
                    self,
                ).bytes@.len(),
            },
    {
        if self.index < self.bytes.len() {
            let b = self.bytes[self.index];
            self.index = self.index + 1;
            Some(b)
        } else {
            None
        }
    }

    /// The byte at the read position, consumed only when the predicate
    /// accepts it; otherwise the state is left unchanged.
    pub fn next_byte_if<F: Fn(u8) -> bool>(&mut self, f: F) -> (r: Option<u8>)
        requires
            old(self).wf(),
            forall|b: u8| #[trigger] f.requires((b,)),
        ensures
            final(self).wf(),
            final(self).bytes@ == old(self).bytes@,
            final(self).last_index == old(self).last_index,
            match r {
                Some(b) => old(self).index < old(self).bytes@.len() && b == old(self).bytes@[old(
                    self,
                ).index as int] && final(self).index == old(self).index + 1 && call_ensures(
                    f,
                    (b,),
                    true,
                ),
                None => final(self).index == old(self).index && (old(self).index < old(
                    self,
                ).bytes@.len() ==> call_ensures(
                    f,
                    (old(self).bytes@[old(self).index as int],),
                    false,
                )),
            },
    {
        match self.peek_byte() {
            Some(b) => {
                if f(b) {
                    self.next_byte()
                } else {
                    None
                }
            },
            None => None,
        }
    }

    /// Classifies the token whose first byte, already consumed, is `byte`,
    /// consuming the token's remaining bytes.
    fn next_token(&mut self, byte: u8) -> (r: Result<Token, TokenizeError>)
        requires
            old(self).wf(),
            1 <= old(self).index <= old(self).bytes@.len(),
            old(self).last_index < old(self).index,
            byte == old(self).bytes@[old(self).index - 1],
        ensures
            final(self).wf(),
            final(self).bytes@ == old(self).bytes@,
            final(self).last_index == old(self).last_index,
            ({
                let st = spec_token(old(self).bytes@, old(self).index - 1);
                final(self).index == st.1 && res_matches(r, st.0)
            }),
    {
        let ghost s = self.bytes@;
        let ghost j = self.index - 1;
        if (LOWER_A <= byte && byte <= LOWER_Z) || (UPPER_A <= byte && byte <= UPPER_Z) {
            let e = ident_scan(self.bytes, self.index);
            proof {
                lemma_ident_end(s, self.index as int);
            }
            let run = copy_range(self.bytes, self.index - 1, e);
            self.index = e;
            match keyword_lookup(&run) {
                Some(k) => Ok(Token::Keyword(k)),
                None => {
                    match ty_lookup(&run) {
                        Some(t) => Ok(Token::Ty(t)),
                        None => {
                            proof {
                                assert(forall|k: int| 0 <= k < run@.len() ==> run@[k] < 0x80);
                                lemma_ascii_decode(run@);
                            }
                            match bytes_to_string(run) {
                                Some(text) => Ok(Token::Identifier(text)),
                                None => {
                                    // An identifier run holds only ASCII
                                    // bytes, so decoding cannot fail.
                                    proof {
                                        assert(false);
                                    }
                                    Err(TokenizeError::NonUTF8)
                                },
                            }
                        },
                    }
                },
            }
        } else if byte == QUOTE {
            match quote_scan(self.bytes, self.index) {
                None => {
                    self.index = self.bytes.len();
                    Err(TokenizeError::NonTerminatedStr)
                },
                Some(q) => {
                    let content = copy_range(self.bytes, self.index, q);
                    proof {
                        lemma_slice_len_bound(self.bytes);
                    }
                    self.index = q + 1;
                    match bytes_to_string(content) {
                        Some(text) => Ok(Token::Literal(Value::Str(text))),
                        None => Err(TokenizeError::NonUTF8),
                    }
                },
            }
        } else if DIGIT_ZERO <= byte && byte <= DIGIT_NINE {
            let (e, dot, val, of, frac) = num_scan(self.bytes, self.index);
            self.index = e;
            if of {
                if dot {
                    Err(TokenizeError::InvalidFloatLiteral)
                } else {
                    Err(TokenizeError::InvalidIntLiteral)
                }
            } else if dot {
                Ok(Token::Literal(Value::Float(Decimal { mantissa: val, scale: frac })))
            } else {
                Ok(Token::Literal(Value::Int(val)))
            }
        } else if byte == STAR {
            Ok(Token::Star)
        } else if byte == COMMA {
            Ok(Token::Comma)
        } else if byte == COLON {
            Ok(Token::Colon)
        } else if byte == SEMICOLON {
            Ok(Token::SemiColon)
        } else if byte == AT_SIGN {
            Ok(Token::At)
        } else if byte == LEFT_PAREN {
            Ok(Token::LeftSmooth)
        } else if byte == RIGHT_PAREN {
            Ok(Token::RightSmooth)
        } else if byte == QUESTION_MARK {
            Ok(Token::QuestionMark)
        } else {
            Err(TokenizeError::UnexpectedCharacter)
        }
    }

    /// One pull: skip whitespace and comments, mark the span start, consume
    /// one byte and classify the token it begins. `None` signals the end of
    /// the sequence: the buffer ran out before a significant byte.
    pub fn next(&mut self) -> (r: Option<Result<Token, TokenizeError>>)
        requires
            old(self).wf(),
        ensures
            final(self).wf(),
            final(self).bytes@ == old(self).bytes@,
            ({
                let s = old(self).bytes@;
                match trivia_end(s, old(self).index as int) {
                    None => r is None && final(self).index == s.len() && final(self).last_index
                        == old(self).last_index,
                    Some(j) => {
                        let st = spec_token(s, j);
                        &&& final(self).last_index == j
                        &&& final(self).index == st.1
                        &&& r is Some
                        &&& res_matches(r->Some_0, st.0)
                    },
                }
            }),
    {
        let ghost s = self.bytes@;
        proof {
            lemma_trivia_end(s, self.index as int);
        }
        match trivia_scan(self.bytes, self.index) {
            None => {
                self.index = self.bytes.len();
                None
            },
            Some(j) => {
                proof {
                    lemma_slice_len_bound(self.bytes);
                }
                self.last_index = j;
                self.index = j + 1;
                let byte = self.bytes[j];
                Some(self.next_token(byte))
            },
        }
    }
}


impl<'a> From<&'a [u8]> for TokenIter<'a> {
    /// A fresh tokenizer over the whole buffer.
    fn from(bytes: &'a [u8]) -> (r: TokenIter<'a>)
        ensures
            r == (TokenIter { bytes, last_index: 0usize, index: 0usize }),
    {
        TokenIter { bytes, last_index: 0, index: 0 }
    }
}

impl<'a> vstd::std_specs::convert::FromSpecImpl<&'a [u8]> for TokenIter<'a> {
    open spec fn obeys_from_spec() -> bool {
        true
    }

    open spec fn from_spec(bytes: &'a [u8]) -> TokenIter<'a> {
        TokenIter { bytes, last_index: 0usize, index: 0usize }
    }
}

} // verus!
