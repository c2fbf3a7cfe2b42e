//! The token vocabulary: keywords, primitive type names, literal values,
//! classified tokens, and the errors a pull can report, together with the
//! mathematical models that the tokenizer's contracts speak of.

use vstd::prelude::*;

verus! {

/// A keyword of the language: an identifier-shaped run reserved by the grammar.
#[derive(Debug, Clone, Copy, PartialEq, Eq, Structural)]
pub enum Keyword {
    Let,
    Fn,
    Return,
}

/// A primitive type name of the language, also identifier-shaped.
#[derive(Debug, Clone, Copy, PartialEq, Eq, Structural)]
pub enum Ty {
    Int32,
    Int64,
    Bool,
    Str,
}

/// The payload of a float literal, kept exact: the digits of the source run
/// with the decimal point removed (`mantissa`) and the number of digits that
/// followed the point (`scale`), so the value written is
/// `mantissa / 10^scale`.
#[derive(Debug, Clone, Copy, PartialEq, Eq, Structural)]
pub struct Decimal {
    pub mantissa: u64,
    pub scale: usize,
}

/// A literal value carried by a `Token::Literal`.
#[derive(Debug, Clone, PartialEq)]
pub enum Value {
    Str(String),
    Int(u64),
    Float(Decimal),
}

/// One classified lexical unit.
#[derive(Debug, Clone, PartialEq)]
pub enum Token {
    Keyword(Keyword),
    Ty(Ty),
    Identifier(String),
    Literal(Value),
    Star,
    Comma,
    Colon,
    SemiColon,
    At,
    LeftSmooth,
    RightSmooth,
    QuestionMark,
}

/// What a failing pull reports; the failing byte range is the cursor span.
#[derive(Debug, Clone, Copy, PartialEq, Eq, Structural)]
pub enum TokenizeError {
    NonTerminatedStr,
    NonUTF8,
    UnexpectedCharacter,
    InvalidFloatLiteral,
    InvalidIntLiteral,
}

/// Mathematical model of a literal value: text as a sequence of characters,
/// numbers as unbounded naturals (a float as mantissa and scale).
pub enum SpecValue {
    Str(Seq<char>),
    Int(nat),
    Float(nat, nat),
}

/// Mathematical model of a token.
pub enum SpecToken {
    Keyword(Keyword),
    Ty(Ty),
    Identifier(Seq<char>),
    Literal(SpecValue),
    Star,
    Comma,
    Colon,
    SemiColon,
    At,
    LeftSmooth,
    RightSmooth,
    QuestionMark,
}

impl View for Value {
    type V = SpecValue;

    open spec fn view(&self) -> SpecValue {
        match self {
            Value::Str(s) => SpecValue::Str(s@),
            Value::Int(n) => SpecValue::Int(*n as nat),
            Value::Float(d) => SpecValue::Float(d.mantissa as nat, d.scale as nat),
        }
    }
}

impl View for Token {
    type V = SpecToken;

    open spec fn view(&self) -> SpecToken {
        match self {
            Token::Keyword(k) => SpecToken::Keyword(*k),
            Token::Ty(t) => SpecToken::Ty(*t),
            Token::Identifier(s) => SpecToken::Identifier(s@),
            Token::Literal(v) => SpecToken::Literal(v@),
            Token::Star => SpecToken::Star,
            Token::Comma => SpecToken::Comma,
            Token::Colon => SpecToken::Colon,
            Token::SemiColon => SpecToken::SemiColon,
            Token::At => SpecToken::At,
            Token::LeftSmooth => SpecToken::LeftSmooth,
            Token::RightSmooth => SpecToken::RightSmooth,
            Token::QuestionMark => SpecToken::QuestionMark,
        }
    }
}

/// True when `run` spells `let`.
pub open spec fn spells_let(run: Seq<u8>) -> bool {
    run.len() == 3 && run[0] == 108 && run[1] == 101 && run[2] == 116
}

/// True when `run` spells `fn`.
pub open spec fn spells_fn(run: Seq<u8>) -> bool {
    run.len() == 2 && run[0] == 102 && run[1] == 110
}

/// True when `run` spells `return`.
pub open spec fn spells_return(run: Seq<u8>) -> bool {
    run.len() == 6 && run[0] == 114 && run[1] == 101 && run[2] == 116 && run[3] == 117
        && run[4] == 114 && run[5] == 110
}

/// True when `run` spells `int32`.
pub open spec fn spells_int32(run: Seq<u8>) -> bool {
    run.len() == 5 && run[0] == 105 && run[1] == 110 && run[2] == 116 && run[3] == 51
        && run[4] == 50
}

/// True when `run` spells `int64`.
pub open spec fn spells_int64(run: Seq<u8>) -> bool {
    run.len() == 5 && run[0] == 105 && run[1] == 110 && run[2] == 116 && run[3] == 54
        && run[4] == 52
}

/// True when `run` spells `bool`.
pub open spec fn spells_bool(run: Seq<u8>) -> bool {
    run.len() == 4 && run[0] == 98 && run[1] == 111 && run[2] == 111 && run[3] == 108
}

/// True when `run` spells `str`.
pub open spec fn spells_str(run: Seq<u8>) -> bool {
    run.len() == 3 && run[0] == 115 && run[1] == 116 && run[2] == 114
}

/// The keyword that an identifier-shaped byte run resolves to, if any.
pub open spec fn keyword_of(run: Seq<u8>) -> Option<Keyword> {
    if spells_let(run) {
        Some(Keyword::Let)
    } else if spells_fn(run) {
        Some(Keyword::Fn)
    } else if spells_return(run) {
        Some(Keyword::Return)
    } else {
        None
    }
}

/// The primitive type name that an identifier-shaped byte run resolves to, if any.
pub open spec fn ty_of(run: Seq<u8>) -> Option<Ty> {
    if spells_int32(run) {
        Some(Ty::Int32)
    } else if spells_int64(run) {
        Some(Ty::Int64)
    } else if spells_bool(run) {
        Some(Ty::Bool)
    } else if spells_str(run) {
        Some(Ty::Str)
    } else {
        None
    }
}

/// Resolves an identifier-shaped byte run against the closed keyword set.
pub fn keyword_lookup(run: &Vec<u8>) -> (r: Option<Keyword>)
    ensures
        r == keyword_of(run@),
{
    if run.len() == 3 && run[0] == 108 && run[1] == 101 && run[2] == 116 {
        Some(Keyword::Let)
    } else if run.len() == 2 && run[0] == 102 && run[1] == 110 {
        Some(Keyword::Fn)
    } else if run.len() == 6 && run[0] == 114 && run[1] == 101 && run[2] == 116 && run[3] == 117
        && run[4] == 114 && run[5] == 110 {
        Some(Keyword::Return)
    } else {
        None
    }
}

/// Resolves an identifier-shaped byte run against the closed type-name set.
pub fn ty_lookup(run: &Vec<u8>) -> (r: Option<Ty>)
    ensures
        r == ty_of(run@),
{
    if run.len() == 5 && run[0] == 105 && run[1] == 110 && run[2] == 116 && run[3] == 51
        && run[4] == 50 {
        Some(Ty::Int32)
    } else if run.len() == 5 && run[0] == 105 && run[1] == 110 && run[2] == 116 && run[3] == 54
        && run[4] == 52 {
        Some(Ty::Int64)
    } else if run.len() == 4 && run[0] == 98 && run[1] == 111 && run[2] == 111 && run[3]
        == 108 {
        Some(Ty::Bool)
    } else if run.len() == 3 && run[0] == 115 && run[1] == 116 && run[2] == 114 {
        Some(Ty::Str)
    } else {
        None
    }
}

} // verus!
