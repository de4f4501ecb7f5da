//! The data model of the lexer: classified tokens and their
//! mathematical views.
//!
//! Executable tokens own their lexeme bytes as `Vec<u8>`; their views
//! (`TokenView`, `NumberView`) carry the same data as `Seq<u8>` and
//! unbounded integers, which is what every contract in this crate
//! speaks of.

use vstd::prelude::*;

verus! {

/// Which delimiters a comment used: `-- ... <line break>` (`Inline`)
/// or `--- ... ---` (`Block`).
#[derive(Debug, PartialEq, Eq, Structural, Clone, Copy)]
pub enum CommentType {
    Inline,
    Block,
}

/// The closed set of reserved words.
#[derive(Debug, PartialEq, Eq, Structural, Clone, Copy)]
pub enum Keyword {
    Import,
    Fn,
    Let,
    Const,
    If,
    Else,
    Return,
}

/// Single-character punctuation.
#[derive(Debug, PartialEq, Eq, Structural, Clone, Copy)]
pub enum Punctuation {
    Period,    // .
    Comma,     // ,
    Colon,     // :
    SemiColon, // ;
    RParen,    // (
    LParen,    // )
    RBrack,    // [
    LBrack,    // ]
    RBrace,    // {
    LBrace,    // }
}

/// Operators, one or two characters, longest match first.
#[derive(Debug, PartialEq, Eq, Structural, Clone, Copy)]
pub enum Operator {
    Equal,   // =
    Plus,    // +
    Minus,   // -
    Mod,     // %
    IsEqual, // ==
    Concat,  // ++
}

/// A numeric literal.
///
/// `Int` holds the value of a plain digit run. `Float` keeps the two
/// halves of `<integer>.<fraction>` exactly as they were read: the
/// integer part as a value and the fraction as its digit bytes, so a
/// caller may form the decimal number without this crate holding a
/// floating-point value itself.
#[derive(Debug, PartialEq, Eq)]
pub enum Number {
    Float(i32, Vec<u8>),
    Int(i32),
}

/// A classified unit of lexical meaning. Variants that carry text hold
/// the raw bytes of the lexeme, delimiters excluded.
#[derive(Debug, PartialEq, Eq)]
pub enum Token {
    Comment(CommentType, Vec<u8>),
    Keyword(Keyword),
    Identifier(Vec<u8>),
    Punctuation(Punctuation),
    Operator(Operator),
    String(Vec<u8>),
    Number(Number),
    Bool(bool),
}

/// The mathematical model of a numeric literal.
pub enum NumberView {
    Float(int, Seq<u8>),
    Int(int),
}

/// The mathematical model of a token: the same shape as [`Token`],
/// over `Seq<u8>` and `int`.
pub enum TokenView {
    Comment(CommentType, Seq<u8>),
    Keyword(Keyword),
    Identifier(Seq<u8>),
    Punctuation(Punctuation),
    Operator(Operator),
    String(Seq<u8>),
    Number(NumberView),
    Bool(bool),
}

impl View for Number {
    type V = NumberView;

    open spec fn view(&self) -> NumberView {
        match self {
            Number::Float(ip, frac) => NumberView::Float(*ip as int, frac@),
            Number::Int(v) => NumberView::Int(*v as int),
        }
    }
}

impl View for Token {
    type V = TokenView;

    open spec fn view(&self) -> TokenView {
        match self {
            Token::Comment(kind, text) => TokenView::Comment(*kind, text@),
            Token::Keyword(k) => TokenView::Keyword(*k),
            Token::Identifier(text) => TokenView::Identifier(text@),
            Token::Punctuation(p) => TokenView::Punctuation(*p),
            Token::Operator(o) => TokenView::Operator(*o),
            Token::String(text) => TokenView::String(text@),
            Token::Number(n) => TokenView::Number(n@),
            Token::Bool(b) => TokenView::Bool(*b),
        }
    }
}

} // verus!
