//! Tokens produced by the lexer.

use vstd::prelude::*;

verus! {

/// A lexical token. `S` is the type of the text payloads: `String` in the
/// tokens the lexer hands out ([`Token`]), `Seq<char>` in their
/// mathematical model ([`TokenView`]).
///
/// A float literal is carried as its source text (digits, `.`, digits), which
/// `str::parse::<f64>` always accepts; the library itself does no floating
/// point.
#[derive(Debug, Clone, PartialEq)]
pub enum TokenOf<S> {
    //Literals
    Ident(S),
    IntLit(i64),
    FloatLit(S),
    StringLit(S),
    CharLit(char),
    BoolLit(bool),

    //Keywords
    Fn,
    Let,
    Mut,
    If,
    Else,
    Loop,
    For,
    Parallel,
    Match,
    Return,

    //Punctuation/Delimiters
    LParen,
    RParen,
    LBrace,
    RBrace,
    LBracket,
    RBracket,
    Comma,
    Semicolon,
    Colon,
    Arrow,
    FatArrow,
    At,
    Underscore,

    //Operators
    Plus,
    Minus,
    Star,
    Slash,
    Percent,
    Eq,
    EqEq,
    NotEq,
    Lt,
    Gt,
    LtEq,
    GtEq,
    AndAnd,
    OrOr,
    Not,
    Amp,
    DotDot,

    Eof,
}

/// The tokens the lexer returns.
pub type Token = TokenOf<String>;

/// The model of a token: text payloads as char sequences.
pub type TokenView = TokenOf<Seq<char>>;

impl View for TokenOf<String> {
    type V = TokenView;

    open spec fn view(&self) -> TokenView {
        match self {
            TokenOf::Ident(s) => TokenOf::Ident(s@),
            TokenOf::IntLit(n) => TokenOf::IntLit(*n),
            TokenOf::FloatLit(s) => TokenOf::FloatLit(s@),
            TokenOf::StringLit(s) => TokenOf::StringLit(s@),
            TokenOf::CharLit(c) => TokenOf::CharLit(*c),
            TokenOf::BoolLit(b) => TokenOf::BoolLit(*b),
            TokenOf::Fn => TokenOf::Fn,
            TokenOf::Let => TokenOf::Let,
            TokenOf::Mut => TokenOf::Mut,
            TokenOf::If => TokenOf::If,
            TokenOf::Else => TokenOf::Else,
            TokenOf::Loop => TokenOf::Loop,
            TokenOf::For => TokenOf::For,
            TokenOf::Parallel => TokenOf::Parallel,
            TokenOf::Match => TokenOf::Match,
            TokenOf::Return => TokenOf::Return,
            TokenOf::LParen => TokenOf::LParen,
            TokenOf::RParen => TokenOf::RParen,
            TokenOf::LBrace => TokenOf::LBrace,
            TokenOf::RBrace => TokenOf::RBrace,
            TokenOf::LBracket => TokenOf::LBracket,
            TokenOf::RBracket => TokenOf::RBracket,
            TokenOf::Comma => TokenOf::Comma,
            TokenOf::Semicolon => TokenOf::Semicolon,
            TokenOf::Colon => TokenOf::Colon,
            TokenOf::Arrow => TokenOf::Arrow,
            TokenOf::FatArrow => TokenOf::FatArrow,
            TokenOf::At => TokenOf::At,
            TokenOf::Underscore => TokenOf::Underscore,
            TokenOf::Plus => TokenOf::Plus,
            TokenOf::Minus => TokenOf::Minus,
            TokenOf::Star => TokenOf::Star,
            TokenOf::Slash => TokenOf::Slash,
            TokenOf::Percent => TokenOf::Percent,
            TokenOf::Eq => TokenOf::Eq,
            TokenOf::EqEq => TokenOf::EqEq,
            TokenOf::NotEq => TokenOf::NotEq,
            TokenOf::Lt => TokenOf::Lt,
            TokenOf::Gt => TokenOf::Gt,
            TokenOf::LtEq => TokenOf::LtEq,
            TokenOf::GtEq => TokenOf::GtEq,
            TokenOf::AndAnd => TokenOf::AndAnd,
            TokenOf::OrOr => TokenOf::OrOr,
            TokenOf::Not => TokenOf::Not,
            TokenOf::Amp => TokenOf::Amp,
            TokenOf::DotDot => TokenOf::DotDot,
            TokenOf::Eof => TokenOf::Eof,
        }
    }
}

} // verus!
