//! The token vocabulary of the language and the source spans that tokens
//! carry.
use vstd::prelude::*;

verus! {

/// A half-open byte range `[lo, hi)` of the source text.
#[derive(Debug, Clone, Copy, PartialEq, Eq, Structural)]
pub struct Span(pub usize, pub usize);

/// Combines the span of a first and a last child into the span of their
/// parent: from the start of the first to the end of the last.
pub fn join(a: Span, b: Span) -> (r: Span)
    ensures
        r == Span(a.0, b.1),
{
    Span(a.0, b.1)
}

/// One classified unit of source text.
#[derive(Debug, Clone, PartialEq)]
pub enum Token {
    Whitespace,
    Comment,
    Print,
    Typeof,
    Integer(i32),
    LeftBracket,
    RightBracket,
    LeftBrace,
    RightBrace,
    True,
    False,
    Comma,
    String(String),
    Env,
    Ident(String),
    Equals,
    Plus,
    Minus,
    Star,
    Slash,
    LeftParen,
    RightParen,
    Semi,
    Bang,
    Gt,
    Lt,
    Ge,
    Le,
    Eq,
    Ne,
    Dot,
}

/// The mathematical value of a token: text payloads seen as characters.
pub enum TokenV {
    Whitespace,
    Comment,
    Print,
    Typeof,
    Integer(i32),
    LeftBracket,
    RightBracket,
    LeftBrace,
    RightBrace,
    True,
    False,
    Comma,
    String(Seq<char>),
    Env,
    Ident(Seq<char>),
    Equals,
    Plus,
    Minus,
    Star,
    Slash,
    LeftParen,
    RightParen,
    Semi,
    Bang,
    Gt,
    Lt,
    Ge,
    Le,
    Eq,
    Ne,
    Dot,
}

impl View for Token {
    type V = TokenV;

    open spec fn view(&self) -> TokenV {
        match self {
            Token::Whitespace => TokenV::Whitespace,
            Token::Comment => TokenV::Comment,
            Token::Print => TokenV::Print,
            Token::Typeof => TokenV::Typeof,
            Token::Integer(i) => TokenV::Integer(*i),
            Token::LeftBracket => TokenV::LeftBracket,
            Token::RightBracket => TokenV::RightBracket,
            Token::LeftBrace => TokenV::LeftBrace,
            Token::RightBrace => TokenV::RightBrace,
            Token::True => TokenV::True,
            Token::False => TokenV::False,
            Token::Comma => TokenV::Comma,
            Token::String(s) => TokenV::String(s@),
            Token::Env => TokenV::Env,
            Token::Ident(s) => TokenV::Ident(s@),
            Token::Equals => TokenV::Equals,
            Token::Plus => TokenV::Plus,
            Token::Minus => TokenV::Minus,
            Token::Star => TokenV::Star,
            Token::Slash => TokenV::Slash,
            Token::LeftParen => TokenV::LeftParen,
            Token::RightParen => TokenV::RightParen,
            Token::Semi => TokenV::Semi,
            Token::Bang => TokenV::Bang,
            Token::Gt => TokenV::Gt,
            Token::Lt => TokenV::Lt,
            Token::Ge => TokenV::Ge,
            Token::Le => TokenV::Le,
            Token::Eq => TokenV::Eq,
            Token::Ne => TokenV::Ne,
            Token::Dot => TokenV::Dot,
        }
    }
}

} // verus!
