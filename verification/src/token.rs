//! The lexical vocabulary shared by the lexer and the parser.

use vstd::prelude::*;

verus! {

/// One lexical unit of the source text.
#[derive(Debug, PartialEq)]
pub enum Token {
    LParen,
    RParen,
    Quote,
    Identifier(String),
    Integer(String),
    String(String),
    Boolean(bool),
}

/// The mathematical value of a [`Token`]: text is a sequence of characters.
pub enum TokenView {
    LParen,
    RParen,
    Quote,
    Identifier(Seq<char>),
    Integer(Seq<char>),
    String(Seq<char>),
    Boolean(bool),
}

impl View for Token {
    type V = TokenView;

    open spec fn view(&self) -> TokenView {
        match self {
            Token::LParen => TokenView::LParen,
            Token::RParen => TokenView::RParen,
            Token::Quote => TokenView::Quote,
            Token::Identifier(text) => TokenView::Identifier(text@),
            Token::Integer(digits) => TokenView::Integer(digits@),
            Token::String(text) => TokenView::String(text@),
            Token::Boolean(value) => TokenView::Boolean(*value),
        }
    }
}

impl Clone for Token {
    fn clone(&self) -> (copy: Self)
        ensures
            copy@ == self@,
    {
        match self {
            Token::LParen => Token::LParen,
            Token::RParen => Token::RParen,
            Token::Quote => Token::Quote,
            Token::Identifier(text) => Token::Identifier(text.clone()),
            Token::Integer(digits) => Token::Integer(digits.clone()),
            Token::String(text) => Token::String(text.clone()),
            Token::Boolean(value) => Token::Boolean(*value),
        }
    }
}

} // verus!
