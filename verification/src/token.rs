//! Tokens of the source language.

use vstd::prelude::*;

verus! {

/// The kind of a token, with its payload for identifiers and numbers.
#[derive(Debug, Clone)]
pub enum TokenType {
    Let,
    Return,
    Assert,
    Public,
    Private,
    Const,
    Star,
    Plus,
    Equals,
    EqualsEquals,
    Identifier(String),
    Number(i32),
    LeftParen,
    RightParen,
    Eof,
}

/// The identity-level image of a token kind.
pub enum TokenTypeView {
    Let,
    Return,
    Assert,
    Public,
    Private,
    Const,
    Star,
    Plus,
    Equals,
    EqualsEquals,
    Identifier(Seq<char>),
    Number(i32),
    LeftParen,
    RightParen,
    Eof,
}

impl View for TokenType {
    type V = TokenTypeView;

    open spec fn view(&self) -> TokenTypeView {
        match self {
            TokenType::Let => TokenTypeView::Let,
            TokenType::Return => TokenTypeView::Return,
            TokenType::Assert => TokenTypeView::Assert,
            TokenType::Public => TokenTypeView::Public,
            TokenType::Private => TokenTypeView::Private,
            TokenType::Const => TokenTypeView::Const,
            TokenType::Star => TokenTypeView::Star,
            TokenType::Plus => TokenTypeView::Plus,
            TokenType::Equals => TokenTypeView::Equals,
            TokenType::EqualsEquals => TokenTypeView::EqualsEquals,
            TokenType::Identifier(s) => TokenTypeView::Identifier(s@),
            TokenType::Number(n) => TokenTypeView::Number(*n),
            TokenType::LeftParen => TokenTypeView::LeftParen,
            TokenType::RightParen => TokenTypeView::RightParen,
            TokenType::Eof => TokenTypeView::Eof,
        }
    }
}

/// One token with the source character span it was read from.
#[derive(Debug)]
pub struct Token {
    pub token_type: TokenType,
    pub span: (usize, usize),
}

/// The identity-level image of a token.
#[verifier::ext_equal]
pub struct TokenView {
    pub token_type: TokenTypeView,
    pub span: (nat, nat),
}

impl View for Token {
    type V = TokenView;

    open spec fn view(&self) -> TokenView {
        TokenView { token_type: self.token_type@, span: (self.span.0 as nat, self.span.1 as nat) }
    }
}

} // verus!
