use vstd::prelude::*;

verus! {

/// The value carried by a literal token.
#[derive(Debug, Clone, Copy, PartialEq, Eq, Structural)]
pub enum Literals {
    Int(u32),
}

/// The reserved words of the language.
#[derive(Debug, Clone, Copy, PartialEq, Eq, Structural)]
pub enum Keywords {
    Int,
    Return,
}

/// One token of the source text.
#[derive(Debug, Clone, PartialEq)]
pub enum Token {
    Identifier(String),
    Keyword(Keywords),
    Literal(Literals),
    OpenBrace,
    CloseBrace,
    OpenParen,
    CloseParen,
    Semicolon,
}

/// The mathematical value of a token: an identifier's name as characters.
pub enum TokenView {
    Identifier(Seq<char>),
    Keyword(Keywords),
    Literal(Literals),
    OpenBrace,
    CloseBrace,
    OpenParen,
    CloseParen,
    Semicolon,
}

impl View for Token {
    type V = TokenView;

    open spec fn view(&self) -> TokenView {
        match self {
            Token::Identifier(name) => TokenView::Identifier(name@),
            Token::Keyword(k) => TokenView::Keyword(*k),
            Token::Literal(l) => TokenView::Literal(*l),
            Token::OpenBrace => TokenView::OpenBrace,
            Token::CloseBrace => TokenView::CloseBrace,
            Token::OpenParen => TokenView::OpenParen,
            Token::CloseParen => TokenView::CloseParen,
            Token::Semicolon => TokenView::Semicolon,
        }
    }
}

/// Why a scan stopped. Positions are byte offsets into the source.
#[derive(Debug, Clone, PartialEq)]
pub enum LexError {
    /// The byte at `position` starts no token; `remaining` is the input from there on.
    UnrecognizedInput { position: usize, remaining: Vec<u8> },
    /// The run of digits starting at `position` is longer than a literal may be.
    LiteralTooLong { position: usize },
    /// The run of letters and digits starting at `position` is longer than a name may be.
    IdentifierTooLong { position: usize },
}

/// The mathematical value of a `LexError`.
pub enum LexFailure {
    UnrecognizedInput { position: nat, remaining: Seq<u8> },
    LiteralTooLong { position: nat },
    IdentifierTooLong { position: nat },
}

impl View for LexError {
    type V = LexFailure;

    open spec fn view(&self) -> LexFailure {
        match self {
            LexError::UnrecognizedInput { position, remaining } => LexFailure::UnrecognizedInput {
                position: *position as nat,
                remaining: remaining@,
            },
            LexError::LiteralTooLong { position } => LexFailure::LiteralTooLong {
                position: *position as nat,
            },
            LexError::IdentifierTooLong { position } => LexFailure::IdentifierTooLong {
                position: *position as nat,
            },
        }
    }
}

/// The tokens of a sequence, each by its view.
pub open spec fn tokens_view(ts: Seq<Token>) -> Seq<TokenView> {
    ts.map_values(|t: Token| t@)
}

/// The view of a scan's outcome.
pub open spec fn result_view(r: Result<Vec<Token>, LexError>) -> Result<Seq<TokenView>, LexFailure> {
    match r {
        Ok(ts) => Ok(tokens_view(ts@)),
        Err(e) => Err(e@),
    }
}

} // verus!
