use vstd::prelude::*;

verus! {

/// The kind of a token.
#[derive(Debug, Copy, Clone, PartialEq, Eq, Structural, Hash, PartialOrd, Ord)]
pub enum TokenKind {
    Whitespace,
    FnKw,
    LetKw,
    Ident,
    Number,
    Plus,
    Minus,
    Star,
    Slash,
    Equals,
    LParen,
    RParen,
    LBrace,
    RBrace,
    Comment,
    Error,
}

impl TokenKind {
    /// Trivia carries no grammatical meaning: whitespace and comments.
    pub open spec fn trivia(self) -> bool {
        self == TokenKind::Whitespace || self == TokenKind::Comment
    }

    /// Whether this kind is trivia.
    pub fn is_trivia(self) -> (b: bool)
        ensures
            b == self.trivia(),
    {
        match self {
            TokenKind::Whitespace | TokenKind::Comment => true,
            _ => false,
        }
    }

    /// The words by which a diagnostic names this kind.
    pub open spec fn describe_spec(self) -> Seq<char> {
        match self {
            TokenKind::Whitespace => "whitespace"@,
            TokenKind::FnKw => "'fn'"@,
            TokenKind::LetKw => "'let'"@,
            TokenKind::Ident => "identifier"@,
            TokenKind::Number => "number-literal"@,
            TokenKind::Plus => "'+'"@,
            TokenKind::Minus => "'-'"@,
            TokenKind::Star => "'*'"@,
            TokenKind::Slash => "'/'"@,
            TokenKind::Equals => "'='"@,
            TokenKind::LParen => "'('"@,
            TokenKind::RParen => "')'"@,
            TokenKind::LBrace => "'{'"@,
            TokenKind::RBrace => "'}'"@,
            TokenKind::Comment => "comment"@,
            TokenKind::Error => "an unrecognized token"@,
        }
    }

    /// The words by which a diagnostic names this kind.
    pub fn describe(self) -> (s: &'static str)
        ensures
            s@ == self.describe_spec(),
    {
        match self {
            TokenKind::Whitespace => "whitespace",
            TokenKind::FnKw => "'fn'",
            TokenKind::LetKw => "'let'",
            TokenKind::Ident => "identifier",
            TokenKind::Number => "number-literal",
            TokenKind::Plus => "'+'",
            TokenKind::Minus => "'-'",
            TokenKind::Star => "'*'",
            TokenKind::Slash => "'/'",
            TokenKind::Equals => "'='",
            TokenKind::LParen => "'('",
            TokenKind::RParen => "')'",
            TokenKind::LBrace => "'{'",
            TokenKind::RBrace => "'}'",
            TokenKind::Comment => "comment",
            TokenKind::Error => "an unrecognized token",
        }
    }
}

} // verus!
