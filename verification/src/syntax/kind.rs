//! The kinds of nodes and tokens.
use crate::lexer::TokenKind;
use vstd::prelude::*;

verus! {

/// The kind of a node or of a token in a syntax tree.
#[derive(Debug, Copy, Clone, PartialEq, Eq, Structural, Hash, PartialOrd, Ord)]
pub enum SyntaxKind {
    Whitespace,
    FnKw,
    LetKw,
    Ident,
    Number,
    Plus,
    Minus,
    Star,
    Slash,
    Equals,
    LParen,
    RParen,
    LBrace,
    RBrace,
    Comment,
    Error,
    Root,
    InfixExpr,
    Literal,
    ParenExpr,
    PrefixExpr,
    VariableDef,
    VariableRef,
}

/// The number of kinds; the raw values of the kinds are `0` up to this.
pub const KIND_COUNT: u16 = 23;

impl SyntaxKind {
    /// The number that stands for this kind in a green tree.
    pub open spec fn raw(self) -> u16 {
        match self {
            SyntaxKind::Whitespace => 0,
            SyntaxKind::FnKw => 1,
            SyntaxKind::LetKw => 2,
            SyntaxKind::Ident => 3,
            SyntaxKind::Number => 4,
            SyntaxKind::Plus => 5,
            SyntaxKind::Minus => 6,
            SyntaxKind::Star => 7,
            SyntaxKind::Slash => 8,
            SyntaxKind::Equals => 9,
            SyntaxKind::LParen => 10,
            SyntaxKind::RParen => 11,
            SyntaxKind::LBrace => 12,
            SyntaxKind::RBrace => 13,
            SyntaxKind::Comment => 14,
            SyntaxKind::Error => 15,
            SyntaxKind::Root => 16,
            SyntaxKind::InfixExpr => 17,
            SyntaxKind::Literal => 18,
            SyntaxKind::ParenExpr => 19,
            SyntaxKind::PrefixExpr => 20,
            SyntaxKind::VariableDef => 21,
            SyntaxKind::VariableRef => 22,
        }
    }

    /// The kind for which `raw` stands, if it stands for one.
    pub open spec fn of_raw(raw: u16) -> Option<SyntaxKind> {
        if raw == 0 {
            Some(SyntaxKind::Whitespace)
        } else if raw == 1 {
            Some(SyntaxKind::FnKw)
        } else if raw == 2 {
            Some(SyntaxKind::LetKw)
        } else if raw == 3 {
            Some(SyntaxKind::Ident)
        } else if raw == 4 {
            Some(SyntaxKind::Number)
        } else if raw == 5 {
            Some(SyntaxKind::Plus)
        } else if raw == 6 {
            Some(SyntaxKind::Minus)
        } else if raw == 7 {
            Some(SyntaxKind::Star)
        } else if raw == 8 {
            Some(SyntaxKind::Slash)
        } else if raw == 9 {
            Some(SyntaxKind::Equals)
        } else if raw == 10 {
            Some(SyntaxKind::LParen)
        } else if raw == 11 {
            Some(SyntaxKind::RParen)
        } else if raw == 12 {
            Some(SyntaxKind::LBrace)
        } else if raw == 13 {
            Some(SyntaxKind::RBrace)
        } else if raw == 14 {
            Some(SyntaxKind::Comment)
        } else if raw == 15 {
            Some(SyntaxKind::Error)
        } else if raw == 16 {
            Some(SyntaxKind::Root)
        } else if raw == 17 {
            Some(SyntaxKind::InfixExpr)
        } else if raw == 18 {
            Some(SyntaxKind::Literal)
        } else if raw == 19 {
            Some(SyntaxKind::ParenExpr)
        } else if raw == 20 {
            Some(SyntaxKind::PrefixExpr)
        } else if raw == 21 {
            Some(SyntaxKind::VariableDef)
        } else if raw == 22 {
            Some(SyntaxKind::VariableRef)
        } else {
            None
        }
    }

    /// The kind of a token in the tree.
    pub open spec fn of_token(kind: TokenKind) -> SyntaxKind {
        match kind {
            TokenKind::Whitespace => SyntaxKind::Whitespace,
            TokenKind::FnKw => SyntaxKind::FnKw,
            TokenKind::LetKw => SyntaxKind::LetKw,
            TokenKind::Ident => SyntaxKind::Ident,
            TokenKind::Number => SyntaxKind::Number,
            TokenKind::Plus => SyntaxKind::Plus,
            TokenKind::Minus => SyntaxKind::Minus,
            TokenKind::Star => SyntaxKind::Star,
            TokenKind::Slash => SyntaxKind::Slash,
            TokenKind::Equals => SyntaxKind::Equals,
            TokenKind::LParen => SyntaxKind::LParen,
            TokenKind::RParen => SyntaxKind::RParen,
            TokenKind::LBrace => SyntaxKind::LBrace,
            TokenKind::RBrace => SyntaxKind::RBrace,
            TokenKind::Comment => SyntaxKind::Comment,
            TokenKind::Error => SyntaxKind::Error,
        }
    }

    /// The number that stands for this kind in a green tree.
    pub fn to_raw(self) -> (raw: u16)
        ensures
            raw == self.raw(),
            raw < KIND_COUNT,
    {
        match self {
            SyntaxKind::Whitespace => 0,
            SyntaxKind::FnKw => 1,
            SyntaxKind::LetKw => 2,
            SyntaxKind::Ident => 3,
            SyntaxKind::Number => 4,
            SyntaxKind::Plus => 5,
            SyntaxKind::Minus => 6,
            SyntaxKind::Star => 7,
            SyntaxKind::Slash => 8,
            SyntaxKind::Equals => 9,
            SyntaxKind::LParen => 10,
            SyntaxKind::RParen => 11,
            SyntaxKind::LBrace => 12,
            SyntaxKind::RBrace => 13,
            SyntaxKind::Comment => 14,
            SyntaxKind::Error => 15,
            SyntaxKind::Root => 16,
            SyntaxKind::InfixExpr => 17,
            SyntaxKind::Literal => 18,
            SyntaxKind::ParenExpr => 19,
            SyntaxKind::PrefixExpr => 20,
            SyntaxKind::VariableDef => 21,
            SyntaxKind::VariableRef => 22,
        }
    }

    /// The kind for which `raw` stands; `None` where it stands for none.
    pub fn from_raw(raw: u16) -> (kind: Option<SyntaxKind>)
        ensures
            kind == Self::of_raw(raw),
            kind is Some <==> raw < KIND_COUNT,
    {
        match raw {
            0 => Some(SyntaxKind::Whitespace),
            1 => Some(SyntaxKind::FnKw),
            2 => Some(SyntaxKind::LetKw),
            3 => Some(SyntaxKind::Ident),
            4 => Some(SyntaxKind::Number),
            5 => Some(SyntaxKind::Plus),
            6 => Some(SyntaxKind::Minus),
            7 => Some(SyntaxKind::Star),
            8 => Some(SyntaxKind::Slash),
            9 => Some(SyntaxKind::Equals),
            10 => Some(SyntaxKind::LParen),
            11 => Some(SyntaxKind::RParen),
            12 => Some(SyntaxKind::LBrace),
            13 => Some(SyntaxKind::RBrace),
            14 => Some(SyntaxKind::Comment),
            15 => Some(SyntaxKind::Error),
            16 => Some(SyntaxKind::Root),
            17 => Some(SyntaxKind::InfixExpr),
            18 => Some(SyntaxKind::Literal),
            19 => Some(SyntaxKind::ParenExpr),
            20 => Some(SyntaxKind::PrefixExpr),
            21 => Some(SyntaxKind::VariableDef),
            22 => Some(SyntaxKind::VariableRef),
            _ => None,
        }
    }

    /// The kind of a token in the tree.
    pub fn from_token(kind: TokenKind) -> (syntax: SyntaxKind)
        ensures
            syntax == Self::of_token(kind),
    {
        match kind {
            TokenKind::Whitespace => SyntaxKind::Whitespace,
            TokenKind::FnKw => SyntaxKind::FnKw,
            TokenKind::LetKw => SyntaxKind::LetKw,
            TokenKind::Ident => SyntaxKind::Ident,
            TokenKind::Number => SyntaxKind::Number,
            TokenKind::Plus => SyntaxKind::Plus,
            TokenKind::Minus => SyntaxKind::Minus,
            TokenKind::Star => SyntaxKind::Star,
            TokenKind::Slash => SyntaxKind::Slash,
            TokenKind::Equals => SyntaxKind::Equals,
            TokenKind::LParen => SyntaxKind::LParen,
            TokenKind::RParen => SyntaxKind::RParen,
            TokenKind::LBrace => SyntaxKind::LBrace,
            TokenKind::RBrace => SyntaxKind::RBrace,
            TokenKind::Comment => SyntaxKind::Comment,
            TokenKind::Error => SyntaxKind::Error,
        }
    }

    /// The name of this kind, as a dump of a tree shows it.
    pub open spec fn name_spec(self) -> Seq<char> {
        match self {
            SyntaxKind::Whitespace => "Whitespace"@,
            SyntaxKind::FnKw => "FnKw"@,
            SyntaxKind::LetKw => "LetKw"@,
            SyntaxKind::Ident => "Ident"@,
            SyntaxKind::Number => "Number"@,
            SyntaxKind::Plus => "Plus"@,
            SyntaxKind::Minus => "Minus"@,
            SyntaxKind::Star => "Star"@,
            SyntaxKind::Slash => "Slash"@,
            SyntaxKind::Equals => "Equals"@,
            SyntaxKind::LParen => "LParen"@,
            SyntaxKind::RParen => "RParen"@,
            SyntaxKind::LBrace => "LBrace"@,
            SyntaxKind::RBrace => "RBrace"@,
            SyntaxKind::Comment => "Comment"@,
            SyntaxKind::Error => "Error"@,
            SyntaxKind::Root => "Root"@,
            SyntaxKind::InfixExpr => "InfixExpr"@,
            SyntaxKind::Literal => "Literal"@,
            SyntaxKind::ParenExpr => "ParenExpr"@,
            SyntaxKind::PrefixExpr => "PrefixExpr"@,
            SyntaxKind::VariableDef => "VariableDef"@,
            SyntaxKind::VariableRef => "VariableRef"@,
        }
    }

    /// The name of this kind, as a dump of a tree shows it.
    pub fn name(self) -> (s: &'static str)
        ensures
            s@ == self.name_spec(),
    {
        match self {
            SyntaxKind::Whitespace => "Whitespace",
            SyntaxKind::FnKw => "FnKw",
            SyntaxKind::LetKw => "LetKw",
            SyntaxKind::Ident => "Ident",
            SyntaxKind::Number => "Number",
            SyntaxKind::Plus => "Plus",
            SyntaxKind::Minus => "Minus",
            SyntaxKind::Star => "Star",
            SyntaxKind::Slash => "Slash",
            SyntaxKind::Equals => "Equals",
            SyntaxKind::LParen => "LParen",
            SyntaxKind::RParen => "RParen",
            SyntaxKind::LBrace => "LBrace",
            SyntaxKind::RBrace => "RBrace",
            SyntaxKind::Comment => "Comment",
            SyntaxKind::Error => "Error",
            SyntaxKind::Root => "Root",
            SyntaxKind::InfixExpr => "InfixExpr",
            SyntaxKind::Literal => "Literal",
            SyntaxKind::ParenExpr => "ParenExpr",
            SyntaxKind::PrefixExpr => "PrefixExpr",
            SyntaxKind::VariableDef => "VariableDef",
            SyntaxKind::VariableRef => "VariableRef",
        }
    }
}

/// A kind is found again from the number that stands for it.
pub proof fn lemma_raw_round_trip(kind: SyntaxKind)
    ensures
        SyntaxKind::of_raw(kind.raw()) == Some(kind),
{
}

/// A number that stands for a kind is the number of that kind.
pub proof fn lemma_of_raw_raw(raw: u16)
    requires
        raw < KIND_COUNT,
    ensures
        SyntaxKind::of_raw(raw) matches Some(kind) && kind.raw() == raw,
{
}

} // verus!
