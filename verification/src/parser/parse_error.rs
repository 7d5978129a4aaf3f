use crate::lexer::TokenKind;
use crate::text::{decimal, push_decimal, TextRange};
use vstd::prelude::*;

verus! {

/// A diagnostic of the parser: the kinds that could have stood at a place, the
/// kind that did stand there, and where.
#[derive(Debug, PartialEq, Clone, Eq)]
pub struct ParseError {
    pub expected: Vec<TokenKind>,
    pub found: Option<TokenKind>,
    pub range: TextRange,
}

/// What goes before the kind at `idx` in a list of `count` expected kinds:
/// nothing before the first, ` or ` before the last, `, ` before the others.
pub open spec fn separator(idx: int, count: int) -> Seq<char> {
    if idx == 0 {
        Seq::empty()
    } else if idx == count - 1 {
        " or "@
    } else {
        ", "@
    }
}

/// The list of the first `upto` expected kinds, as the message shows it.
pub open spec fn expected_list(expected: Seq<TokenKind>, upto: int) -> Seq<char>
    decreases upto,
{
    if upto <= 0 {
        Seq::empty()
    } else {
        expected_list(expected, upto - 1) + separator(upto - 1, expected.len() as int)
            + expected[upto - 1].describe_spec()
    }
}

/// The words that tell which kind was found; nothing at the end of the text.
pub open spec fn found_clause(found: Option<TokenKind>) -> Seq<char> {
    match found {
        Some(kind) => ", but found "@ + kind.describe_spec(),
        None => Seq::empty(),
    }
}

/// The start of a message: where the error is.
pub open spec fn location(range: TextRange) -> Seq<char> {
    "error at "@ + decimal(range.start as nat) + ".."@ + decimal(range.end as nat) + ": "@
}

impl ParseError {
    /// A diagnostic made of its three parts.
    pub fn new(expected: Vec<TokenKind>, found: Option<TokenKind>, range: TextRange) -> (error:
        Self)
        ensures
            error.expected == expected,
            error.found == found,
            error.range == range,
    {
        ParseError { expected, found, range }
    }

    /// The message of this diagnostic.
    pub open spec fn message(&self) -> Seq<char> {
        location(self.range) + "expected "@ + expected_list(
            self.expected@,
            self.expected@.len() as int,
        ) + found_clause(self.found)
    }

    /// The message of this diagnostic: `error at <start>..<end>: expected `,
    /// the expected kinds, and the kind that was found, if one was.
    pub fn to_string(&self) -> (text: String)
        ensures
            text@ == self.message(),
    {
        let mut text = String::new();
        text.append("error at ");
        push_decimal(&mut text, self.range.start as u64);
        text.append("..");
        push_decimal(&mut text, self.range.end as u64);
        text.append(": ");
        assert(text@ =~= location(self.range));
        text.append("expected ");
        let count = self.expected.len();
        let mut idx: usize = 0;
        while idx < count
            invariant
                idx <= count,
                count == self.expected@.len(),
                text@ == location(self.range) + "expected "@ + expected_list(
                    self.expected@,
                    idx as int,
                ),
            decreases count - idx,
        {
            if idx == 0 {
            } else if idx == count - 1 {
                text.append(" or ");
            } else {
                text.append(", ");
            }
            text.append(self.expected[idx].describe());
            idx += 1;
            assert(text@ =~= location(self.range) + "expected "@ + expected_list(
                self.expected@,
                idx as int,
            ));
        }
        match self.found {
            Some(kind) => {
                text.append(", but found ");
                text.append(kind.describe());
            },
            None => {},
        }
        assert(text@ =~= self.message());
        text
    }
}

} // verus!
