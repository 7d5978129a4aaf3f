use crate::lexer::{Token, TokenKind};
use crate::text::TextRange;
use vstd::prelude::*;

verus! {

/// The first place at or after `from` that holds no trivia: the index of a
/// token that is no trivia, or the number of tokens.
pub open spec fn skip_trivia(tokens: Seq<Token>, from: int) -> int
    decreases tokens.len() - from,
{
    if 0 <= from < tokens.len() && tokens[from].kind.trivia() {
        skip_trivia(tokens, from + 1)
    } else {
        from
    }
}

/// The number of tokens before `upto` that are no trivia.
pub open spec fn count_solid(tokens: Seq<Token>, upto: int) -> int
    decreases upto,
{
    if upto <= 0 {
        0
    } else {
        count_solid(tokens, upto - 1) + if tokens[upto - 1].kind.trivia() {
            0int
        } else {
            1int
        }
    }
}

/// Passing over trivia ends within the tokens, at a token that is no
/// trivia, and passes no other.
pub proof fn lemma_skip_trivia(tokens: Seq<Token>, from: int)
    requires
        0 <= from <= tokens.len(),
    ensures
        from <= skip_trivia(tokens, from) <= tokens.len(),
        skip_trivia(tokens, from) < tokens.len() ==> !tokens[skip_trivia(tokens, from)].kind.trivia(),
        count_solid(tokens, skip_trivia(tokens, from)) == count_solid(tokens, from),
        skip_trivia(tokens, skip_trivia(tokens, from)) == skip_trivia(tokens, from),
        forall|i: int| from <= i < skip_trivia(tokens, from) ==> (#[trigger] tokens[i]).kind.trivia(),
    decreases tokens.len() - from,
{
    if from < tokens.len() && tokens[from].kind.trivia() {
        lemma_skip_trivia(tokens, from + 1);
    }
}

/// Among more tokens no fewer are no trivia.
pub proof fn lemma_count_solid_monotonic(tokens: Seq<Token>, a: int, b: int)
    requires
        0 <= a <= b,
    ensures
        count_solid(tokens, a) <= count_solid(tokens, b),
        0 <= count_solid(tokens, a),
    decreases b,
{
    if a < b {
        lemma_count_solid_monotonic(tokens, a, b - 1);
    } else if a > 0 {
        lemma_count_solid_monotonic(tokens, a - 1, a - 1);
    }
}

/// A cursor through the tokens that passes over trivia.
pub struct Source<'t, 'input> {
    tokens: &'t [Token<'input>],
    cursor: usize,
}

impl<'t, 'input> Source<'t, 'input> {
    /// The tokens that the source reads.
    pub closed spec fn tokens(&self) -> Seq<Token<'input>> {
        self.tokens@
    }

    /// The index of the token at which the source stands.
    pub closed spec fn cursor(&self) -> int {
        self.cursor as int
    }

    /// The cursor is within the tokens or just behind them.
    pub open spec fn wf(&self) -> bool {
        0 <= self.cursor() <= self.tokens().len()
    }

    /// The index of the next token that is no trivia.
    pub open spec fn next_solid(&self) -> int {
        skip_trivia(self.tokens(), self.cursor())
    }

    /// The kind of the next token that is no trivia.
    pub open spec fn peek_spec(&self) -> Option<TokenKind> {
        if self.next_solid() < self.tokens().len() {
            Some(self.tokens()[self.next_solid()].kind)
        } else {
            None
        }
    }

    /// A source at the first of `tokens`.
    pub fn new(tokens: &'t [Token<'input>]) -> (source: Self)
        ensures
            source.tokens() == tokens@,
            source.cursor() == 0,
            source.wf(),
    {
        Self { tokens, cursor: 0 }
    }

    /// Passes over trivia, then hands out the token there and steps behind it.
    pub fn next_token(&mut self) -> (token: Option<&'t Token<'input>>)
        requires
            old(self).wf(),
        ensures
            final(self).wf(),
            final(self).tokens() == old(self).tokens(),
            match token {
                Some(t) => {
                    &&& old(self).next_solid() < old(self).tokens().len()
                    &&& *t == old(self).tokens()[old(self).next_solid()]
                    &&& final(self).cursor() == old(self).next_solid() + 1
                },
                None => {
                    &&& old(self).next_solid() == old(self).tokens().len()
                    &&& final(self).cursor() == old(self).tokens().len()
                },
            },
    {
        self.eat_trivia();
        if self.cursor < self.tokens.len() {
            let token = &self.tokens[self.cursor];
            self.cursor += 1;
            Some(token)
        } else {
            None
        }
    }

    /// Passes over trivia, then shows the token there.
    pub fn peek_token(&mut self) -> (token: Option<&'t Token<'input>>)
        requires
            old(self).wf(),
        ensures
            final(self).wf(),
            final(self).tokens() == old(self).tokens(),
            final(self).cursor() == old(self).next_solid(),
            match token {
                Some(t) => {
                    &&& old(self).next_solid() < old(self).tokens().len()
                    &&& *t == old(self).tokens()[old(self).next_solid()]
                },
                None => old(self).next_solid() == old(self).tokens().len(),
            },
    {
        self.eat_trivia();
        self.peek_token_raw()
    }

    fn peek_token_raw(&self) -> (token: Option<&'t Token<'input>>)
        requires
            self.wf(),
        ensures
            match token {
                Some(t) => self.cursor() < self.tokens().len() && *t == self.tokens()[self.cursor()],
                None => self.cursor() == self.tokens().len(),
            },
    {
        if self.cursor < self.tokens.len() {
            Some(&self.tokens[self.cursor])
        } else {
            None
        }
    }

    /// Passes over trivia, then shows the kind of the token there.
    pub fn peek_kind(&mut self) -> (kind: Option<TokenKind>)
        requires
            old(self).wf(),
        ensures
            final(self).wf(),
            final(self).tokens() == old(self).tokens(),
            final(self).cursor() == old(self).next_solid(),
            kind == old(self).peek_spec(),
    {
        self.eat_trivia();
        self.peek_kind_raw()
    }

    fn peek_kind_raw(&self) -> (kind: Option<TokenKind>)
        requires
            self.wf(),
        ensures
            kind == if self.cursor() < self.tokens().len() {
                Some(self.tokens()[self.cursor()].kind)
            } else {
                None
            },
    {
        match self.peek_token_raw() {
            Some(token) => Some(token.kind),
            None => None,
        }
    }

    fn eat_trivia(&mut self)
        requires
            old(self).wf(),
        ensures
            final(self).wf(),
            final(self).tokens() == old(self).tokens(),
            final(self).cursor() == old(self).next_solid(),
    {
        proof {
            lemma_skip_trivia(self.tokens@, self.cursor as int);
        }
        let count = self.tokens.len();
        loop
            invariant
                self.wf(),
                count == self.tokens@.len(),
                self.tokens == old(self).tokens,
                skip_trivia(self.tokens@, self.cursor as int) == old(self).next_solid(),
            ensures
                self.wf(),
                self.tokens == old(self).tokens,
                self.cursor as int == old(self).next_solid(),
            decreases self.tokens@.len() - self.cursor,
        {
            if !self.at_trivia() {
                break ;
            }
            self.cursor += 1;
        }
    }

    fn at_trivia(&self) -> (b: bool)
        requires
            self.wf(),
        ensures
            b == (self.cursor() < self.tokens().len() && self.tokens()[self.cursor()].kind.trivia()),
    {
        match self.peek_kind_raw() {
            Some(kind) => kind.is_trivia(),
            None => false,
        }
    }

    /// The range of the last token, trivia or not.
    pub fn last_token_range(&self) -> (range: Option<TextRange>)
        ensures
            range == if self.tokens().len() > 0 {
                Some(self.tokens().last().range)
            } else {
                None
            },
    {
        let n = self.tokens.len();
        if n > 0 {
            Some(self.tokens[n - 1].range)
        } else {
            None
        }
    }
}

} // verus!
