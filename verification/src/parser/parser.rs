use super::event::{
    count_adds, lemma_count_adds_same, started, tree_log, views, Event, EventView,
};
use super::grammar;
use super::marker::Marker;
use super::nesting::lemma_tree_log_resolves;
use super::parse_error::ParseError;
use super::sink::{sink_after, Sink};
use super::source::{count_solid, lemma_skip_trivia, skip_trivia, Source};
use crate::lexer::lex::{
    lemma_lexed_upto, lemma_lexed_whole, lemma_tokens_text, lexed_text, next_at,
    tokenize, tokens_cover, tokens_of,
};
use crate::green::is_tree;
use crate::lexer::{Token, TokenKind};
use crate::syntax::SyntaxKind;
use crate::Parse;
use vstd::prelude::*;
use vstd::string::StringSliceAdditionalSpecFns;

verus! {

/// Whether error recovery leaves a token of this kind in place: it may start
/// a new statement.
pub open spec fn recovers_at(kind: TokenKind) -> bool {
    kind == TokenKind::LetKw
}

/// Where a parser stands: the index of the token at which it stands, its
/// log, and the kinds that were looked for since the last token was taken.
pub struct Progress {
    pub cursor: int,
    pub log: Seq<EventView>,
    pub expected: Seq<TokenKind>,
}

/// The kind of the first token at or after `cursor` that is no trivia.
pub open spec fn peek_at(tokens: Seq<Token>, cursor: int) -> Option<TokenKind> {
    if skip_trivia(tokens, cursor) < tokens.len() {
        Some(tokens[skip_trivia(tokens, cursor)].kind)
    } else {
        None
    }
}

/// The parser after it has looked for `kinds`: it stands at the next token
/// that is no trivia, and has noted the kinds.
pub open spec fn looked(s: Progress, tokens: Seq<Token>, kinds: Seq<TokenKind>) -> Progress {
    Progress {
        cursor: skip_trivia(tokens, s.cursor),
        log: s.log,
        expected: s.expected + kinds,
    }
}

/// The parser after it has taken the next token that is no trivia.
pub open spec fn bumped(s: Progress, tokens: Seq<Token>) -> Progress {
    Progress {
        cursor: skip_trivia(tokens, s.cursor) + 1,
        log: s.log.push(EventView::AddToken),
        expected: Seq::empty(),
    }
}

/// The parser after it has written `entries` at the end of its log.
pub open spec fn logged(s: Progress, entries: Seq<EventView>) -> Progress {
    Progress { cursor: s.cursor, log: s.log + entries, expected: s.expected }
}

/// The parser after the entry at `pos` of its log has become `entry`.
pub open spec fn rewritten(s: Progress, pos: int, entry: EventView) -> Progress {
    Progress { cursor: s.cursor, log: s.log.update(pos, entry), expected: s.expected }
}

/// The parser after it has started a node.
pub open spec fn node_started(s: Progress) -> Progress {
    logged(s, seq![EventView::Placeholder])
}

/// The parser after it has completed, with `kind`, the node that it started
/// at `pos`.
pub open spec fn node_completed(s: Progress, pos: int, kind: SyntaxKind) -> Progress {
    logged(
        rewritten(s, pos, EventView::Startnode { kind, forward_parent: None }),
        seq![EventView::FinishNode],
    )
}

/// The parser after the node that opens at `pos` was preceded by a new one.
pub open spec fn node_preceded(s: Progress, pos: int) -> Progress {
    logged(
        rewritten(
            s,
            pos,
            EventView::Startnode {
                kind: s.log[pos]->kind,
                forward_parent: Some((s.log.len() - pos) as usize),
            },
        ),
        seq![EventView::Placeholder],
    )
}

/// The parser after it has reported an error: the diagnostic names the kinds
/// looked for, the kind of the next token that is no trivia, and that
/// token's range, or the last token's range at the end of the text. Unless
/// the text has ended or the token may start a statement, the token is then
/// taken inside a node of kind `Error`.
pub open spec fn errored(s: Progress, tokens: Seq<Token>) -> Progress {
    let at = skip_trivia(tokens, s.cursor);
    let found = peek_at(tokens, s.cursor);
    let diagnostic = EventView::Error {
        expected: s.expected,
        found,
        range: if found is Some {
            tokens[at].range
        } else {
            tokens.last().range
        },
    };
    if found matches Some(kind) && !recovers_at(kind) {
        Progress {
            cursor: at + 1,
            log: s.log.push(diagnostic) + seq![
                EventView::Startnode { kind: SyntaxKind::Error, forward_parent: None },
                EventView::AddToken,
                EventView::FinishNode,
            ],
            expected: Seq::empty(),
        }
    } else {
        Progress { cursor: at, log: s.log.push(diagnostic), expected: Seq::empty() }
    }
}

/// The parser after it has expected `kind`: it has taken the next token
/// where that has the kind, and reported an error where not.
pub open spec fn expected_then(s: Progress, tokens: Seq<Token>, kind: TokenKind) -> Progress {
    if peek_at(tokens, s.cursor) == Some(kind) {
        bumped(s, tokens)
    } else {
        errored(looked(s, tokens, seq![kind]), tokens)
    }
}

/// What error recovery logs after the diagnostic: a node of kind `Error`
/// around the one token that is passed over, or nothing where the token stays.
pub open spec fn recovery(found: Option<TokenKind>) -> Seq<Event> {
    if found matches Some(kind) && !recovers_at(kind) {
        seq![
            Event::Startnode { kind: SyntaxKind::Error, forward_parent: None },
            Event::AddToken,
            Event::FinishNode,
        ]
    } else {
        Seq::empty()
    }
}

/// What `Parser::error` does, from `before` to `after`, when `expected` are
/// the kinds that were looked for: the diagnostic names them, the kind of the
/// next token that is no trivia, and that token's range (the last token's
/// range at the end of the text); recovery follows.
pub open spec fn reported(before: &Parser, after: &Parser, expected: Seq<TokenKind>) -> bool {
    let found = before.peek_spec();
    let at = before.events().len() as int;
    &&& after.events().len() > at
    &&& after.events()[at] matches Event::Error(e)
    &&& e.expected@ == expected
    &&& e.found == found
    &&& e.range == if found is Some {
        before.tokens()[before.next_solid()].range
    } else {
        before.tokens().last().range
    }
    &&& after.events() == before.events().push(after.events()[at]) + recovery(found)
    &&& after.cursor() == if recovery(found).len() > 0 {
        before.next_solid() + 1
    } else {
        before.next_solid()
    }
}

/// A parser at the start of the tokens, with an empty log.
pub open spec fn at_start() -> Progress {
    Progress { cursor: 0, log: Seq::empty(), expected: Seq::empty() }
}

/// `parse` is what parsing makes of `input`, by way of `tokens` and
/// `events`: the tokens are those of the input, the log is what the grammar
/// writes for them, and the tree and the diagnostics are what the sink makes
/// of the log.
pub open spec fn parsed_from(
    input: &str,
    tokens: Seq<Token>,
    events: Seq<Event>,
    parse: Parse,
) -> bool {
    &&& tokens_of(tokens, input)
    &&& events.len() <= usize::MAX
    &&& views(events) == grammar::model::root_parsed(at_start(), tokens).log
    &&& parse.steps() == sink_after(events, tokens, events.len() as int).steps
    &&& parse.diagnostics() == sink_after(events, tokens, events.len() as int).errors
}

/// `parse` is what parsing makes of `input`.
pub open spec fn parse_of(input: &str, parse: Parse) -> bool {
    exists|tokens: Seq<Token>, events: Seq<Event>| #[trigger]
        parsed_from(input, tokens, events, parse)
}

/// Parses `input` into a tree that holds every token of it, and the
/// diagnostics of what the grammar did not find. The tree is one tree, and
/// its text is the input, as long as that is no longer than 32-bit offsets
/// can tell.
pub fn parse(input: &str) -> (parse: Parse)
    ensures
        parse_of(input, parse),
        parse.wf(),
        parse.text() == lexed_text(input),
        input.spec_bytes().len() <= u32::MAX ==> parse.text() == input@,
{
    let tokens = tokenize(input);
    let source = Source::new(tokens.as_slice());
    let parser = Parser::new(source);
    let events = parser.parse();
    proof {
        let end = choose|end: int| #[trigger]
            tokens_cover(tokens@, input, end) && next_at(input.spec_bytes(), end) is None;
        lemma_tokens_text(tokens@, input, end, tokens@.len() as int);
        lemma_lexed_upto(tokens@, input, end, 0);
        if input.spec_bytes().len() <= u32::MAX {
            lemma_lexed_whole(input);
        }
    }
    let ghost log = events@;
    let _ = events.len();
    let sink = Sink::new(tokens.as_slice(), events);
    let parse = sink.finish();
    proof {
        assert(parsed_from(input, tokens@, log, parse));
    }
    parse
}

/// The parser's state: where it stands in the tokens, the log of events, and
/// the kinds that were looked for since the last token was taken.
pub struct Parser<'t, 'input> {
    source: Source<'t, 'input>,
    events: Vec<Event>,
    expected_kinds: Vec<TokenKind>,
}

impl<'t, 'input> Parser<'t, 'input> {
    /// The log of events.
    pub closed spec fn events(&self) -> Seq<Event> {
        self.events@
    }

    /// The tokens that are parsed.
    pub closed spec fn tokens(&self) -> Seq<Token<'input>> {
        self.source.tokens()
    }

    /// The index of the token at which the parser stands.
    pub closed spec fn cursor(&self) -> int {
        self.source.cursor()
    }

    /// The kinds that were looked for since the last token was taken.
    pub closed spec fn expected(&self) -> Seq<TokenKind> {
        self.expected_kinds@
    }

    /// The log, each entry with its diagnostic as plain values.
    pub open spec fn log(&self) -> Seq<EventView> {
        views(self.events())
    }

    /// Where the parser stands.
    pub open spec fn progress(&self) -> Progress {
        Progress { cursor: self.cursor(), log: self.log(), expected: self.expected() }
    }

    /// The index of the next token that is no trivia.
    pub open spec fn next_solid(&self) -> int {
        skip_trivia(self.tokens(), self.cursor())
    }

    /// The kind of the next token that is no trivia.
    pub open spec fn peek_spec(&self) -> Option<TokenKind> {
        if self.next_solid() < self.tokens().len() {
            Some(self.tokens()[self.next_solid()].kind)
        } else {
            None
        }
    }

    /// The number of tokens that are still to be passed.
    pub open spec fn remaining(&self) -> int {
        self.tokens().len() - self.cursor()
    }

    /// The cursor is within the tokens, and the log adds as many tokens as the
    /// cursor has passed that are no trivia.
    pub open spec fn wf(&self) -> bool {
        &&& 0 <= self.cursor() <= self.tokens().len()
        &&& self.events().len() <= usize::MAX
        &&& count_adds(self.events(), self.events().len() as int) == count_solid(
            self.tokens(),
            self.cursor(),
        )
    }

    /// Nothing but the log differs between `self` and `before`.
    pub open spec fn same_place(&self, before: &Self) -> bool {
        &&& self.tokens() == before.tokens()
        &&& self.cursor() == before.cursor()
        &&& self.expected() == before.expected()
    }

    /// A parser at the start of what `source` reads, with an empty log.
    pub fn new(source: Source<'t, 'input>) -> (parser: Self)
        requires
            source.wf(),
        ensures
            parser.tokens() == source.tokens(),
            parser.cursor() == source.cursor(),
            parser.events() == Seq::<Event>::empty(),
            parser.expected() == Seq::<TokenKind>::empty(),
            source.cursor() == 0 ==> parser.wf(),
    {
        Self { source, events: Vec::new(), expected_kinds: Vec::new() }
    }

    /// Writes `e` at the end of the log.
    pub fn emit_event(&mut self, e: Event)
        ensures
            final(self).events() == old(self).events().push(e),
            final(self).same_place(old(self)),
            final(self).events().len() <= usize::MAX,
    {
        self.events.push(e);
        let _ = self.events.len();
    }

    /// The entry of the log at `pos`, to be changed in place.
    pub fn event_at_mut(&mut self, pos: usize) -> (event: &mut Event)
        requires
            pos < old(self).events().len(),
        ensures
            *event == old(self).events()[pos as int],
            final(self).events() == old(self).events().update(pos as int, *final(event)),
            final(self).same_place(old(self)),
    {
        &mut self.events[pos]
    }

    /// Starts a node: writes a placeholder at the end of the log and hands
    /// out the marker of that place.
    pub fn start(&mut self) -> (marker: Marker)
        ensures
            final(self).events() == started(old(self).events()),
            final(self).same_place(old(self)),
            final(self).progress() == node_started(old(self).progress()),
            marker.pos() == old(self).events().len(),
            old(self).wf() ==> final(self).wf(),
    {
        let pos = self.events.len();
        self.events.push(Event::Placeholder);
        let _ = self.events.len();
        proof {
            lemma_count_adds_same(old(self).events(), self.events(), pos as int);
            assert(self.log() =~= old(self).log() + seq![EventView::Placeholder]);
        }
        Marker::new(pos)
    }

    /// The log as it stands.
    pub fn into_events(self) -> (events: Vec<Event>)
        ensures
            events@ == self.events(),
    {
        self.events
    }

    /// Parses the whole text and hands out the log: the log of one tree in
    /// its own order, of which the sink makes one tree.
    pub fn parse(self) -> (events: Vec<Event>)
        requires
            self.wf(),
            self.events().len() == 0,
        ensures
            tree_log(events@),
            is_tree(sink_after(events@, self.tokens(), events@.len() as int).steps),
            events@[0] == (Event::Startnode { kind: SyntaxKind::Root, forward_parent: None }),
            count_adds(events@, events@.len() as int) == count_solid(
                self.tokens(),
                self.tokens().len() as int,
            ),
            views(events@) == grammar::model::root_parsed(self.progress(), self.tokens()).log,
    {
        let mut parser = self;
        grammar::root(&mut parser);
        proof {
            assert(grammar::written(&self, &parser) =~= parser.events());
            lemma_skip_trivia(parser.tokens(), parser.cursor());
            lemma_tree_log_resolves(parser.events(), parser.tokens());
        }
        parser.events
    }

    fn peek(&mut self) -> (kind: Option<TokenKind>)
        requires
            old(self).wf(),
        ensures
            final(self).wf(),
            kind == old(self).peek_spec(),
            final(self).cursor() == old(self).next_solid(),
            final(self).tokens() == old(self).tokens(),
            final(self).events() == old(self).events(),
            final(self).expected() == old(self).expected(),
    {
        proof {
            lemma_skip_trivia(self.tokens(), self.cursor());
        }
        self.source.peek_kind()
    }

    /// Takes the next token that is no trivia and logs that it is added. The
    /// kinds looked for so far are forgotten.
    pub fn bump(&mut self)
        requires
            old(self).wf(),
            old(self).peek_spec() is Some,
        ensures
            final(self).wf(),
            final(self).events() == old(self).events().push(Event::AddToken),
            final(self).cursor() == old(self).next_solid() + 1,
            final(self).tokens() == old(self).tokens(),
            final(self).expected() == Seq::<TokenKind>::empty(),
            final(self).progress() == bumped(old(self).progress(), old(self).tokens()),
    {
        proof {
            lemma_skip_trivia(self.tokens(), self.cursor());
        }
        self.expected_kinds.clear();
        let _ = self.source.next_token();
        self.events.push(Event::AddToken);
        let _ = self.events.len();
        proof {
            lemma_count_adds_same(old(self).events(), self.events(), old(self).events().len() as int);
            assert(self.log() =~= old(self).log().push(EventView::AddToken));
        }
    }

    /// Notes that `kind` is looked for, and says whether the next token that
    /// is no trivia has this kind.
    pub fn at(&mut self, kind: TokenKind) -> (found: bool)
        requires
            old(self).wf(),
        ensures
            final(self).wf(),
            found == (old(self).peek_spec() == Some(kind)),
            final(self).expected() == old(self).expected().push(kind),
            final(self).cursor() == old(self).next_solid(),
            final(self).tokens() == old(self).tokens(),
            final(self).events() == old(self).events(),
            final(self).progress() == looked(old(self).progress(), old(self).tokens(), seq![kind]),
    {
        proof {
            assert(old(self).expected().push(kind) =~= old(self).expected() + seq![kind]);
        }
        self.expected_kinds.push(kind);
        match self.peek() {
            Some(k) => k == kind,
            None => false,
        }
    }

    /// Whether no token is left that is no trivia.
    pub fn at_end(&mut self) -> (ended: bool)
        requires
            old(self).wf(),
        ensures
            final(self).wf(),
            ended == (old(self).peek_spec() is None),
            final(self).cursor() == old(self).next_solid(),
            final(self).tokens() == old(self).tokens(),
            final(self).events() == old(self).events(),
            final(self).expected() == old(self).expected(),
            final(self).progress() == looked(
                old(self).progress(),
                old(self).tokens(),
                Seq::empty(),
            ),
    {
        proof {
            assert(old(self).expected() + Seq::<TokenKind>::empty() =~= old(self).expected());
        }
        self.peek().is_none()
    }

    /// Takes the next token if it has `kind`; reports an error if not.
    pub fn expect(&mut self, kind: TokenKind)
        requires
            old(self).wf(),
            old(self).tokens().len() > 0,
        ensures
            final(self).wf(),
            final(self).tokens() == old(self).tokens(),
            final(self).expected() == Seq::<TokenKind>::empty(),
            old(self).peek_spec() == Some(kind) ==> {
                &&& final(self).events() == old(self).events().push(Event::AddToken)
                &&& final(self).cursor() == old(self).next_solid() + 1
            },
            old(self).peek_spec() != Some(kind) ==> reported(
                old(self),
                final(self),
                old(self).expected().push(kind),
            ),
            final(self).progress() == expected_then(
                old(self).progress(),
                old(self).tokens(),
                kind,
            ),
    {
        proof {
            lemma_skip_trivia(self.tokens(), self.cursor());
        }
        if self.at(kind) {
            self.bump();
        } else {
            self.error();
        }
    }

    /// Reports that none of the kinds looked for stands here: logs a
    /// diagnostic, then passes over one token inside a node of kind `Error`,
    /// unless the text has ended or the token may start a statement.
    pub fn error(&mut self)
        requires
            old(self).wf(),
            old(self).tokens().len() > 0,
        ensures
            final(self).wf(),
            final(self).tokens() == old(self).tokens(),
            final(self).expected() == Seq::<TokenKind>::empty(),
            reported(old(self), final(self), old(self).expected()),
            final(self).progress() == errored(old(self).progress(), old(self).tokens()),
    {
        proof {
            lemma_skip_trivia(self.tokens(), self.cursor());
        }
        let current_token = self.source.peek_token();
        let (found, range) = match current_token {
            Some(token) => (Some(token.kind), token.range),
            None => {
                let last = self.source.last_token_range();
                (None, last.unwrap())
            },
        };
        let mut expected: Vec<TokenKind> = Vec::new();
        core::mem::swap(&mut self.expected_kinds, &mut expected);
        self.events.push(Event::Error(ParseError { expected, found, range }));
        let _ = self.events.len();
        proof {
            lemma_count_adds_same(old(self).events(), self.events(), old(self).events().len() as int);
            lemma_skip_trivia(self.tokens(), self.cursor());
        }
        let ghost logged = self.events();
        proof {
            assert(views(logged) =~= old(self).log().push(logged[logged.len() - 1]@));
        }
        if !self.at_recovery() && !self.at_end() {
            let m = self.start();
            self.bump();
            m.complete(self, SyntaxKind::Error);
            assert(self.events() =~= logged + recovery(found));
            assert(self.log() =~= views(logged) + views(recovery(found)));
            assert(views(recovery(found)) =~= seq![
                EventView::Startnode { kind: SyntaxKind::Error, forward_parent: None },
                EventView::AddToken,
                EventView::FinishNode,
            ]);
        } else {
            assert(self.events() =~= logged + recovery(found));
            assert(self.log() =~= views(logged));
        }
    }

    fn at_recovery(&mut self) -> (found: bool)
        requires
            old(self).wf(),
        ensures
            final(self).wf(),
            found == (old(self).peek_spec() matches Some(kind) && recovers_at(kind)),
            final(self).cursor() == old(self).next_solid(),
            final(self).tokens() == old(self).tokens(),
            final(self).events() == old(self).events(),
            final(self).expected() == old(self).expected(),
    {
        match self.peek() {
            Some(kind) => kind == TokenKind::LetKw,
            None => false,
        }
    }
}

} // verus!
