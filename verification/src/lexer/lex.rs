use super::tokens::TokenKind;
use crate::text::{cut_point, slice_bytes, slice_str, TextRange};
use vstd::prelude::*;
use vstd::string::StringSliceAdditionalSpecFns;
use vstd::utf8::*;

verus! {

/// A token: its kind, its text and the bytes of the source that it covers.
#[derive(Debug, PartialEq, Eq)]
pub struct Token<'a> {
    pub kind: TokenKind,
    pub text: &'a str,
    pub range: TextRange,
}

/// The classes of bytes of which the longer tokens are made.
pub enum ByteClass {
    /// A space or a line feed.
    Space,
    /// An ASCII letter or digit.
    Word,
    /// An ASCII digit.
    Digit,
    /// Any byte but a line feed.
    Line,
    /// A byte that goes on with a character begun before it.
    Continuation,
}

/// A space or a line feed.
pub open spec fn is_space(b: u8) -> bool {
    b == 0x20 || b == 0x0a
}

/// An ASCII letter.
pub open spec fn is_letter(b: u8) -> bool {
    (0x41 <= b <= 0x5a) || (0x61 <= b <= 0x7a)
}

/// An ASCII digit.
pub open spec fn is_digit(b: u8) -> bool {
    0x30 <= b <= 0x39
}

/// Whether the byte `b` belongs to `class`.
pub open spec fn in_class(class: ByteClass, b: u8) -> bool {
    match class {
        ByteClass::Space => is_space(b),
        ByteClass::Word => is_letter(b) || is_digit(b),
        ByteClass::Digit => is_digit(b),
        ByteClass::Line => b != 0x0a,
        ByteClass::Continuation => 0x80 <= b <= 0xbf,
    }
}

/// The end of the longest run of bytes of `class` that starts at `pos`.
pub open spec fn run_end(bytes: Seq<u8>, class: ByteClass, pos: int) -> int
    decreases bytes.len() - pos,
{
    if 0 <= pos < bytes.len() && in_class(class, bytes[pos]) {
        run_end(bytes, class, pos + 1)
    } else {
        pos
    }
}

/// The kind of the token that is the single byte `b`, if there is one.
pub open spec fn punct_kind(b: u8) -> Option<TokenKind> {
    if b == 0x2b {
        Some(TokenKind::Plus)
    } else if b == 0x2d {
        Some(TokenKind::Minus)
    } else if b == 0x2a {
        Some(TokenKind::Star)
    } else if b == 0x2f {
        Some(TokenKind::Slash)
    } else if b == 0x3d {
        Some(TokenKind::Equals)
    } else if b == 0x28 {
        Some(TokenKind::LParen)
    } else if b == 0x29 {
        Some(TokenKind::RParen)
    } else if b == 0x7b {
        Some(TokenKind::LBrace)
    } else if b == 0x7d {
        Some(TokenKind::RBrace)
    } else {
        None
    }
}

/// The kind of a word: one of the keywords `fn` and `let`, or an identifier.
pub open spec fn word_kind(word: Seq<u8>) -> TokenKind {
    if word == seq![0x66u8, 0x6eu8] {
        TokenKind::FnKw
    } else if word == seq![0x6cu8, 0x65u8, 0x74u8] {
        TokenKind::LetKw
    } else {
        TokenKind::Ident
    }
}

/// The token that starts at `pos`: its kind and its end. Each token is the
/// longest of its form. A character with which no token of these forms
/// starts is a token of its own, of kind `Error`: every byte of a text
/// belongs to a token.
#[verifier::opaque]
pub open spec fn token_at(bytes: Seq<u8>, pos: int) -> (TokenKind, int) {
    let b = bytes[pos];
    if is_space(b) {
        (TokenKind::Whitespace, run_end(bytes, ByteClass::Space, pos))
    } else if is_letter(b) {
        let end = run_end(bytes, ByteClass::Word, pos + 1);
        (word_kind(bytes.subrange(pos, end)), end)
    } else if is_digit(b) {
        (TokenKind::Number, run_end(bytes, ByteClass::Digit, pos))
    } else if b == 0x23 {
        (TokenKind::Comment, run_end(bytes, ByteClass::Line, pos + 1))
    } else {
        match punct_kind(b) {
            Some(kind) => (kind, pos + 1),
            None => (TokenKind::Error, run_end(bytes, ByteClass::Continuation, pos + 1)),
        }
    }
}

/// What a call of `Lexer::next` at `pos` yields: the token there, unless the
/// text has ended or the token ends beyond what a 32-bit offset can hold.
pub open spec fn next_at(bytes: Seq<u8>, pos: int) -> Option<(TokenKind, int)> {
    if 0 <= pos < bytes.len() && token_at(bytes, pos).1 <= u32::MAX {
        Some(token_at(bytes, pos))
    } else {
        None
    }
}

/// A run ends within the bytes, at the first byte that is not of its class.
pub proof fn lemma_run_end_bounds(bytes: Seq<u8>, class: ByteClass, pos: int)
    requires
        0 <= pos <= bytes.len(),
    ensures
        pos <= run_end(bytes, class, pos) <= bytes.len(),
        run_end(bytes, class, pos) < bytes.len() ==> !in_class(
            class,
            bytes[run_end(bytes, class, pos)],
        ),
        forall|i: int| pos <= i < run_end(bytes, class, pos) ==> in_class(class, #[trigger] bytes[i]),
    decreases bytes.len() - pos,
{
    if pos < bytes.len() && in_class(class, bytes[pos]) {
        lemma_run_end_bounds(bytes, class, pos + 1);
    }
}

/// A token is never empty and ends within the text.
pub proof fn lemma_token_at_bounds(bytes: Seq<u8>, pos: int)
    requires
        0 <= pos < bytes.len(),
    ensures
        pos < token_at(bytes, pos).1 <= bytes.len(),
{
    reveal(token_at);
    lemma_run_end_bounds(bytes, ByteClass::Space, pos + 1);
    lemma_run_end_bounds(bytes, ByteClass::Word, pos + 1);
    lemma_run_end_bounds(bytes, ByteClass::Digit, pos + 1);
    lemma_run_end_bounds(bytes, ByteClass::Line, pos + 1);
    lemma_run_end_bounds(bytes, ByteClass::Continuation, pos + 1);
}

/// The byte after an ASCII byte starts a character.
pub proof fn lemma_cut_after_ascii(text: &str, i: int)
    requires
        0 <= i < text.spec_bytes().len(),
        text.spec_bytes()[i] < 0x80,
    ensures
        cut_point(text, i + 1),
{
    let bytes = text.spec_bytes();
    encode_utf8_valid_utf8(text@);
    if i + 1 < bytes.len() {
        is_char_boundary_iff_not_is_continuation_byte(bytes, i);
        valid_utf8_split(bytes, i);
        let tail = bytes.subrange(i, bytes.len() as int);
        assert(tail[0] == bytes[i]);
        assert(valid_first_scalar(tail));
        assert(length_of_first_scalar(tail) == 1);
        let rest = pop_first_scalar(tail);
        assert(valid_utf8(rest));
        assert(rest.len() > 0);
        assert(rest[0] == bytes[i + 1]);
        assert(valid_first_scalar(rest));
    }
}

/// A text may be cut at its start.
pub proof fn lemma_cut_at_start(text: &str)
    ensures
        cut_point(text, 0),
{
    let bytes = text.spec_bytes();
    encode_utf8_valid_utf8(text@);
    if bytes.len() > 0 {
        assert(valid_first_scalar(bytes));
    }
}

fn class_holds(class: &ByteClass, b: u8) -> (holds: bool)
    ensures
        holds == in_class(*class, b),
{
    match class {
        ByteClass::Space => b == 0x20 || b == 0x0a,
        ByteClass::Word => (0x41 <= b && b <= 0x5a) || (0x61 <= b && b <= 0x7a) || (0x30 <= b && b
            <= 0x39),
        ByteClass::Digit => 0x30 <= b && b <= 0x39,
        ByteClass::Line => b != 0x0a,
        ByteClass::Continuation => 0x80 <= b && b <= 0xbf,
    }
}

fn scan_run(bytes: &[u8], class: ByteClass, pos: usize) -> (end: usize)
    requires
        pos <= bytes@.len(),
    ensures
        end == run_end(bytes@, class, pos as int),
        pos <= end <= bytes@.len(),
{
    let mut i: usize = pos;
    proof {
        lemma_run_end_bounds(bytes@, class, pos as int);
    }
    while i < bytes.len() && class_holds(&class, bytes[i])
        invariant
            pos <= i <= bytes@.len(),
            run_end(bytes@, class, i as int) == run_end(bytes@, class, pos as int),
        decreases bytes@.len() - i,
    {
        i = i + 1;
    }
    i
}

fn punct(b: u8) -> (kind: Option<TokenKind>)
    ensures
        kind == punct_kind(b),
{
    if b == 0x2b {
        Some(TokenKind::Plus)
    } else if b == 0x2d {
        Some(TokenKind::Minus)
    } else if b == 0x2a {
        Some(TokenKind::Star)
    } else if b == 0x2f {
        Some(TokenKind::Slash)
    } else if b == 0x3d {
        Some(TokenKind::Equals)
    } else if b == 0x28 {
        Some(TokenKind::LParen)
    } else if b == 0x29 {
        Some(TokenKind::RParen)
    } else if b == 0x7b {
        Some(TokenKind::LBrace)
    } else if b == 0x7d {
        Some(TokenKind::RBrace)
    } else {
        None
    }
}

fn word(bytes: &[u8], start: usize, end: usize) -> (kind: TokenKind)
    requires
        start <= end <= bytes@.len(),
    ensures
        kind == word_kind(bytes@.subrange(start as int, end as int)),
{
    let ghost w = bytes@.subrange(start as int, end as int);
    if end - start == 2 && bytes[start] == 0x66 && bytes[start + 1] == 0x6e {
        assert(w =~= seq![0x66u8, 0x6eu8]);
        TokenKind::FnKw
    } else if end - start == 3 && bytes[start] == 0x6c && bytes[start + 1] == 0x65 && bytes[start
        + 2] == 0x74 {
        assert(w =~= seq![0x6cu8, 0x65u8, 0x74u8]);
        TokenKind::LetKw
    } else {
        assert(w != seq![0x66u8, 0x6eu8]) by {
            if w == seq![0x66u8, 0x6eu8] {
                assert(w.len() == 2);
                assert(w[0] == 0x66u8 && w[1] == 0x6eu8);
            }
        }
        assert(w != seq![0x6cu8, 0x65u8, 0x74u8]) by {
            if w == seq![0x6cu8, 0x65u8, 0x74u8] {
                assert(w.len() == 3);
                assert(w[0] == 0x6cu8 && w[1] == 0x65u8 && w[2] == 0x74u8);
            }
        }
        TokenKind::Ident
    }
}

/// Cuts a text into tokens, one at a call.
pub struct Lexer<'a> {
    input: &'a str,
    pos: usize,
}

impl<'a> Lexer<'a> {
    #[verifier::type_invariant]
    spec fn inv(self) -> bool {
        cut_point(self.input, self.pos as int)
    }

    /// The text that is cut.
    pub closed spec fn input(self) -> &'a str {
        self.input
    }

    /// The offset of the byte at which the next token starts.
    pub closed spec fn pos(self) -> int {
        self.pos as int
    }

    /// A lexer at the start of `input`.
    pub fn new(input: &'a str) -> (lexer: Self)
        ensures
            lexer.input() == input,
            lexer.pos() == 0,
    {
        proof {
            lemma_cut_at_start(input);
        }
        Lexer { input, pos: 0 }
    }

    /// The next token, and the lexer then stands behind it. There is none
    /// at the end of the text, nor where the token would end beyond what a
    /// 32-bit offset can hold; the lexer then stays where it is.
    pub fn next(&mut self) -> (token: Option<Token<'a>>)
        ensures
            final(self).input() == old(self).input(),
            match next_at(old(self).input().spec_bytes(), old(self).pos()) {
                Some((kind, end)) => {
                    &&& token matches Some(t)
                    &&& t.kind == kind
                    &&& t.range.start == old(self).pos()
                    &&& t.range.end == end
                    &&& t.text.spec_bytes() == slice_bytes(old(self).input(), old(self).pos(), end)
                    &&& final(self).pos() == end
                    &&& old(self).pos() < end <= old(self).input().spec_bytes().len()
                },
                None => token is None && final(self).pos() == old(self).pos(),
            },
    {
        proof {
            use_type_invariant(&*self);
        }
        let input: &'a str = self.input;
        let bytes = input.as_bytes();
        let start = self.pos;
        if start >= bytes.len() {
            return None;
        }
        proof {
            reveal(token_at);
            lemma_token_at_bounds(bytes@, start as int);
        }
        let b = bytes[start];
        let kind: TokenKind;
        let end: usize;
        if b == 0x20 || b == 0x0a {
            end = scan_run(bytes, ByteClass::Space, start);
            kind = TokenKind::Whitespace;
            proof {
                lemma_run_end_bounds(bytes@, ByteClass::Space, start as int);
                lemma_cut_after_ascii(input, end - 1);
            }
        } else if (0x41 <= b && b <= 0x5a) || (0x61 <= b && b <= 0x7a) {
            end = scan_run(bytes, ByteClass::Word, start + 1);
            kind = word(bytes, start, end);
            proof {
                lemma_run_end_bounds(bytes@, ByteClass::Word, start + 1);
                lemma_cut_after_ascii(input, end - 1);
            }
        } else if 0x30 <= b && b <= 0x39 {
            end = scan_run(bytes, ByteClass::Digit, start);
            kind = TokenKind::Number;
            proof {
                lemma_run_end_bounds(bytes@, ByteClass::Digit, start as int);
                lemma_cut_after_ascii(input, end - 1);
            }
        } else if b == 0x23 {
            end = scan_run(bytes, ByteClass::Line, start + 1);
            kind = TokenKind::Comment;
            proof {
                lemma_run_end_bounds(bytes@, ByteClass::Line, start + 1);
            }
        } else {
            match punct(b) {
                Some(k) => {
                    kind = k;
                    end = start + 1;
                    proof {
                        lemma_cut_after_ascii(input, start as int);
                    }
                },
                None => {
                    end = scan_run(bytes, ByteClass::Continuation, start + 1);
                    kind = TokenKind::Error;
                    proof {
                        lemma_run_end_bounds(bytes@, ByteClass::Continuation, start + 1);
                    }
                },
            }
        }
        if end > 0xffff_ffff {
            return None;
        }
        let text = slice_str(input, start, end);
        self.pos = end;
        Some(Token { kind, text, range: TextRange { start: start as u32, end: end as u32 } })
    }
}

} // verus!

verus! {

/// `token` is the token that a lexer finds in `input` at `token.range.start`.
pub open spec fn token_of(token: Token, input: &str) -> bool {
    &&& next_at(input.spec_bytes(), token.range.start as int) == Some(
        (token.kind, token.range.end as int),
    )
    &&& token.range.start < token.range.end <= input.spec_bytes().len()
    &&& token.text.spec_bytes() == slice_bytes(
        input,
        token.range.start as int,
        token.range.end as int,
    )
}

/// The tokens are those of `input`, from its start and one behind the other,
/// and the last of them ends at `end`.
pub open spec fn tokens_cover(tokens: Seq<Token>, input: &str, end: int) -> bool {
    &&& forall|i: int| 0 <= i < tokens.len() ==> token_of(#[trigger] tokens[i], input)
    &&& tokens.len() > 0 ==> tokens[0].range.start == 0
    &&& forall|i: int, j: int|
        0 <= i && j == i + 1 && j < tokens.len() ==> (#[trigger] tokens[i]).range.end == (
        #[trigger] tokens[j]).range.start
    &&& end == if tokens.len() == 0 {
        0
    } else {
        tokens.last().range.end as int
    }
}

/// The tokens are all the tokens of `input`: they cover it up to its end, or
/// up to the token that would end beyond what a 32-bit offset can hold.
pub open spec fn tokens_of(tokens: Seq<Token>, input: &str) -> bool {
    exists|end: int| #[trigger]
        tokens_cover(tokens, input, end) && next_at(input.spec_bytes(), end) is None
}

/// Cuts `input` into its tokens. Every byte belongs to one of them, as long
/// as the text is no longer than 32-bit offsets can tell.
pub fn tokenize<'a>(input: &'a str) -> (tokens: Vec<Token<'a>>)
    ensures
        tokens_of(tokens@, input),
{
    let mut lexer = Lexer::new(input);
    let mut tokens: Vec<Token<'a>> = Vec::new();
    loop
        invariant
            lexer.input() == input,
            tokens_cover(tokens@, input, lexer.pos()),
        ensures
            tokens_cover(tokens@, input, lexer.pos()),
            next_at(input.spec_bytes(), lexer.pos()) is None,
        decreases input.spec_bytes().len() - lexer.pos(),
    {
        let ghost before = tokens@;
        let ghost at = lexer.pos();
        match lexer.next() {
            Some(token) => {
                tokens.push(token);
                assert forall|i: int| 0 <= i < tokens@.len() implies token_of(
                    #[trigger] tokens@[i],
                    input,
                ) by {
                    if i < before.len() {
                        assert(tokens@[i] == before[i]);
                    }
                }
                assert forall|i: int, j: int|
                    0 <= i && j == i + 1 && j < tokens@.len() implies (#[trigger] tokens@[i]).range.end
                    == (#[trigger] tokens@[j]).range.start by {
                    assert(tokens@[i] == before[i]);
                    if j < before.len() {
                        assert(tokens@[j] == before[j]);
                    }
                }
            },
            None => {
                break ;
            },
        }
    }
    tokens
}

} // verus!

verus! {

/// Where lexing stops when it starts at `pos`: the end of the text, or the
/// start of the first token that would end beyond what a 32-bit offset can
/// hold.
pub open spec fn lexed_upto(bytes: Seq<u8>, pos: int) -> int
    decreases bytes.len() - pos,
{
    match next_at(bytes, pos) {
        Some((_, end)) => if pos < end <= bytes.len() {
            lexed_upto(bytes, end)
        } else {
            pos
        },
        None => pos,
    }
}

/// The part of `input` that its tokens cover.
pub open spec fn lexed_text(input: &str) -> Seq<char> {
    decode_utf8(input.spec_bytes().subrange(0, lexed_upto(input.spec_bytes(), 0)))
}

/// Every byte of `input` belongs to a token.
pub open spec fn lexes_whole(input: &str) -> bool {
    lexed_upto(input.spec_bytes(), 0) == input.spec_bytes().len()
}

/// Lexing goes to the end of a text that is no longer than 32-bit offsets
/// can tell.
pub proof fn lemma_lexed_to_end(bytes: Seq<u8>, pos: int)
    requires
        0 <= pos <= bytes.len() <= u32::MAX,
    ensures
        lexed_upto(bytes, pos) == bytes.len(),
    decreases bytes.len() - pos,
{
    if pos < bytes.len() {
        lemma_token_at_bounds(bytes, pos);
        lemma_lexed_to_end(bytes, token_at(bytes, pos).1);
    }
}

/// Where the first `upto` tokens end.
pub open spec fn end_of(tokens: Seq<Token>, upto: int) -> int {
    if upto <= 0 {
        0
    } else {
        tokens[upto - 1].range.end as int
    }
}

/// Decoding two texts one after the other decodes both.
pub proof fn lemma_decode_concat(a: Seq<u8>, b: Seq<u8>)
    requires
        valid_utf8(a),
        valid_utf8(b),
    ensures
        valid_utf8(a + b),
        decode_utf8(a + b) == decode_utf8(a) + decode_utf8(b),
    decreases a.len(),
{
    valid_utf8_concat(a, b);
    if a.len() == 0 {
        assert(a + b =~= b);
        assert(decode_utf8(a) + decode_utf8(b) =~= decode_utf8(b));
    } else {
        let rest = pop_first_scalar(a);
        assert(length_of_first_scalar(a) <= a.len());
        assert(pop_first_scalar(a + b) =~= rest + b);
        assert(decode_first_scalar(a + b) == decode_first_scalar(a));
        lemma_decode_concat(rest, b);
        assert(decode_utf8(a + b) =~= decode_utf8(a) + decode_utf8(b));
    }
}

/// The texts of the first `upto` tokens are the text from its start to where
/// the last of them ends, and have as many bytes.
pub proof fn lemma_tokens_text(tokens: Seq<Token>, input: &str, end: int, upto: int)
    requires
        tokens_cover(tokens, input, end),
        0 <= upto <= tokens.len(),
    ensures
        0 <= end_of(tokens, upto) <= input.spec_bytes().len(),
        end_of(tokens, upto) <= u32::MAX,
        valid_utf8(input.spec_bytes().subrange(0, end_of(tokens, upto))),
        crate::parser::sink::tokens_text(tokens, upto) == decode_utf8(
            input.spec_bytes().subrange(0, end_of(tokens, upto)),
        ),
        crate::parser::sink::tokens_bytes(tokens, upto) == end_of(tokens, upto),
        end_of(tokens, tokens.len() as int) == end,
    decreases upto,
{
    let bytes = input.spec_bytes();
    if upto > 0 {
        lemma_tokens_text(tokens, input, end, upto - 1);
        let token = tokens[upto - 1];
        assert(token_of(token, input));
        let from = end_of(tokens, upto - 1);
        assert(token.range.start == from) by {
            if upto - 1 > 0 {
                assert(tokens[upto - 2].range.end == tokens[upto - 1].range.start);
            }
        }
        let head = bytes.subrange(0, from);
        let part = bytes.subrange(from, token.range.end as int);
        assert(token.text.spec_bytes() == part);
        encode_utf8_valid_utf8(token.text@);
        encode_utf8_decode_utf8(token.text@);
        lemma_decode_concat(head, part);
        assert(head + part =~= bytes.subrange(0, token.range.end as int));
    } else {
        assert(bytes.subrange(0, 0) =~= Seq::<u8>::empty());
    }
}

/// Tokens that cover `input` up to a place where lexing stops end where
/// lexing from the start stops.
pub proof fn lemma_lexed_upto(tokens: Seq<Token>, input: &str, end: int, from: int)
    requires
        tokens_cover(tokens, input, end),
        next_at(input.spec_bytes(), end) is None,
        0 <= from <= tokens.len(),
    ensures
        lexed_upto(input.spec_bytes(), end_of(tokens, from)) == end,
    decreases tokens.len() - from,
{
    if from < tokens.len() {
        lemma_lexed_upto(tokens, input, end, from + 1);
        let token = tokens[from];
        assert(token_of(token, input));
        assert(token.range.start == end_of(tokens, from)) by {
            if from > 0 {
                assert(tokens[from - 1].range.end == tokens[from].range.start);
            }
        }
    }
}

/// The tokens of a text that is no longer than 32-bit offsets can tell
/// cover all of it.
pub proof fn lemma_lexed_whole(input: &str)
    requires
        input.spec_bytes().len() <= u32::MAX,
    ensures
        lexes_whole(input),
        lexed_text(input) == input@,
{
    lemma_lexed_to_end(input.spec_bytes(), 0);
    let bytes = input.spec_bytes();
    assert(bytes.subrange(0, bytes.len() as int) =~= bytes);
    encode_utf8_decode_utf8(input@);
}

} // verus!
