//! Lexical analysis: source text to tokens.
//!
//! What scanning yields is defined as a function from the characters of the
//! source to tokens and diagnostics; the scanner is proved to compute exactly
//! that function.

use crate::error::{error_views, LoxError, LoxErrorView};
use crate::token::{token_views, Literal, LiteralView, Token, TokenType, TokenView};
use vstd::prelude::*;

verus! {

pub open spec fn is_digit_char(c: char) -> bool {
    '0' <= c && c <= '9'
}

pub open spec fn is_alpha_char(c: char) -> bool {
    ('a' <= c && c <= 'z') || ('A' <= c && c <= 'Z') || c == '_'
}

pub open spec fn is_identifier_char(c: char) -> bool {
    is_alpha_char(c) || is_digit_char(c)
}

/// How many consecutive characters, starting at offset `from`, satisfy `p`.
pub open spec fn run_len(src: Seq<char>, from: int, p: spec_fn(char) -> bool) -> nat
    decreases src.len() - from,
{
    if 0 <= from < src.len() && p(src[from]) {
        1 + run_len(src, from + 1, p)
    } else {
        0
    }
}

/// The line counter after a line break; it stays put at the largest value.
pub open spec fn next_line(line: usize) -> usize {
    if line < usize::MAX {
        (line + 1) as usize
    } else {
        line
    }
}

/// The line counter after the characters in `[from, to)` have been passed,
/// starting from `line`.
pub open spec fn line_after(src: Seq<char>, from: int, to: int, line: usize) -> usize
    decreases to - from,
{
    if 0 <= from < to && from < src.len() {
        line_after(
            src,
            from + 1,
            to,
            if src[from] == '\n' {
                next_line(line)
            } else {
                line
            },
        )
    } else {
        line
    }
}

/// The reserved words.
pub open spec fn keyword(text: Seq<char>) -> Option<TokenType> {
    if text == "and"@ {
        Some(TokenType::And)
    } else if text == "class"@ {
        Some(TokenType::Class)
    } else if text == "else"@ {
        Some(TokenType::Else)
    } else if text == "false"@ {
        Some(TokenType::False)
    } else if text == "for"@ {
        Some(TokenType::For)
    } else if text == "fun"@ {
        Some(TokenType::Fun)
    } else if text == "if"@ {
        Some(TokenType::If)
    } else if text == "nil"@ {
        Some(TokenType::Nil)
    } else if text == "or"@ {
        Some(TokenType::Or)
    } else if text == "print"@ {
        Some(TokenType::Print)
    } else if text == "return"@ {
        Some(TokenType::Return)
    } else if text == "super"@ {
        Some(TokenType::Super)
    } else if text == "this"@ {
        Some(TokenType::This)
    } else if text == "true"@ {
        Some(TokenType::True)
    } else if text == "var"@ {
        Some(TokenType::Var)
    } else if text == "while"@ {
        Some(TokenType::While)
    } else {
        None
    }
}

/// The kind of the word `text`: a reserved word or an identifier.
pub open spec fn word_kind(text: Seq<char>) -> TokenType {
    match keyword(text) {
        Some(kind) => kind,
        None => TokenType::Identifier,
    }
}

/// Where a number that starts at `start` ends: digits, then optionally a dot
/// and more digits. A dot that no digit follows is not part of the number.
pub open spec fn number_end(src: Seq<char>, start: int) -> int {
    let whole = start + run_len(src, start, |c: char| is_digit_char(c));
    if whole + 1 < src.len() && src[whole] == '.' && is_digit_char(src[whole + 1]) {
        whole + 1 + run_len(src, whole + 1, |c: char| is_digit_char(c))
    } else {
        whole
    }
}

/// What one scanning step found.
pub enum Scanned {
    Token(TokenType),
    Nothing,
    UnexpectedCharacter,
    UnterminatedString,
}

/// The outcome of one scanning step: what was found, the offset at which the
/// next step starts, and the line counter there.
pub struct ScanStep {
    pub outcome: Scanned,
    pub end: int,
    pub line: usize,
}

pub open spec fn found(kind: TokenType, end: int, line: usize) -> ScanStep {
    ScanStep { outcome: Scanned::Token(kind), end, line }
}

/// A one-character token, or the two-character one when `second` follows.
pub open spec fn one_or_two(
    src: Seq<char>,
    start: int,
    line: usize,
    second: char,
    two: TokenType,
    one: TokenType,
) -> ScanStep {
    if start + 1 < src.len() && src[start + 1] == second {
        found(two, start + 2, line)
    } else {
        found(one, start + 1, line)
    }
}

/// One scanning step at offset `start`, which holds a character.
pub open spec fn scan_step(src: Seq<char>, start: int, line: usize) -> ScanStep
    recommends
        0 <= start < src.len(),
{
    let c = src[start];
    if c == '(' {
        found(TokenType::LeftParen, start + 1, line)
    } else if c == ')' {
        found(TokenType::RightParen, start + 1, line)
    } else if c == '{' {
        found(TokenType::LeftBrace, start + 1, line)
    } else if c == '}' {
        found(TokenType::RightBrace, start + 1, line)
    } else if c == ',' {
        found(TokenType::Comma, start + 1, line)
    } else if c == '.' {
        found(TokenType::Dot, start + 1, line)
    } else if c == '-' {
        found(TokenType::Minus, start + 1, line)
    } else if c == '+' {
        found(TokenType::Plus, start + 1, line)
    } else if c == ';' {
        found(TokenType::Semicolon, start + 1, line)
    } else if c == '*' {
        found(TokenType::Star, start + 1, line)
    } else if c == '!' {
        one_or_two(src, start, line, '=', TokenType::BangEqual, TokenType::Bang)
    } else if c == '=' {
        one_or_two(src, start, line, '=', TokenType::EqualEqual, TokenType::Equal)
    } else if c == '<' {
        one_or_two(src, start, line, '=', TokenType::LessEqual, TokenType::Less)
    } else if c == '>' {
        one_or_two(src, start, line, '=', TokenType::GreaterEqual, TokenType::Greater)
    } else if c == '/' {
        if start + 1 < src.len() && src[start + 1] == '/' {
            ScanStep {
                outcome: Scanned::Nothing,
                end: start + 2 + run_len(src, start + 2, |c: char| c != '\n'),
                line,
            }
        } else {
            found(TokenType::Slash, start + 1, line)
        }
    } else if c == ' ' || c == '\r' || c == '\t' {
        ScanStep { outcome: Scanned::Nothing, end: start + 1, line }
    } else if c == '\n' {
        ScanStep { outcome: Scanned::Nothing, end: start + 1, line: next_line(line) }
    } else if c == '"' {
        let close = start + 1 + run_len(src, start + 1, |c: char| c != '"');
        let line_at_close = line_after(src, start + 1, close, line);
        if close >= src.len() {
            ScanStep { outcome: Scanned::UnterminatedString, end: close, line: line_at_close }
        } else {
            found(TokenType::String, close + 1, line_at_close)
        }
    } else if is_digit_char(c) {
        found(TokenType::Number, number_end(src, start), line)
    } else if is_alpha_char(c) {
        let end = start + 1 + run_len(src, start + 1, |c: char| is_identifier_char(c));
        found(word_kind(src.subrange(start, end)), end, line)
    } else {
        ScanStep { outcome: Scanned::UnexpectedCharacter, end: start + 1, line }
    }
}

/// The literal payload of the lexeme `src[start..end]` of kind `kind`.
pub open spec fn literal_of(src: Seq<char>, kind: TokenType, start: int, end: int) -> Option<
    LiteralView,
> {
    match kind {
        TokenType::String => Some(LiteralView::String(src.subrange(start + 1, end - 1))),
        TokenType::Number => Some(LiteralView::Num(src.subrange(start, end))),
        _ => None,
    }
}

/// The token of kind `kind` read from `src[start..end]`.
pub open spec fn token_of(
    src: Seq<char>,
    kind: TokenType,
    start: int,
    end: int,
    line: usize,
) -> TokenView {
    TokenView {
        token_type: kind,
        lexeme: src.subrange(start, end),
        literal: literal_of(src, kind, start, end),
        line,
        position: start as usize,
    }
}

/// The token that ends every token sequence.
pub open spec fn end_of_input(src: Seq<char>, line: usize) -> TokenView {
    TokenView {
        token_type: TokenType::EOF,
        lexeme: Seq::empty(),
        literal: None,
        line,
        position: src.len() as usize,
    }
}

pub open spec fn unexpected_character(line: usize, start: int) -> LoxErrorView {
    LoxErrorView { line, message: "Unexpected character."@, position: start as usize }
}

pub open spec fn unterminated_string(line: usize, start: int) -> LoxErrorView {
    LoxErrorView { line, message: "Unterminated string"@, position: start as usize }
}

/// How many characters stand at or after offset `start`.
pub open spec fn remaining(src: Seq<char>, start: int) -> nat {
    if 0 <= start < src.len() {
        (src.len() - start) as nat
    } else {
        0
    }
}

/// Everything a scan yields.
pub struct Scan {
    pub tokens: Seq<TokenView>,
    pub errors: Seq<LoxErrorView>,
}

/// The tokens and diagnostics of `src` from offset `start` on, the line
/// counter standing at `line`.
pub open spec fn scan_from(src: Seq<char>, start: int, line: usize) -> Scan
    decreases remaining(src, start),
{
    if 0 <= start < src.len() {
        let step = scan_step(src, start, line);
        let rest = scan_from(src, step.end, step.line);
        match step.outcome {
            Scanned::Token(kind) => Scan {
                tokens: seq![token_of(src, kind, start, step.end, step.line)] + rest.tokens,
                errors: rest.errors,
            },
            Scanned::Nothing => rest,
            Scanned::UnexpectedCharacter => Scan {
                tokens: rest.tokens,
                errors: seq![unexpected_character(line, start)] + rest.errors,
            },
            Scanned::UnterminatedString => Scan {
                tokens: rest.tokens,
                errors: seq![unterminated_string(line, start)] + rest.errors,
            },
        }
    } else {
        Scan { tokens: seq![end_of_input(src, line)], errors: Seq::empty() }
    }
}

/// The tokens and diagnostics of a whole source text.
pub open spec fn scan(src: Seq<char>) -> Scan {
    scan_from(src, 0, 1)
}

/// A token's lexeme is the text that stands at its position in the source.
pub open spec fn lexeme_in_source(src: Seq<char>, t: TokenView) -> bool {
    &&& t.position + t.lexeme.len() <= src.len()
    &&& src.subrange(t.position as int, t.position + t.lexeme.len()) == t.lexeme
}

/// Every scanning step moves forward and stays inside the source.
pub proof fn lemma_step_bounds(src: Seq<char>, start: int, line: usize)
    requires
        0 <= start < src.len(),
    ensures
        start < scan_step(src, start, line).end <= src.len(),
{
    lemma_run_bounds(src, start, |c: char| is_digit_char(c));
    let whole = start + run_len(src, start, |c: char| is_digit_char(c));
    lemma_run_bounds(src, whole + 1, |c: char| is_digit_char(c));
    lemma_run_bounds(src, start + 2, |c: char| c != '\n');
    lemma_run_bounds(src, start + 1, |c: char| c != '"');
    lemma_run_bounds(src, start + 1, |c: char| is_identifier_char(c));
}

/// A run that starts inside the source ends inside it.
pub proof fn lemma_run_bounds(src: Seq<char>, from: int, p: spec_fn(char) -> bool)
    ensures
        0 <= from <= src.len() ==> from + run_len(src, from, p) <= src.len(),
        !(0 <= from < src.len()) ==> run_len(src, from, p) == 0,
    decreases src.len() - from,
{
    if 0 <= from < src.len() && p(src[from]) {
        lemma_run_bounds(src, from + 1, p);
    }
}

/// Scanning preserves the source: every token's lexeme is the text at the
/// token's position, and the last token is the end-of-input token.
pub proof fn lemma_scan_preserves_source(src: Seq<char>, start: int, line: usize)
    requires
        0 <= start <= src.len() <= usize::MAX,
    ensures
        forall|i: int|
            0 <= i < scan_from(src, start, line).tokens.len() ==> lexeme_in_source(
                src,
                #[trigger] scan_from(src, start, line).tokens[i],
            ),
        scan_from(src, start, line).tokens.len() > 0,
        scan_from(src, start, line).tokens.last().token_type == TokenType::EOF,
    decreases src.len() - start,
{
    if start < src.len() {
        let step = scan_step(src, start, line);
        lemma_step_bounds(src, start, line);
        lemma_scan_preserves_source(src, step.end, step.line);
        let rest = scan_from(src, step.end, step.line);
        let all = scan_from(src, start, line);
        match step.outcome {
            Scanned::Token(kind) => {
                let t = token_of(src, kind, start, step.end, step.line);
                assert(lexeme_in_source(src, t));
                assert(all.tokens =~= seq![t] + rest.tokens);
                assert forall|i: int| 0 <= i < all.tokens.len() implies lexeme_in_source(
                    src,
                    #[trigger] all.tokens[i],
                ) by {
                    if i > 0 {
                        assert(all.tokens[i] == rest.tokens[i - 1]);
                    }
                }
                assert(all.tokens.last() == rest.tokens.last());
            },
            _ => {},
        }
    } else {
        assert(src.subrange(src.len() as int, src.len() as int) =~= Seq::<char>::empty());
    }
}


/// The scanner: the source, a cursor into it, and the tokens found so far.
pub struct Scanner {
    pub source: String,
    pub chars: Vec<char>,
    pub ascii: bool,
    pub tokens: Vec<Token>,
    pub start: usize,
    pub current: usize,
    pub line: usize,
}

impl Scanner {
    /// The cursor lies inside the source, of which `chars` is a copy.
    pub open spec fn wf(&self) -> bool {
        &&& self.chars@ == self.source@
        &&& self.ascii ==> vstd::utf8::is_ascii_chars(self.source@)
        &&& self.start <= self.current <= self.chars@.len() <= usize::MAX
    }

    /// `self` differs from `before` in the cursor and the line counter only.
    pub open spec fn same_text(&self, before: &Scanner) -> bool {
        &&& self.source == before.source
        &&& self.chars == before.chars
        &&& self.ascii == before.ascii
        &&& self.start == before.start
    }

    pub fn new(source: String) -> (s: Scanner)
        ensures
            s.wf(),
            s.source@ == source@,
            s.tokens@.len() == 0,
            s.start == 0,
            s.current == 0,
            s.line == 1,
    {
        let text = source.as_str();
        let mut chars: Vec<char> = Vec::new();
        for c in it: text.chars()
            invariant
                chars@ == it.seq().take(it.index@),
        {
            chars.push(c);
        }
        assert(chars@ == text@);
        let ascii = text.is_ascii();
        assert(chars.len() <= usize::MAX);
        Scanner { source, chars, ascii, tokens: Vec::new(), start: 0, current: 0, line: 1 }
    }

    /// Scans the rest of the source. Returns the tokens, closed by the
    /// end-of-input token, if no diagnostic arose, and the diagnostics
    /// otherwise.
    pub fn scan_tokens(self) -> (r: Result<Vec<Token>, Vec<LoxError>>)
        requires
            self.wf(),
        ensures
            ({
                let rest = scan_from(self.source@, self.current as int, self.line);
                match r {
                    Ok(tokens) => {
                        &&& rest.errors.len() == 0
                        &&& token_views(tokens@) == token_views(self.tokens@) + rest.tokens
                        &&& tokens@.len() > 0
                        &&& tokens@.last().token_type == TokenType::EOF
                    },
                    Err(errors) => {
                        &&& rest.errors.len() > 0
                        &&& error_views(errors@) == rest.errors
                    },
                }
            }),
            self.tokens@.len() == 0 && self.current == 0 ==> match r {
                Ok(tokens) => forall|i: int|
                    0 <= i < tokens@.len() ==> lexeme_in_source(
                        self.source@,
                        (#[trigger] tokens@[i])@,
                    ),
                Err(_) => true,
            },
    {
        let ghost src = self.source@;
        let ghost before = self;
        let mut s = self;
        let ghost all = scan_from(src, self.current as int, self.line);
        let mut lexical_errors: Vec<LoxError> = Vec::new();
        while !s.is_at_end()
            invariant
                s.wf(),
                s.source == before.source,
                src == s.source@,
                all.tokens == token_views(s.tokens@).skip(before.tokens@.len() as int) + scan_from(
                    src,
                    s.current as int,
                    s.line,
                ).tokens,
                all.errors == error_views(lexical_errors@) + scan_from(
                    src,
                    s.current as int,
                    s.line,
                ).errors,
                s.tokens@.len() >= before.tokens@.len(),
                token_views(s.tokens@).take(before.tokens@.len() as int) == token_views(
                    before.tokens@,
                ),
            decreases s.chars@.len() - s.current,
        {
            s.start = s.current;
            let ghost at = s;
            let ghost step = scan_step(src, s.current as int, s.line);
            let ghost rest = scan_from(src, step.end, step.line);
            proof {
                lemma_step_bounds(src, s.current as int, s.line);
            }
            match s.scan_token() {
                Ok(_) => {
                    proof {
                        let old_views = token_views(at.tokens@);
                        let n = before.tokens@.len() as int;
                        match step.outcome {
                            Scanned::Token(kind) => {
                                let t = token_of(src, kind, at.current as int, step.end, step.line);
                                assert(token_views(s.tokens@) =~= old_views.push(t));
                                assert(token_views(s.tokens@).skip(n) =~= old_views.skip(
                                    n,
                                ).push(t));
                                assert(old_views.skip(n).push(t) + rest.tokens =~= old_views.skip(n)
                                    + (seq![t] + rest.tokens));
                                assert(token_views(s.tokens@).take(n) =~= old_views.take(n));
                            },
                            _ => {},
                        }
                    }
                },
                Err(e) => {
                    lexical_errors.push(e);
                    proof {
                        let old_errors = error_views(lexical_errors@.drop_last());
                        assert(lexical_errors@.drop_last().push(e) =~= lexical_errors@);
                        assert(error_views(lexical_errors@) =~= old_errors.push(e@));
                        assert(old_errors.push(e@) + rest.errors =~= old_errors + (seq![e@]
                            + rest.errors));
                    }
                },
            };
        }
        let eof = Token::new(TokenType::EOF, String::new(), None, s.line, s.chars.len());
        proof {
            assert(eof@ == end_of_input(src, s.line));
            let n = before.tokens@.len() as int;
            let views = token_views(s.tokens@);
            assert(token_views(s.tokens@.push(eof)) =~= views.push(eof@));
            assert(views =~= views.take(n) + views.skip(n));
            assert(views.push(eof@) =~= token_views(before.tokens@) + (views.skip(n)
                + seq![eof@]));
            assert(error_views(lexical_errors@) + Seq::<LoxErrorView>::empty() =~= error_views(
                lexical_errors@,
            ));
            if before.tokens@.len() == 0 && before.current == 0 {
                lemma_scan_preserves_source(src, 0, before.line);
                assert(token_views(before.tokens@) =~= Seq::<TokenView>::empty());
                assert(token_views(s.tokens@.push(eof)) =~= all.tokens);
                assert forall|i: int| 0 <= i < s.tokens@.push(eof).len() implies lexeme_in_source(
                    src,
                    (#[trigger] s.tokens@.push(eof)[i])@,
                ) by {
                    assert(token_views(s.tokens@.push(eof))[i] == s.tokens@.push(eof)[i]@);
                }
            }
        }
        s.tokens.push(eof);
        if lexical_errors.len() == 0 {
            Ok(s.tokens)
        } else {
            Err(lexical_errors)
        }
    }

    /// Scans one lexeme, which starts at the cursor.
    pub fn scan_token(&mut self) -> (r: Result<(), LoxError>)
        requires
            old(self).wf(),
            old(self).start == old(self).current,
            old(self).current < old(self).chars@.len(),
        ensures
            final(self).wf(),
            final(self).same_text(old(self)),
            ({
                let src = old(self).source@;
                let start = old(self).start as int;
                let step = scan_step(src, start, old(self).line);
                &&& final(self).current == step.end
                &&& final(self).line == step.line
                &&& match step.outcome {
                    Scanned::Token(kind) => {
                        &&& r is Ok
                        &&& final(self).tokens@.len() == old(self).tokens@.len() + 1
                        &&& final(self).tokens@.drop_last() == old(self).tokens@
                        &&& final(self).tokens@.last()@ == token_of(
                            src,
                            kind,
                            start,
                            step.end,
                            step.line,
                        )
                    },
                    Scanned::Nothing => r is Ok && final(self).tokens == old(self).tokens,
                    Scanned::UnexpectedCharacter => {
                        &&& final(self).tokens == old(self).tokens
                        &&& r is Err
                        &&& r->Err_0@ == unexpected_character(old(self).line, start)
                    },
                    Scanned::UnterminatedString => {
                        &&& final(self).tokens == old(self).tokens
                        &&& r is Err
                        &&& r->Err_0@ == unterminated_string(old(self).line, start)
                    },
                }
            }),
    {
        let c: char = self.advance();
        if c == '(' {
            self.add_token(TokenType::LeftParen, None);
        } else if c == ')' {
            self.add_token(TokenType::RightParen, None);
        } else if c == '{' {
            self.add_token(TokenType::LeftBrace, None);
        } else if c == '}' {
            self.add_token(TokenType::RightBrace, None);
        } else if c == ',' {
            self.add_token(TokenType::Comma, None);
        } else if c == '.' {
            self.add_token(TokenType::Dot, None);
        } else if c == '-' {
            self.add_token(TokenType::Minus, None);
        } else if c == '+' {
            self.add_token(TokenType::Plus, None);
        } else if c == ';' {
            self.add_token(TokenType::Semicolon, None);
        } else if c == '*' {
            self.add_token(TokenType::Star, None);
        } else if c == '!' {
            if self.next_char('=') {
                self.add_token(TokenType::BangEqual, None);
            } else {
                self.add_token(TokenType::Bang, None);
            }
        } else if c == '=' {
            if self.next_char('=') {
                self.add_token(TokenType::EqualEqual, None);
            } else {
                self.add_token(TokenType::Equal, None);
            }
        } else if c == '<' {
            if self.next_char('=') {
                self.add_token(TokenType::LessEqual, None);
            } else {
                self.add_token(TokenType::Less, None);
            }
        } else if c == '>' {
            if self.next_char('=') {
                self.add_token(TokenType::GreaterEqual, None);
            } else {
                self.add_token(TokenType::Greater, None);
            }
        } else if c == '/' {
            if self.next_char('/') {
                let ghost begin = self.current;
                while self.peek() != '\n' && !self.is_at_end()
                    invariant
                        self.wf(),
                        self.same_text(old(self)),
                        self.line == old(self).line,
                        self.tokens == old(self).tokens,
                        begin <= self.current,
                        run_len(self.chars@, begin as int, |c: char| c != '\n') == (self.current
                            - begin) + run_len(self.chars@, self.current as int, |c: char| c != '\n'),
                    decreases self.chars@.len() - self.current,
                {
                    self.advance();
                }
            } else {
                self.add_token(TokenType::Slash, None);
            }
        } else if c == ' ' || c == '\r' || c == '\t' {
        } else if c == '\n' {
            if self.line < usize::MAX {
                self.line += 1;
            }
        } else if c == '"' {
            return self.string();
        } else if self.is_digit(c) {
            self.number();
        } else if self.is_alpha(c) {
            self.identifier();
        } else {
            return Err(
                LoxError::error(self.line, String::from_str("Unexpected character."), self.start),
            );
        }
        Ok(())
    }

    /// Scans the rest of a word whose first character has been consumed.
    pub fn identifier(&mut self)
        requires
            old(self).wf(),
        ensures
            final(self).wf(),
            final(self).same_text(old(self)),
            final(self).line == old(self).line,
            final(self).current == old(self).current + run_len(
                old(self).source@,
                old(self).current as int,
                |c: char| is_identifier_char(c),
            ),
            final(self).tokens@.len() == old(self).tokens@.len() + 1,
            final(self).tokens@.drop_last() == old(self).tokens@,
            final(self).tokens@.last()@ == token_of(
                old(self).source@,
                word_kind(
                    old(self).source@.subrange(old(self).start as int, final(self).current as int),
                ),
                old(self).start as int,
                final(self).current as int,
                old(self).line,
            ),
    {
        let ghost begin = self.current;
        while self.is_alpha(self.peek()) || self.is_digit(self.peek())
            invariant
                self.wf(),
                self.same_text(old(self)),
                self.line == old(self).line,
                self.tokens == old(self).tokens,
                begin <= self.current,
                run_len(self.chars@, begin as int, |c: char| is_identifier_char(c)) == (
                self.current - begin) + run_len(
                    self.chars@,
                    self.current as int,
                    |c: char| is_identifier_char(c),
                ),
            decreases self.chars@.len() - self.current,
        {
            self.advance();
        }
        let text = self.text(self.start, self.current);
        let token_type: TokenType = match self.keywords(text.as_str()) {
            Some(x) => x,
            None => TokenType::Identifier,
        };
        self.add_token(token_type, None)
    }

    /// The reserved word that `candidate` spells, if it spells one.
    pub fn keywords(&self, candidate: &str) -> (r: Option<TokenType>)
        ensures
            r == keyword(candidate@),
    {
        let word = String::from_str(candidate);
        if word == String::from_str("and") {
            Some(TokenType::And)
        } else if word == String::from_str("class") {
            Some(TokenType::Class)
        } else if word == String::from_str("else") {
            Some(TokenType::Else)
        } else if word == String::from_str("false") {
            Some(TokenType::False)
        } else if word == String::from_str("for") {
            Some(TokenType::For)
        } else if word == String::from_str("fun") {
            Some(TokenType::Fun)
        } else if word == String::from_str("if") {
            Some(TokenType::If)
        } else if word == String::from_str("nil") {
            Some(TokenType::Nil)
        } else if word == String::from_str("or") {
            Some(TokenType::Or)
        } else if word == String::from_str("print") {
            Some(TokenType::Print)
        } else if word == String::from_str("return") {
            Some(TokenType::Return)
        } else if word == String::from_str("super") {
            Some(TokenType::Super)
        } else if word == String::from_str("this") {
            Some(TokenType::This)
        } else if word == String::from_str("true") {
            Some(TokenType::True)
        } else if word == String::from_str("var") {
            Some(TokenType::Var)
        } else if word == String::from_str("while") {
            Some(TokenType::While)
        } else {
            None
        }
    }

    pub fn is_alpha(&self, c: char) -> (r: bool)
        ensures
            r == is_alpha_char(c),
    {
        ('a' <= c && c <= 'z') || ('A' <= c && c <= 'Z') || c == '_'
    }

    /// Scans the rest of a number whose first digit has been consumed.
    pub fn number(&mut self)
        requires
            old(self).wf(),
            old(self).current == old(self).start + 1,
            is_digit_char(old(self).chars@[old(self).start as int]),
        ensures
            final(self).wf(),
            final(self).same_text(old(self)),
            final(self).line == old(self).line,
            final(self).current == number_end(old(self).source@, old(self).start as int),
            final(self).tokens@.len() == old(self).tokens@.len() + 1,
            final(self).tokens@.drop_last() == old(self).tokens@,
            final(self).tokens@.last()@ == token_of(
                old(self).source@,
                TokenType::Number,
                old(self).start as int,
                final(self).current as int,
                old(self).line,
            ),
    {
        let ghost src = self.chars@;
        let ghost digit = |c: char| is_digit_char(c);
        while self.is_digit(self.peek())
            invariant
                self.wf(),
                self.same_text(old(self)),
                self.line == old(self).line,
                self.tokens == old(self).tokens,
                self.start < self.current,
                src == self.chars@,
                digit == (|c: char| is_digit_char(c)),
                run_len(src, self.start as int, digit) == (self.current - self.start) + run_len(
                    src,
                    self.current as int,
                    digit,
                ),
            decreases self.chars@.len() - self.current,
        {
            self.advance();
        }
        if self.peek() == '.' && self.is_digit(self.peek_max()) {
            self.advance();
            let ghost dot = self.current;
            while self.is_digit(self.peek())
                invariant
                    self.wf(),
                    self.same_text(old(self)),
                    self.line == old(self).line,
                    self.tokens == old(self).tokens,
                    self.start < dot <= self.current,
                    src == self.chars@,
                    digit == (|c: char| is_digit_char(c)),
                    run_len(src, dot as int, digit) == (self.current - dot) + run_len(
                        src,
                        self.current as int,
                        digit,
                    ),
                decreases self.chars@.len() - self.current,
            {
                self.advance();
            }
        }
        let text = self.text(self.start, self.current);
        self.add_token(TokenType::Number, Some(Literal::Num(text)));
    }

    pub fn is_digit(&self, c: char) -> (r: bool)
        ensures
            r == is_digit_char(c),
    {
        '0' <= c && c <= '9'
    }

    /// Scans the rest of a string whose opening quote has been consumed.
    pub fn string(&mut self) -> (r: Result<(), LoxError>)
        requires
            old(self).wf(),
            old(self).current == old(self).start + 1,
        ensures
            final(self).wf(),
            final(self).same_text(old(self)),
            ({
                let src = old(self).source@;
                let start = old(self).start as int;
                let close = start + 1 + run_len(src, start + 1, |c: char| c != '"');
                &&& final(self).line == line_after(src, start + 1, close, old(self).line)
                &&& if close >= src.len() {
                    &&& final(self).current == close
                    &&& final(self).tokens == old(self).tokens
                    &&& r is Err
                    &&& r->Err_0@ == unterminated_string(old(self).line, start)
                } else {
                    &&& final(self).current == close + 1
                    &&& r is Ok
                    &&& final(self).tokens@.len() == old(self).tokens@.len() + 1
                    &&& final(self).tokens@.drop_last() == old(self).tokens@
                    &&& final(self).tokens@.last()@ == token_of(
                        src,
                        TokenType::String,
                        start,
                        close + 1,
                        final(self).line,
                    )
                }
            }),
    {
        let ghost src = self.chars@;
        let ghost begin = self.current as int;
        let ghost inside = |c: char| c != '"';
        let ghost close = begin + run_len(src, begin, inside);
        let opening_line = self.line;
        proof {
            lemma_run_bounds(src, begin, inside);
        }
        while self.peek() != '"' && !self.is_at_end()
            invariant
                self.wf(),
                self.same_text(old(self)),
                self.tokens == old(self).tokens,
                src == self.chars@,
                inside == (|c: char| c != '"'),
                begin <= self.current <= close <= src.len(),
                close == self.current + run_len(src, self.current as int, inside),
                line_after(src, begin, close, opening_line) == line_after(
                    src,
                    self.current as int,
                    close,
                    self.line,
                ),
            decreases self.chars@.len() - self.current,
        {
            if self.peek() == '\n' {
                if self.line < usize::MAX {
                    self.line += 1;
                }
            }
            self.advance();
        }
        if self.is_at_end() {
            return Err(
                LoxError::error(opening_line, String::from_str("Unterminated string"), self.start),
            );
        }
        self.advance();
        let value: String = self.text(self.start + 1, self.current - 1);
        self.add_token(TokenType::String, Some(Literal::String(value)));
        Ok(())
    }

    /// Consumes the character at the cursor if it is `expected`.
    pub fn next_char(&mut self, expected: char) -> (r: bool)
        requires
            old(self).wf(),
        ensures
            final(self).wf(),
            final(self).same_text(old(self)),
            final(self).line == old(self).line,
            final(self).tokens == old(self).tokens,
            r == (old(self).current < old(self).chars@.len() && old(self).chars@[old(
                self,
            ).current as int] == expected),
            final(self).current == if r {
                old(self).current + 1
            } else {
                old(self).current as int
            },
    {
        if self.is_at_end() {
            false
        } else if self.chars[self.current] != expected {
            false
        } else {
            self.current += 1;
            true
        }
    }

    /// The character at the cursor, or NUL at the end of the source.
    pub fn peek(&self) -> (c: char)
        requires
            self.wf(),
        ensures
            c == if self.current < self.chars@.len() {
                self.chars@[self.current as int]
            } else {
                '\0'
            },
    {
        if self.is_at_end() {
            '\0'
        } else {
            self.chars[self.current]
        }
    }

    /// The character after the one at the cursor, or NUL if there is none.
    pub fn peek_max(&self) -> (c: char)
        requires
            self.wf(),
        ensures
            c == if self.current + 1 < self.chars@.len() {
                self.chars@[self.current + 1]
            } else {
                '\0'
            },
    {
        if self.current >= self.chars.len() || self.current + 1 >= self.chars.len() {
            '\0'
        } else {
            self.chars[self.current + 1]
        }
    }

    pub fn is_at_end(&self) -> (r: bool)
        ensures
            r == (self.current >= self.chars@.len()),
    {
        self.current >= self.chars.len()
    }

    /// Consumes the character at the cursor and returns it.
    pub fn advance(&mut self) -> (c: char)
        requires
            old(self).wf(),
            old(self).current < old(self).chars@.len(),
        ensures
            final(self).wf(),
            final(self).same_text(old(self)),
            final(self).line == old(self).line,
            final(self).tokens == old(self).tokens,
            final(self).current == old(self).current + 1,
            c == old(self).chars@[old(self).current as int],
    {
        let previous = self.current;
        self.current = self.current + 1;
        self.chars[previous]
    }

    /// Appends the token whose lexeme runs from `start` to the cursor.
    pub fn add_token(&mut self, token_type: TokenType, literal: Option<Literal>)
        requires
            old(self).wf(),
        ensures
            final(self).wf(),
            final(self).same_text(old(self)),
            final(self).line == old(self).line,
            final(self).current == old(self).current,
            final(self).tokens@.len() == old(self).tokens@.len() + 1,
            final(self).tokens@.drop_last() == old(self).tokens@,
            final(self).tokens@.last().token_type == token_type,
            final(self).tokens@.last().lexeme@ == old(self).source@.subrange(
                old(self).start as int,
                old(self).current as int,
            ),
            final(self).tokens@.last().literal == literal,
            final(self).tokens@.last().line == old(self).line,
            final(self).tokens@.last().position == old(self).start,
    {
        let text: String = self.text(self.start, self.current);
        self.tokens.push(Token::new(token_type, text, literal, self.line, self.start));
        assert(self.tokens@.drop_last() =~= old(self).tokens@);
    }

    /// The source text between two offsets.
    pub fn text(&self, from: usize, to: usize) -> (r: String)
        requires
            self.wf(),
            from <= to <= self.chars@.len(),
        ensures
            r@ == self.source@.subrange(from as int, to as int),
    {
        if self.ascii {
            String::from_str(self.source.as_str().substring_ascii(from, to))
        } else {
            String::from_str(self.source.as_str().substring_char(from, to))
        }
    }
}

} // verus!
