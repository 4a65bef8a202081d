//! The tokenizer: turns source text into a sequence of typed lexical
//! tokens with line and column positions, ending in an end-of-input token.
//! `lex_all` is the mathematical scanner that the executable one is proved
//! to follow.

use vstd::prelude::*;

verus! {

#[derive(Debug, Clone, Copy, PartialEq, Eq, Structural)]
pub enum TokenType {
    // Grouping
    LeftParen,
    RightParen,
    LeftBracket,
    RightBracket,
    // Arithmetic operators
    Plus,
    Minus,
    Star,
    Slash,
    // Comparison and logical operators
    Bang,
    BangEqual,
    Equal,
    EqualEqual,
    Greater,
    GreaterEqual,
    Less,
    LessEqual,
    // Literals
    Identifier,
    Text,
    Number,
    Boolean,
    // Keywords
    And,
    Or,
    If,
    Then,
    Else,
    End,
    While,
    For,
    From,
    To,
    Step,
    In,
    Do,
    Function,
    Return,
    Let,
    Print,
    // Special
    Eof,
}

/// Mathematical mirror of a token.
pub struct TokenV {
    pub kind: TokenType,
    pub lexeme: Seq<char>,
    pub line: nat,
    pub column: nat,
}

#[derive(Debug)]
pub struct Token {
    pub kind: TokenType,
    pub lexeme: String,
    pub line: u32,
    pub column: u32,
}

impl View for Token {
    type V = TokenV;

    open spec fn view(&self) -> TokenV {
        TokenV {
            kind: self.kind,
            lexeme: self.lexeme@,
            line: self.line as nat,
            column: self.column as nat,
        }
    }
}

impl DeepView for Token {
    type V = TokenV;

    open spec fn deep_view(&self) -> TokenV {
        self.view()
    }
}

impl Clone for Token {
    fn clone(&self) -> (r: Token)
        ensures
            r@ == self@,
    {
        Token {
            kind: self.kind,
            lexeme: self.lexeme.clone(),
            line: self.line,
            column: self.column,
        }
    }
}

/// What `char::is_alphabetic` returns; it depends on the character alone.
pub uninterp spec fn char_alphabetic(c: char) -> bool;

/// Relies on `char::is_alphabetic` from std: whether the character is a
/// letter, a function of the character alone.
#[verifier::external_body]
fn is_alphabetic_char(c: char) -> (r: bool)
    ensures
        r == char_alphabetic(c),
{
    c.is_alphabetic()
}

/// Whether a character is a decimal digit.
pub open spec fn is_digit_char(c: char) -> bool {
    48 <= c as u32 && c as u32 <= 57
}

/// Mathematical mirror of the scanner state.
pub struct LexState {
    pub src: Seq<char>,
    pub tokens: Seq<TokenV>,
    pub line: nat,
    pub column: nat,
    pub start: nat,
    pub current: nat,
}

/// First index at or after `i` whose character is not a letter.
pub open spec fn skip_alpha(src: Seq<char>, i: nat) -> nat
    decreases src.len() - i,
{
    if i < src.len() && char_alphabetic(src[i as int]) {
        skip_alpha(src, i + 1)
    } else {
        i
    }
}

/// First index at or after `i` whose character is not a digit.
pub open spec fn skip_digits(src: Seq<char>, i: nat) -> nat
    decreases src.len() - i,
{
    if i < src.len() && is_digit_char(src[i as int]) {
        skip_digits(src, i + 1)
    } else {
        i
    }
}

/// Walks a text literal's contents from `i`, keeping the line and column
/// bookkeeping; stops at the closing quote or at the end of input.
/// Returns the stop index and the line and column there.
pub open spec fn string_scan(src: Seq<char>, i: nat, line: nat, column: nat) -> (nat, nat, nat)
    decreases src.len() - i,
{
    if i >= src.len() || src[i as int] == '"' {
        (i, line, column)
    } else {
        let (l2, c2) = if src[i as int] == '\n' {
            (line + 1, 1nat)
        } else {
            (line, column)
        };
        string_scan(src, i + 1, l2, c2 + 1)
    }
}

/// The token kind a word stands for: a keyword, a boolean literal, or an
/// identifier.
pub open spec fn keyword_kind(w: Seq<char>) -> TokenType {
    if w == "and"@ {
        TokenType::And
    } else if w == "or"@ {
        TokenType::Or
    } else if w == "if"@ {
        TokenType::If
    } else if w == "then"@ {
        TokenType::Then
    } else if w == "else"@ {
        TokenType::Else
    } else if w == "end"@ {
        TokenType::End
    } else if w == "while"@ {
        TokenType::While
    } else if w == "for"@ {
        TokenType::For
    } else if w == "from"@ {
        TokenType::From
    } else if w == "to"@ {
        TokenType::To
    } else if w == "step"@ {
        TokenType::Step
    } else if w == "in"@ {
        TokenType::In
    } else if w == "do"@ {
        TokenType::Do
    } else if w == "function"@ {
        TokenType::Function
    } else if w == "return"@ {
        TokenType::Return
    } else if w == "let"@ {
        TokenType::Let
    } else if w == "print"@ {
        TokenType::Print
    } else if w == "true"@ || w == "false"@ {
        TokenType::Boolean
    } else {
        TokenType::Identifier
    }
}

/// The token recorded for the span `start .. current`: its column points
/// at the span's first character, clamped to one for spans that cross a
/// line break.
pub open spec fn spanned_token(
    kind: TokenType,
    lexeme: Seq<char>,
    line: nat,
    column: nat,
    span_len: nat,
) -> TokenV {
    TokenV {
        kind,
        lexeme,
        line,
        column: if column >= span_len {
            (column - span_len + 1) as nat
        } else {
            1
        },
    }
}

/// One step of the scanner: consumes one lexeme (or one character of
/// whitespace or unknown input) starting at `st.current`, and records a
/// token for it where one is due.
pub open spec fn lex_step(st: LexState) -> LexState {
    let src = st.src;
    let start = st.current;
    let c = src[start as int];
    let cur1 = start + 1;
    let col1 = st.column + 1;
    if c == ' ' || c == '\r' || c == '\t' {
        LexState { start, current: cur1, column: col1, ..st }
    } else if c == '\n' {
        LexState { start, current: cur1, line: st.line + 1, column: 0, ..st }
    } else if is_operator_start(c) {
        let double = (c == '!' || c == '=' || c == '<' || c == '>') && cur1 < src.len()
            && src[cur1 as int] == '=';
        let kind = operator_kind(c, double);
        let end = if double {
            cur1 + 1
        } else {
            cur1
        };
        let col = if double {
            (col1 + 1) as nat
        } else {
            col1
        };
        let tok = spanned_token(
            kind,
            src.subrange(start as int, end as int),
            st.line,
            col,
            (end - start) as nat,
        );
        LexState { start, current: end, column: col, tokens: st.tokens.push(tok), ..st }
    } else if c == '"' {
        let (q, l2, c2) = string_scan(src, cur1, st.line, col1);
        if q >= src.len() {
            // Unterminated text literal: the rest of the input is consumed
            // and no token is recorded.
            LexState { start, current: q, line: l2, column: c2, ..st }
        } else {
            let tok = spanned_token(
                TokenType::Text,
                src.subrange(cur1 as int, q as int),
                l2,
                c2 + 1,
                (q + 1 - start) as nat,
            );
            LexState {
                start,
                current: q + 1,
                line: l2,
                column: c2 + 1,
                tokens: st.tokens.push(tok),
                ..st
            }
        }
    } else if is_digit_char(c) {
        let end = skip_digits(src, cur1);
        let col = (col1 + (end - cur1)) as nat;
        let tok = spanned_token(
            TokenType::Number,
            src.subrange(start as int, end as int),
            st.line,
            col,
            (end - start) as nat,
        );
        LexState { start, current: end, column: col, tokens: st.tokens.push(tok), ..st }
    } else if char_alphabetic(c) || c == '_' {
        let end = skip_alpha(src, cur1);
        let col = (col1 + (end - cur1)) as nat;
        let word = src.subrange(start as int, end as int);
        let tok = spanned_token(keyword_kind(word), word, st.line, col, (end - start) as nat);
        LexState { start, current: end, column: col, tokens: st.tokens.push(tok), ..st }
    } else {
        // Unknown character: consumed, no token.
        LexState { start, current: cur1, column: col1, ..st }
    }
}

/// Whether a character begins an operator or grouping token.
pub open spec fn is_operator_start(c: char) -> bool {
    ||| c == '(' ||| c == ')' ||| c == '[' ||| c == ']'
    ||| c == '+' ||| c == '-' ||| c == '*' ||| c == '/'
    ||| c == '!' ||| c == '=' ||| c == '<' ||| c == '>'
}

/// The token kind of an operator character, doubled with `=` or not.
pub open spec fn operator_kind(c: char, double: bool) -> TokenType {
    if c == '(' {
        TokenType::LeftParen
    } else if c == ')' {
        TokenType::RightParen
    } else if c == '[' {
        TokenType::LeftBracket
    } else if c == ']' {
        TokenType::RightBracket
    } else if c == '+' {
        TokenType::Plus
    } else if c == '-' {
        TokenType::Minus
    } else if c == '*' {
        TokenType::Star
    } else if c == '/' {
        TokenType::Slash
    } else if c == '!' {
        if double {
            TokenType::BangEqual
        } else {
            TokenType::Bang
        }
    } else if c == '=' {
        if double {
            TokenType::EqualEqual
        } else {
            TokenType::Equal
        }
    } else if c == '<' {
        if double {
            TokenType::LessEqual
        } else {
            TokenType::Less
        }
    } else {
        if double {
            TokenType::GreaterEqual
        } else {
            TokenType::Greater
        }
    }
}

/// The scanner run to the end of the input.
pub open spec fn lex_all(st: LexState) -> LexState
    decreases st.src.len() - st.current,
{
    if st.current >= st.src.len() {
        st
    } else {
        let st2 = lex_step(st);
        if st2.current > st.current && st2.current <= st.src.len() && st2.src == st.src {
            lex_all(st2)
        } else {
            st2
        }
    }
}

/// What every token list handed to the parser satisfies: it ends in (and
/// only in) an end-of-input token, and number lexemes are nonempty digit
/// strings.
pub open spec fn tokens_wf(toks: Seq<TokenV>) -> bool {
    &&& toks.len() > 0
    &&& toks.last().kind == TokenType::Eof
    &&& forall|i: int|
        0 <= i < toks.len() - 1 ==> (#[trigger] toks[i].kind) != TokenType::Eof
    &&& forall|i: int|
        0 <= i < toks.len() && (#[trigger] toks[i].kind) == TokenType::Number ==> {
            &&& toks[i].lexeme.len() > 0
            &&& forall|j: int|
                0 <= j < toks[i].lexeme.len() ==> is_digit_char(#[trigger] toks[i].lexeme[j])
        }
}

/// Tokens only, no end-of-input marker yet.
pub open spec fn scan_body_wf(toks: Seq<TokenV>) -> bool {
    &&& forall|i: int| 0 <= i < toks.len() ==> (#[trigger] toks[i].kind) != TokenType::Eof
    &&& forall|i: int|
        0 <= i < toks.len() && (#[trigger] toks[i].kind) == TokenType::Number ==> {
            &&& toks[i].lexeme.len() > 0
            &&& forall|j: int|
                0 <= j < toks[i].lexeme.len() ==> is_digit_char(#[trigger] toks[i].lexeme[j])
        }
}

pub struct Lexer {
    source: String,
    length: usize,
    tokens: Vec<Token>,
    line: u32,
    column: u32,
    start: usize,
    current: usize,
}

impl View for Lexer {
    type V = LexState;

    closed spec fn view(&self) -> LexState {
        LexState {
            src: self.source@,
            tokens: self.tokens.deep_view(),
            line: self.line as nat,
            column: self.column as nat,
            start: self.start as nat,
            current: self.current as nat,
        }
    }
}

impl Lexer {
    /// The scanner's internal bookkeeping invariant.
    pub closed spec fn wf(&self) -> bool {
        &&& self.length == self.source@.len()
        &&& self.source@.len() < u32::MAX
        &&& self.current <= self.length
        &&& self.start <= self.current
        &&& self.line <= self.current + 1
        &&& self.column <= self.current
        &&& 1 <= self.line
    }

    pub fn new(source: String) -> (r: Lexer)
        requires
            source@.len() < u32::MAX,
        ensures
            r.wf(),
            r@ == (LexState {
                src: source@,
                tokens: Seq::<TokenV>::empty(),
                line: 1,
                column: 0,
                start: 0,
                current: 0,
            }),
    {
        let length = source.as_str().unicode_len();
        let r = Lexer { source, length, tokens: Vec::new(), line: 1, column: 0, start: 0, current: 0 };
        proof {
            assert(r@.tokens =~= Seq::<TokenV>::empty());
        }
        r
    }

    fn is_at_end(&self) -> (r: bool)
        requires
            self.wf(),
        ensures
            r == (self@.current >= self@.src.len()),
    {
        self.current >= self.length
    }

    fn peek(&self) -> (c: char)
        requires
            self.wf(),
        ensures
            c == if self@.current < self@.src.len() {
                self@.src[self@.current as int]
            } else {
                '\0'
            },
    {
        if self.is_at_end() {
            return '\0';
        }
        self.source.as_str().get_char(self.current)
    }

    fn advance(&mut self) -> (c: char)
        requires
            old(self).wf(),
            old(self)@.current < old(self)@.src.len(),
        ensures
            final(self).wf(),
            c == old(self)@.src[old(self)@.current as int],
            final(self)@ == (LexState {
                current: old(self)@.current + 1,
                column: old(self)@.column + 1,
                ..old(self)@
            }),
    {
        let c = self.source.as_str().get_char(self.current);
        self.current = self.current + 1;
        self.column = self.column + 1;
        c
    }

    fn match_char(&mut self, expected: char) -> (r: bool)
        requires
            old(self).wf(),
        ensures
            final(self).wf(),
            r == (old(self)@.current < old(self)@.src.len()
                && old(self)@.src[old(self)@.current as int] == expected),
            r ==> final(self)@ == (LexState {
                current: old(self)@.current + 1,
                column: old(self)@.column + 1,
                ..old(self)@
            }),
            !r ==> final(self)@ == old(self)@,
    {
        if self.is_at_end() {
            return false;
        }
        if self.peek() != expected {
            return false;
        }
        self.advance();
        true
    }

    fn is_digit(&self) -> (r: bool)
        requires
            self.wf(),
        ensures
            r == (self@.current < self@.src.len() && is_digit_char(
                self@.src[self@.current as int],
            )),
    {
        if self.is_at_end() {
            return false;
        }
        let c = self.peek();
        let u = c as u32;
        48 <= u && u <= 57
    }

    fn is_alpha(&self) -> (r: bool)
        requires
            self.wf(),
        ensures
            r == (self@.current < self@.src.len() && char_alphabetic(
                self@.src[self@.current as int],
            )),
    {
        if self.is_at_end() {
            return false;
        }
        is_alphabetic_char(self.peek())
    }

    fn add_token(&mut self, kind: TokenType)
        requires
            old(self).wf(),
            old(self)@.start < old(self)@.current,
            kind != TokenType::Number || (forall|j: int|
                old(self)@.start <= j < old(self)@.current ==> is_digit_char(
                    #[trigger] old(self)@.src[j],
                )),
        ensures
            final(self).wf(),
            final(self)@ == (LexState {
                tokens: old(self)@.tokens.push(
                    spanned_token(
                        kind,
                        old(self)@.src.subrange(
                            old(self)@.start as int,
                            old(self)@.current as int,
                        ),
                        old(self)@.line,
                        old(self)@.column,
                        (old(self)@.current - old(self)@.start) as nat,
                    ),
                ),
                ..old(self)@
            }),
            scan_body_wf(old(self)@.tokens) && kind != TokenType::Eof ==> scan_body_wf(
                final(self)@.tokens,
            ),
    {
        let text = self.source.as_str().substring_char(self.start, self.current).to_owned();
        let length = self.current - self.start;
        let column = if self.column as usize >= length {
            self.column - length as u32 + 1
        } else {
            1
        };
        let token = Token { kind, lexeme: text, line: self.line, column };
        self.tokens.push(token);
        proof {
            assert(self@.tokens =~= old(self)@.tokens.push(
                spanned_token(
                    kind,
                    old(self)@.src.subrange(old(self)@.start as int, old(self)@.current as int),
                    old(self)@.line,
                    old(self)@.column,
                    (old(self)@.current - old(self)@.start) as nat,
                ),
            ));
        }
    }

    fn identifier(&mut self)
        requires
            old(self).wf(),
            old(self)@.start < old(self)@.current,
        ensures
            final(self).wf(),
            old(self)@.current <= final(self)@.current,
            ({
                let src = old(self)@.src;
                let end = skip_alpha(src, old(self)@.current);
                let col = (old(self)@.column + (end - old(self)@.current)) as nat;
                let word = src.subrange(old(self)@.start as int, end as int);
                final(self)@ == (LexState {
                    current: end,
                    column: col,
                    tokens: old(self)@.tokens.push(
                        spanned_token(
                            keyword_kind(word),
                            word,
                            old(self)@.line,
                            col,
                            (end - old(self)@.start) as nat,
                        ),
                    ),
                    ..old(self)@
                })
            }),
            scan_body_wf(old(self)@.tokens) ==> scan_body_wf(final(self)@.tokens),
    {
        while self.is_alpha()
            invariant
                self.wf(),
                self@.src == old(self)@.src,
                self@.start == old(self)@.start,
                self@.tokens == old(self)@.tokens,
                self@.line == old(self)@.line,
                old(self)@.current <= self@.current,
                self@.column == old(self)@.column + (self@.current - old(self)@.current),
                self@.start < self@.current,
                skip_alpha(self@.src, self@.current) == skip_alpha(
                    old(self)@.src,
                    old(self)@.current,
                ),
            decreases self@.src.len() - self@.current,
        {
            self.advance();
        }
        let word = self.source.as_str().substring_char(self.start, self.current).to_owned();
        let kind = keyword_of(&word);
        self.add_token(kind);
    }

    fn number(&mut self)
        requires
            old(self).wf(),
            old(self)@.start < old(self)@.current,
            forall|j: int|
                old(self)@.start <= j < old(self)@.current ==> is_digit_char(
                    #[trigger] old(self)@.src[j],
                ),
        ensures
            final(self).wf(),
            old(self)@.current <= final(self)@.current,
            ({
                let src = old(self)@.src;
                let end = skip_digits(src, old(self)@.current);
                let col = (old(self)@.column + (end - old(self)@.current)) as nat;
                final(self)@ == (LexState {
                    current: end,
                    column: col,
                    tokens: old(self)@.tokens.push(
                        spanned_token(
                            TokenType::Number,
                            src.subrange(old(self)@.start as int, end as int),
                            old(self)@.line,
                            col,
                            (end - old(self)@.start) as nat,
                        ),
                    ),
                    ..old(self)@
                })
            }),
            scan_body_wf(old(self)@.tokens) ==> scan_body_wf(final(self)@.tokens),
    {
        while self.is_digit()
            invariant
                self.wf(),
                self@.src == old(self)@.src,
                self@.start == old(self)@.start,
                self@.tokens == old(self)@.tokens,
                self@.line == old(self)@.line,
                old(self)@.current <= self@.current,
                self@.column == old(self)@.column + (self@.current - old(self)@.current),
                self@.start < self@.current,
                forall|j: int|
                    self@.start <= j < self@.current ==> is_digit_char(#[trigger] self@.src[j]),
                skip_digits(self@.src, self@.current) == skip_digits(
                    old(self)@.src,
                    old(self)@.current,
                ),
            decreases self@.src.len() - self@.current,
        {
            self.advance();
        }
        self.add_token(TokenType::Number);
    }

    fn string(&mut self)
        requires
            old(self).wf(),
            old(self)@.current == old(self)@.start + 1,
        ensures
            final(self).wf(),
            old(self)@.current <= final(self)@.current,
            ({
                let src = old(self)@.src;
                let (q, l2, c2) = string_scan(
                    src,
                    old(self)@.current,
                    old(self)@.line,
                    old(self)@.column,
                );
                if q >= src.len() {
                    final(self)@ == (LexState { current: q, line: l2, column: c2, ..old(self)@ })
                } else {
                    final(self)@ == (LexState {
                        current: q + 1,
                        line: l2,
                        column: c2 + 1,
                        tokens: old(self)@.tokens.push(
                            spanned_token(
                                TokenType::Text,
                                src.subrange(old(self)@.current as int, q as int),
                                l2,
                                c2 + 1,
                                (q + 1 - old(self)@.start) as nat,
                            ),
                        ),
                        ..old(self)@
                    })
                }
            }),
            scan_body_wf(old(self)@.tokens) ==> scan_body_wf(final(self)@.tokens),
    {
        while self.peek() != '"' && !self.is_at_end()
            invariant
                self.wf(),
                self@.src == old(self)@.src,
                self@.start == old(self)@.start,
                self@.tokens == old(self)@.tokens,
                old(self)@.current <= self@.current,
                self@.start < self@.current,
                string_scan(self@.src, self@.current, self@.line, self@.column) == string_scan(
                    old(self)@.src,
                    old(self)@.current,
                    old(self)@.line,
                    old(self)@.column,
                ),
            decreases self@.src.len() - self@.current,
        {
            if self.peek() == '\n' {
                self.line = self.line + 1;
                self.column = 1;
            }
            self.current = self.current + 1;
            self.column = self.column + 1;
        }
        if self.is_at_end() {
            // Unterminated text literal: nothing to record.
            return ;
        }
        self.advance();
        let text = self.source.as_str().substring_char(self.start + 1, self.current - 1).to_owned();
        let length = self.current - self.start;
        let column = if self.column as usize >= length {
            self.column - length as u32 + 1
        } else {
            1
        };
        let token = Token { kind: TokenType::Text, lexeme: text, line: self.line, column };
        self.tokens.push(token);
        proof {
            let (q, l2, c2) = string_scan(
                old(self)@.src,
                old(self)@.current,
                old(self)@.line,
                old(self)@.column,
            );
            assert(self@.tokens =~= old(self)@.tokens.push(
                spanned_token(
                    TokenType::Text,
                    old(self)@.src.subrange(old(self)@.current as int, q as int),
                    l2,
                    c2 + 1,
                    (q + 1 - old(self)@.start) as nat,
                ),
            ));
        }
    }

    fn scan_token(&mut self)
        requires
            old(self).wf(),
            old(self)@.current < old(self)@.src.len(),
            old(self)@.start == old(self)@.current,
        ensures
            final(self).wf(),
            final(self)@ == lex_step(old(self)@),
            old(self)@.current < final(self)@.current,
            scan_body_wf(old(self)@.tokens) ==> scan_body_wf(final(self)@.tokens),
    {
        let c = self.advance();
        if c == ' ' || c == '\r' || c == '\t' {
        } else if c == '\n' {
            self.line = self.line + 1;
            self.column = 0;
        } else if c == '(' {
            self.add_token(TokenType::LeftParen);
        } else if c == ')' {
            self.add_token(TokenType::RightParen);
        } else if c == '[' {
            self.add_token(TokenType::LeftBracket);
        } else if c == ']' {
            self.add_token(TokenType::RightBracket);
        } else if c == '+' {
            self.add_token(TokenType::Plus);
        } else if c == '-' {
            self.add_token(TokenType::Minus);
        } else if c == '*' {
            self.add_token(TokenType::Star);
        } else if c == '/' {
            self.add_token(TokenType::Slash);
        } else if c == '!' {
            if self.match_char('=') {
                self.add_token(TokenType::BangEqual);
            } else {
                self.add_token(TokenType::Bang);
            }
        } else if c == '=' {
            if self.match_char('=') {
                self.add_token(TokenType::EqualEqual);
            } else {
                self.add_token(TokenType::Equal);
            }
        } else if c == '<' {
            if self.match_char('=') {
                self.add_token(TokenType::LessEqual);
            } else {
                self.add_token(TokenType::Less);
            }
        } else if c == '>' {
            if self.match_char('=') {
                self.add_token(TokenType::GreaterEqual);
            } else {
                self.add_token(TokenType::Greater);
            }
        } else if c == '"' {
            self.string();
        } else {
            let u = c as u32;
            if 48 <= u && u <= 57 {
                self.number();
            } else if is_alphabetic_char(c) || c == '_' {
                self.identifier();
            } else {
                // Unknown character: skipped.
            }
        }
    }

    /// Scans the whole source and returns the tokens, ending in an
    /// end-of-input token.  The returned list satisfies `tokens_wf`, which
    /// is what the parser relies on.
    pub fn scan_tokens(&mut self) -> (r: Vec<Token>)
        requires
            old(self).wf(),
            old(self)@.tokens == Seq::<TokenV>::empty(),
        ensures
            final(self).wf(),
            ({
                let fin = lex_all(old(self)@);
                r.deep_view() == fin.tokens.push(
                    TokenV {
                        kind: TokenType::Eof,
                        lexeme: Seq::<char>::empty(),
                        line: fin.line,
                        column: fin.column,
                    },
                )
            }),
            tokens_wf(r.deep_view()),
    {
        while !self.is_at_end()
            invariant
                self.wf(),
                lex_all(self@) == lex_all(old(self)@),
                scan_body_wf(self@.tokens),
            decreases self@.src.len() - self@.current,
        {
            proof {
                let pre = self@;
                let moved = LexState { start: pre.current, ..pre };
                assert(lex_step(moved) == lex_step(pre));
            }
            self.start = self.current;
            self.scan_token();
        }
        let eof = Token {
            kind: TokenType::Eof,
            lexeme: String::new(),
            line: self.line,
            column: self.column,
        };
        self.tokens.push(eof);
        proof {
            let fin = lex_all(old(self)@);
            assert(self@.tokens =~= fin.tokens.push(
                TokenV {
                    kind: TokenType::Eof,
                    lexeme: Seq::<char>::empty(),
                    line: fin.line,
                    column: fin.column,
                },
            ));
        }
        let r = self.tokens.clone();
        proof {
            assert forall|i: int| 0 <= i < r.len() implies r[i]@ == self.tokens[i]@ by {
                assert(cloned::<Token>(self.tokens[i], r[i]));
            }
            assert(r.deep_view() =~= self.tokens.deep_view());
        }
        r
    }
}

/// The token kind a word stands for, decided as `keyword_kind` does.
fn keyword_of(word: &String) -> (kind: TokenType)
    ensures
        kind == keyword_kind(word@),
{
    if *word == "and".to_owned() {
        TokenType::And
    } else if *word == "or".to_owned() {
        TokenType::Or
    } else if *word == "if".to_owned() {
        TokenType::If
    } else if *word == "then".to_owned() {
        TokenType::Then
    } else if *word == "else".to_owned() {
        TokenType::Else
    } else if *word == "end".to_owned() {
        TokenType::End
    } else if *word == "while".to_owned() {
        TokenType::While
    } else if *word == "for".to_owned() {
        TokenType::For
    } else if *word == "from".to_owned() {
        TokenType::From
    } else if *word == "to".to_owned() {
        TokenType::To
    } else if *word == "step".to_owned() {
        TokenType::Step
    } else if *word == "in".to_owned() {
        TokenType::In
    } else if *word == "do".to_owned() {
        TokenType::Do
    } else if *word == "function".to_owned() {
        TokenType::Function
    } else if *word == "return".to_owned() {
        TokenType::Return
    } else if *word == "let".to_owned() {
        TokenType::Let
    } else if *word == "print".to_owned() {
        TokenType::Print
    } else if *word == "true".to_owned() || *word == "false".to_owned() {
        TokenType::Boolean
    } else {
        TokenType::Identifier
    }
}

} // verus!
