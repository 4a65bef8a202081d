//! The parser: recursive descent over the token list, producing the
//! syntax tree.  Each parsing function has a mathematical mirror
//! (`p_expression` and friends) over the token mirrors; the executable
//! functions are proved to return exactly the mirror's tree and to
//! consume exactly the tokens it says, or the error it says.

use vstd::prelude::*;

use crate::ast::{
    binary_op_of_token, logical_op_of_token, unary_op_of_token, BinaryOperator, DeclV,
    Declaration, ExprV, Expression, LogicalOperator, StmtV, Statement, UnaryOperator,
};
use crate::lexer::{is_digit_char, tokens_wf, Token, TokenType, TokenV};

verus! {

/// A syntax failure, with its diagnostic message.
#[derive(Debug)]
pub struct ParseError {
    pub message: String,
}

impl View for ParseError {
    type V = Seq<char>;

    open spec fn view(&self) -> Seq<char> {
        self.message@
    }
}

/// What a mirror parsing function yields: a tree and the number of tokens
/// consumed, or a failure message.
pub enum PRes<T> {
    Parsed(T, nat),
    Failed(Seq<char>),
}

/// The token kind at a position; past the end reads as end-of-input.
pub open spec fn tk(toks: Seq<TokenV>, i: nat) -> TokenType {
    if i < toks.len() {
        toks[i as int].kind
    } else {
        TokenType::Eof
    }
}

/// The lexeme at a position.
pub open spec fn lx(toks: Seq<TokenV>, i: nat) -> Seq<char> {
    if i < toks.len() {
        toks[i as int].lexeme
    } else {
        Seq::<char>::empty()
    }
}

/// The number a digit string stands for, folding digits from the left and
/// saturating at the largest representable number.
pub open spec fn sat_num(s: Seq<char>) -> i64
    decreases s.len(),
{
    if s.len() == 0 {
        0
    } else {
        let hi = sat_num(s.drop_last());
        let d = (s.last() as u32) - 48;
        if hi * 10 + d > i64::MAX {
            i64::MAX
        } else {
            (hi * 10 + d) as i64
        }
    }
}

proof fn lemma_sat_num_nonneg(s: Seq<char>)
    requires
        forall|j: int| 0 <= j < s.len() ==> is_digit_char(#[trigger] s[j]),
    ensures
        sat_num(s) >= 0,
    decreases s.len(),
{
    if s.len() > 0 {
        lemma_sat_num_nonneg(s.drop_last());
    }
}

/// Reads a digit lexeme as a number, per `sat_num`.
fn parse_number(lexeme: &String) -> (r: i64)
    requires
        forall|j: int| 0 <= j < lexeme@.len() ==> is_digit_char(#[trigger] lexeme@[j]),
    ensures
        r == sat_num(lexeme@),
{
    let s = lexeme.as_str();
    let n = s.unicode_len();
    let mut acc: i64 = 0;
    let mut i: usize = 0;
    while i < n
        invariant
            i <= n,
            n == lexeme@.len(),
            s@ == lexeme@,
            forall|j: int| 0 <= j < lexeme@.len() ==> is_digit_char(#[trigger] lexeme@[j]),
            acc == sat_num(lexeme@.subrange(0, i as int)),
            acc >= 0,
        decreases n - i,
    {
        let c = s.get_char(i);
        let d = (c as u32) - 48;
        proof {
            assert(is_digit_char(lexeme@[i as int]));
            lemma_sat_num_nonneg(lexeme@.subrange(0, i as int));
            assert(lexeme@.subrange(0, i + 1 as int).drop_last() =~= lexeme@.subrange(
                0,
                i as int,
            ));
            assert(lexeme@.subrange(0, i + 1 as int).last() == lexeme@[i as int]);
        }
        acc = match acc.checked_mul(10) {
            Some(x) => match x.checked_add(d as i64) {
                Some(y) => y,
                None => i64::MAX,
            },
            None => i64::MAX,
        };
        i = i + 1;
    }
    proof {
        assert(lexeme@.subrange(0, n as int) =~= lexeme@);
    }
    acc
}

pub struct Parser {
    tokens: Vec<Token>,
    current: usize,
}

impl Parser {
    /// The token mirrors this parser walks.
    pub closed spec fn toks(&self) -> Seq<TokenV> {
        self.tokens.deep_view()
    }

    /// The position of the next token.
    pub closed spec fn pos(&self) -> nat {
        self.current as nat
    }

    /// The parser's invariant: the tokens came well formed from the
    /// scanner and the position is in bounds.
    pub closed spec fn wf(&self) -> bool {
        &&& tokens_wf(self.tokens.deep_view())
        &&& self.current < self.tokens@.len()
    }

    pub fn new(tokens: Vec<Token>) -> (r: Parser)
        ensures
            r.toks() == tokens.deep_view(),
            r.pos() == 0,
            tokens_wf(tokens.deep_view()) ==> r.wf(),
    {
        Parser { tokens, current: 0 }
    }

    /// The token just consumed.
    pub fn previous(&self) -> (r: &Token)
        requires
            self.wf(),
            self.pos() >= 1,
        ensures
            r@ == self.toks()[self.pos() - 1],
    {
        &self.tokens[self.current - 1]
    }

    /// The next token, not yet consumed.
    pub fn peek(&self) -> (r: &Token)
        requires
            self.wf(),
        ensures
            r@ == self.toks()[self.pos() as int],
            r@.kind == tk(self.toks(), self.pos()),
    {
        &self.tokens[self.current]
    }

    /// Whether the parser stands at the end of the input.
    pub fn is_at_end(&self) -> (r: bool)
        requires
            self.wf(),
        ensures
            r == (tk(self.toks(), self.pos()) == TokenType::Eof),
    {
        self.tokens[self.current].kind == TokenType::Eof
    }

    /// Whether the next token has the given kind; never true at the end
    /// of the input.
    pub fn check(&self, kind: TokenType) -> (r: bool)
        requires
            self.wf(),
        ensures
            r == (tk(self.toks(), self.pos()) == kind && kind != TokenType::Eof),
    {
        if self.is_at_end() {
            false
        } else {
            self.tokens[self.current].kind == kind
        }
    }

    /// Consumes and returns the next token; at the end of the input it
    /// stays put and returns the last token.
    pub fn advance(&mut self) -> (r: Token)
        requires
            old(self).wf(),
            tk(old(self).toks(), old(self).pos()) != TokenType::Eof || old(self).pos() >= 1,
        ensures
            final(self).wf(),
            final(self).toks() == old(self).toks(),
            ({
                let k = tk(old(self).toks(), old(self).pos());
                if k != TokenType::Eof {
                    &&& final(self).pos() == old(self).pos() + 1
                    &&& r@ == old(self).toks()[old(self).pos() as int]
                } else {
                    &&& final(self).pos() == old(self).pos()
                    &&& r@ == old(self).toks()[old(self).pos() - 1]
                }
            }),
    {
        let n = self.tokens.len();
        if !self.is_at_end() {
            proof {
                assert(self.toks()[self.pos() as int].kind != TokenType::Eof);
                assert(self.toks().last().kind == TokenType::Eof);
                assert(self.pos() < self.toks().len() - 1);
            }
            self.current = self.current + 1;
        }
        self.tokens[self.current - 1].clone()
    }

    /// Consumes the next token if it has the given kind.
    pub fn match_token(&mut self, kind: TokenType) -> (r: bool)
        requires
            old(self).wf(),
        ensures
            final(self).wf(),
            final(self).toks() == old(self).toks(),
            r == (tk(old(self).toks(), old(self).pos()) == kind && kind != TokenType::Eof),
            r ==> final(self).pos() == old(self).pos() + 1,
            !r ==> final(self).pos() == old(self).pos(),
    {
        if self.check(kind) {
            self.advance();
            true
        } else {
            false
        }
    }

    /// Demands the next token to have the given kind and consumes it, or
    /// fails with the given message.
    pub fn consume(&mut self, kind: TokenType, message: &str) -> (r: Result<Token, ParseError>)
        requires
            old(self).wf(),
        ensures
            final(self).wf(),
            final(self).toks() == old(self).toks(),
            ({
                let hit = tk(old(self).toks(), old(self).pos()) == kind && kind != TokenType::Eof;
                match r {
                    Ok(t) => {
                        &&& hit
                        &&& t@ == old(self).toks()[old(self).pos() as int]
                        &&& final(self).pos() == old(self).pos() + 1
                    },
                    Err(e) => {
                        &&& !hit
                        &&& e@ == message@
                        &&& final(self).pos() == old(self).pos()
                    },
                }
            }),
    {
        if self.check(kind) {
            Ok(self.advance())
        } else {
            Err(ParseError { message: message.to_owned() })
        }
    }
}


/// Tokens remaining at a position, clamped at the end.
pub open spec fn rem(toks: Seq<TokenV>, pos: nat) -> nat {
    if pos < toks.len() {
        (toks.len() - pos) as nat
    } else {
        0
    }
}

/// What the expression grammar yields, one mirror per precedence level:
/// each level parses its operand and then folds a run of its operators
/// left-associatively.
#[verifier::opaque]
pub open spec fn p_expression(toks: Seq<TokenV>, pos: nat) -> PRes<ExprV>
    decreases rem(toks, pos), 9nat,
{
    p_or(toks, pos)
}

#[verifier::opaque]
pub open spec fn p_unary(toks: Seq<TokenV>, pos: nat) -> PRes<ExprV>
    decreases rem(toks, pos), 1nat,
{
    let k = tk(toks, pos);
    if k == TokenType::Bang || k == TokenType::Minus {
        match p_unary(toks, pos + 1) {
            PRes::Parsed(e, n) => PRes::Parsed(
                ExprV::Unary(unary_op_of_token(k), Box::new(e)),
                1 + n,
            ),
            PRes::Failed(m) => PRes::Failed(m),
        }
    } else {
        p_primary(toks, pos)
    }
}

#[verifier::opaque]
pub open spec fn p_primary(toks: Seq<TokenV>, pos: nat) -> PRes<ExprV>
    decreases rem(toks, pos), 0nat,
{
    let k = tk(toks, pos);
    if k == TokenType::Boolean {
        PRes::Parsed(ExprV::Boolean(lx(toks, pos) == "true"@), 1)
    } else if k == TokenType::Number {
        PRes::Parsed(ExprV::Number(sat_num(lx(toks, pos))), 1)
    } else if k == TokenType::Text {
        PRes::Parsed(ExprV::Text(lx(toks, pos)), 1)
    } else if k == TokenType::Identifier {
        PRes::Parsed(ExprV::Variable(lx(toks, pos)), 1)
    } else if k == TokenType::LeftParen {
        match p_expression(toks, pos + 1) {
            PRes::Parsed(e, n) => if tk(toks, pos + 1 + n) == TokenType::RightParen {
                PRes::Parsed(e, n + 2)
            } else {
                PRes::Failed("Expected ')' after expression"@)
            },
            PRes::Failed(m) => PRes::Failed(m),
        }
    } else {
        PRes::Failed("Expected expression"@)
    }
}

#[verifier::opaque]
pub open spec fn p_or(toks: Seq<TokenV>, pos: nat) -> PRes<ExprV>
    decreases rem(toks, pos), 8nat,
{
    match p_and(toks, pos) {
        PRes::Parsed(e, n) => match p_or_rest(toks, pos + n, e) {
            PRes::Parsed(e2, u) => PRes::Parsed(e2, n + u),
            PRes::Failed(m) => PRes::Failed(m),
        },
        PRes::Failed(m) => PRes::Failed(m),
    }
}

#[verifier::opaque]
pub open spec fn p_or_rest(toks: Seq<TokenV>, p: nat, acc: ExprV) -> PRes<ExprV>
    decreases rem(toks, p), 2nat,
{
    let k = tk(toks, p);
    if k == TokenType::Or {
        match p_and(toks, p + 1) {
            PRes::Parsed(rhs, n) => {
                let acc2 = ExprV::Logical(logical_op_of_token(k), Box::new(acc), Box::new(rhs));
                match p_or_rest(toks, p + 1 + n, acc2) {
                    PRes::Parsed(e, u) => PRes::Parsed(e, 1 + n + u),
                    PRes::Failed(m) => PRes::Failed(m),
                }
            },
            PRes::Failed(m) => PRes::Failed(m),
        }
    } else {
        PRes::Parsed(acc, 0)
    }
}

#[verifier::opaque]
pub open spec fn p_and(toks: Seq<TokenV>, pos: nat) -> PRes<ExprV>
    decreases rem(toks, pos), 7nat,
{
    match p_equality(toks, pos) {
        PRes::Parsed(e, n) => match p_and_rest(toks, pos + n, e) {
            PRes::Parsed(e2, u) => PRes::Parsed(e2, n + u),
            PRes::Failed(m) => PRes::Failed(m),
        },
        PRes::Failed(m) => PRes::Failed(m),
    }
}

#[verifier::opaque]
pub open spec fn p_and_rest(toks: Seq<TokenV>, p: nat, acc: ExprV) -> PRes<ExprV>
    decreases rem(toks, p), 2nat,
{
    let k = tk(toks, p);
    if k == TokenType::And {
        match p_equality(toks, p + 1) {
            PRes::Parsed(rhs, n) => {
                let acc2 = ExprV::Logical(logical_op_of_token(k), Box::new(acc), Box::new(rhs));
                match p_and_rest(toks, p + 1 + n, acc2) {
                    PRes::Parsed(e, u) => PRes::Parsed(e, 1 + n + u),
                    PRes::Failed(m) => PRes::Failed(m),
                }
            },
            PRes::Failed(m) => PRes::Failed(m),
        }
    } else {
        PRes::Parsed(acc, 0)
    }
}

#[verifier::opaque]
pub open spec fn p_equality(toks: Seq<TokenV>, pos: nat) -> PRes<ExprV>
    decreases rem(toks, pos), 6nat,
{
    match p_comparison(toks, pos) {
        PRes::Parsed(e, n) => match p_equality_rest(toks, pos + n, e) {
            PRes::Parsed(e2, u) => PRes::Parsed(e2, n + u),
            PRes::Failed(m) => PRes::Failed(m),
        },
        PRes::Failed(m) => PRes::Failed(m),
    }
}

#[verifier::opaque]
pub open spec fn p_equality_rest(toks: Seq<TokenV>, p: nat, acc: ExprV) -> PRes<ExprV>
    decreases rem(toks, p), 2nat,
{
    let k = tk(toks, p);
    if k == TokenType::EqualEqual || k == TokenType::BangEqual {
        match p_comparison(toks, p + 1) {
            PRes::Parsed(rhs, n) => {
                let acc2 = ExprV::Binary(binary_op_of_token(k), Box::new(acc), Box::new(rhs));
                match p_equality_rest(toks, p + 1 + n, acc2) {
                    PRes::Parsed(e, u) => PRes::Parsed(e, 1 + n + u),
                    PRes::Failed(m) => PRes::Failed(m),
                }
            },
            PRes::Failed(m) => PRes::Failed(m),
        }
    } else {
        PRes::Parsed(acc, 0)
    }
}

#[verifier::opaque]
pub open spec fn p_comparison(toks: Seq<TokenV>, pos: nat) -> PRes<ExprV>
    decreases rem(toks, pos), 5nat,
{
    match p_term(toks, pos) {
        PRes::Parsed(e, n) => match p_comparison_rest(toks, pos + n, e) {
            PRes::Parsed(e2, u) => PRes::Parsed(e2, n + u),
            PRes::Failed(m) => PRes::Failed(m),
        },
        PRes::Failed(m) => PRes::Failed(m),
    }
}

#[verifier::opaque]
pub open spec fn p_comparison_rest(toks: Seq<TokenV>, p: nat, acc: ExprV) -> PRes<ExprV>
    decreases rem(toks, p), 2nat,
{
    let k = tk(toks, p);
    if k == TokenType::Greater || k == TokenType::GreaterEqual || k == TokenType::Less || k == TokenType::LessEqual {
        match p_term(toks, p + 1) {
            PRes::Parsed(rhs, n) => {
                let acc2 = ExprV::Binary(binary_op_of_token(k), Box::new(acc), Box::new(rhs));
                match p_comparison_rest(toks, p + 1 + n, acc2) {
                    PRes::Parsed(e, u) => PRes::Parsed(e, 1 + n + u),
                    PRes::Failed(m) => PRes::Failed(m),
                }
            },
            PRes::Failed(m) => PRes::Failed(m),
        }
    } else {
        PRes::Parsed(acc, 0)
    }
}

#[verifier::opaque]
pub open spec fn p_term(toks: Seq<TokenV>, pos: nat) -> PRes<ExprV>
    decreases rem(toks, pos), 4nat,
{
    match p_factor(toks, pos) {
        PRes::Parsed(e, n) => match p_term_rest(toks, pos + n, e) {
            PRes::Parsed(e2, u) => PRes::Parsed(e2, n + u),
            PRes::Failed(m) => PRes::Failed(m),
        },
        PRes::Failed(m) => PRes::Failed(m),
    }
}

#[verifier::opaque]
pub open spec fn p_term_rest(toks: Seq<TokenV>, p: nat, acc: ExprV) -> PRes<ExprV>
    decreases rem(toks, p), 2nat,
{
    let k = tk(toks, p);
    if k == TokenType::Minus || k == TokenType::Plus {
        match p_factor(toks, p + 1) {
            PRes::Parsed(rhs, n) => {
                let acc2 = ExprV::Binary(binary_op_of_token(k), Box::new(acc), Box::new(rhs));
                match p_term_rest(toks, p + 1 + n, acc2) {
                    PRes::Parsed(e, u) => PRes::Parsed(e, 1 + n + u),
                    PRes::Failed(m) => PRes::Failed(m),
                }
            },
            PRes::Failed(m) => PRes::Failed(m),
        }
    } else {
        PRes::Parsed(acc, 0)
    }
}

pub open spec fn p_factor(toks: Seq<TokenV>, pos: nat) -> PRes<ExprV>
    decreases rem(toks, pos), 3nat,
{
    match p_unary(toks, pos) {
        PRes::Parsed(e, n) => match p_factor_rest(toks, pos + n, e) {
            PRes::Parsed(e2, u) => PRes::Parsed(e2, n + u),
            PRes::Failed(m) => PRes::Failed(m),
        },
        PRes::Failed(m) => PRes::Failed(m),
    }
}

pub open spec fn p_factor_rest(toks: Seq<TokenV>, p: nat, acc: ExprV) -> PRes<ExprV>
    decreases rem(toks, p), 2nat,
{
    let k = tk(toks, p);
    if k == TokenType::Slash || k == TokenType::Star {
        match p_unary(toks, p + 1) {
            PRes::Parsed(rhs, n) => {
                let acc2 = ExprV::Binary(binary_op_of_token(k), Box::new(acc), Box::new(rhs));
                match p_factor_rest(toks, p + 1 + n, acc2) {
                    PRes::Parsed(e, u) => PRes::Parsed(e, 1 + n + u),
                    PRes::Failed(m) => PRes::Failed(m),
                }
            },
            PRes::Failed(m) => PRes::Failed(m),
        }
    } else {
        PRes::Parsed(acc, 0)
    }
}

impl Parser {
    pub fn expression(&mut self) -> (r: Result<Expression, ParseError>)
        requires
            old(self).wf(),
        ensures
            final(self).wf(),
            final(self).toks() == old(self).toks(),
            old(self).pos() <= final(self).pos(),
            r is Ok ==> old(self).pos() < final(self).pos(),
            match r {
                Ok(e) => p_expression(old(self).toks(), old(self).pos()) == PRes::Parsed(
                    e@,
                    (final(self).pos() - old(self).pos()) as nat,
                ),
                Err(pe) => p_expression(old(self).toks(), old(self).pos())
                    == PRes::Failed::<ExprV>(pe@),
            },
        decreases old(self).toks().len() - old(self).pos(), 9nat,
    {
        let ghost toks = self.toks();
        let ghost pos0 = self.pos();
        let r = self.or_expression();
        proof {
            lemma_unfold_p_expression(toks, pos0);
        }
        r
    }

    #[verifier::rlimit(100)]
    #[verifier::spinoff_prover]
    pub fn or_expression(&mut self) -> (r: Result<Expression, ParseError>)
        requires
            old(self).wf(),
        ensures
            final(self).wf(),
            final(self).toks() == old(self).toks(),
            old(self).pos() <= final(self).pos(),
            r is Ok ==> old(self).pos() < final(self).pos(),
            match r {
                Ok(e) => p_or(old(self).toks(), old(self).pos()) == PRes::Parsed(
                    e@,
                    (final(self).pos() - old(self).pos()) as nat,
                ),
                Err(pe) => p_or(old(self).toks(), old(self).pos())
                    == PRes::Failed::<ExprV>(pe@),
            },
        decreases old(self).toks().len() - old(self).pos(), 8nat,
    {
        let ghost toks = self.toks();
        let ghost pos0 = self.pos();
        let mut expr = match self.and_expression() {
            Ok(e) => e,
            Err(pe) => {
                proof {
                    lemma_unfold_p_or(toks, pos0);
                    assert(p_or(toks, pos0) == PRes::Failed::<ExprV>(pe@));
                }
                return Err(pe);
            },
        };
        proof {
            lemma_unfold_p_or(toks, pos0);
            assert(p_or(toks, pos0) == match p_or_rest(toks, self.pos(), expr@) {
                PRes::Parsed(e2, u) => PRes::Parsed(e2, ((self.pos() - pos0) as nat + u) as nat),
                PRes::Failed(m) => PRes::Failed::<ExprV>(m),
            });
        }
        while self.check(TokenType::Or)
            invariant
                self.wf(),
                toks == old(self).toks(),
                pos0 == old(self).pos(),
                self.toks() == toks,
                pos0 <= self.pos(),
                match p_or_rest(toks, self.pos(), expr@) {
                    PRes::Parsed(e2, u) => p_or(toks, pos0) == PRes::Parsed(
                        e2,
                        (self.pos() - pos0 + u) as nat,
                    ),
                    PRes::Failed(m) => p_or(toks, pos0) == PRes::Failed::<ExprV>(m),
                },
            decreases toks.len() - self.pos(),
        {
            let ghost hp = self.pos();
            let ghost acc0 = expr@;
            let kind = self.peek().kind;
            self.advance();
            let rhs = match self.and_expression() {
                Ok(e) => e,
                Err(pe) => {
                    proof {
                        lemma_unfold_p_or_rest(toks, hp, acc0);
                        assert(p_or_rest(toks, hp, acc0) == PRes::Failed::<ExprV>(pe@));
                    }
                    return Err(pe);
                },
            };
            let op = LogicalOperator::from_tokentype(kind);
            expr = Expression::Logical(op, Box::new(expr), Box::new(rhs));
            proof {
                lemma_unfold_p_or_rest(toks, hp, acc0);
                assert(p_or_rest(toks, hp, acc0) == match p_or_rest(toks, self.pos(), expr@) {
                    PRes::Parsed(e2, u) => PRes::Parsed(
                        e2,
                        ((self.pos() - hp) as nat + u) as nat,
                    ),
                    PRes::Failed(m) => PRes::Failed::<ExprV>(m),
                });
            }
        }
        proof {
            lemma_unfold_p_or_rest(toks, self.pos(), expr@);
            assert(p_or_rest(toks, self.pos(), expr@) == PRes::Parsed(expr@, 0));
        }
        Ok(expr)
    }

    #[verifier::rlimit(100)]
    #[verifier::spinoff_prover]
    pub fn and_expression(&mut self) -> (r: Result<Expression, ParseError>)
        requires
            old(self).wf(),
        ensures
            final(self).wf(),
            final(self).toks() == old(self).toks(),
            old(self).pos() <= final(self).pos(),
            r is Ok ==> old(self).pos() < final(self).pos(),
            match r {
                Ok(e) => p_and(old(self).toks(), old(self).pos()) == PRes::Parsed(
                    e@,
                    (final(self).pos() - old(self).pos()) as nat,
                ),
                Err(pe) => p_and(old(self).toks(), old(self).pos())
                    == PRes::Failed::<ExprV>(pe@),
            },
        decreases old(self).toks().len() - old(self).pos(), 7nat,
    {
        let ghost toks = self.toks();
        let ghost pos0 = self.pos();
        let mut expr = match self.equality() {
            Ok(e) => e,
            Err(pe) => {
                proof {
                    lemma_unfold_p_and(toks, pos0);
                    assert(p_and(toks, pos0) == PRes::Failed::<ExprV>(pe@));
                }
                return Err(pe);
            },
        };
        proof {
            lemma_unfold_p_and(toks, pos0);
            assert(p_and(toks, pos0) == match p_and_rest(toks, self.pos(), expr@) {
                PRes::Parsed(e2, u) => PRes::Parsed(e2, ((self.pos() - pos0) as nat + u) as nat),
                PRes::Failed(m) => PRes::Failed::<ExprV>(m),
            });
        }
        while self.check(TokenType::And)
            invariant
                self.wf(),
                toks == old(self).toks(),
                pos0 == old(self).pos(),
                self.toks() == toks,
                pos0 <= self.pos(),
                match p_and_rest(toks, self.pos(), expr@) {
                    PRes::Parsed(e2, u) => p_and(toks, pos0) == PRes::Parsed(
                        e2,
                        (self.pos() - pos0 + u) as nat,
                    ),
                    PRes::Failed(m) => p_and(toks, pos0) == PRes::Failed::<ExprV>(m),
                },
            decreases toks.len() - self.pos(),
        {
            let ghost hp = self.pos();
            let ghost acc0 = expr@;
            let kind = self.peek().kind;
            self.advance();
            let rhs = match self.equality() {
                Ok(e) => e,
                Err(pe) => {
                    proof {
                        lemma_unfold_p_and_rest(toks, hp, acc0);
                        assert(p_and_rest(toks, hp, acc0) == PRes::Failed::<ExprV>(pe@));
                    }
                    return Err(pe);
                },
            };
            let op = LogicalOperator::from_tokentype(kind);
            expr = Expression::Logical(op, Box::new(expr), Box::new(rhs));
            proof {
                lemma_unfold_p_and_rest(toks, hp, acc0);
                assert(p_and_rest(toks, hp, acc0) == match p_and_rest(toks, self.pos(), expr@) {
                    PRes::Parsed(e2, u) => PRes::Parsed(
                        e2,
                        ((self.pos() - hp) as nat + u) as nat,
                    ),
                    PRes::Failed(m) => PRes::Failed::<ExprV>(m),
                });
            }
        }
        proof {
            lemma_unfold_p_and_rest(toks, self.pos(), expr@);
            assert(p_and_rest(toks, self.pos(), expr@) == PRes::Parsed(expr@, 0));
        }
        Ok(expr)
    }

    #[verifier::rlimit(100)]
    #[verifier::spinoff_prover]
    pub fn equality(&mut self) -> (r: Result<Expression, ParseError>)
        requires
            old(self).wf(),
        ensures
            final(self).wf(),
            final(self).toks() == old(self).toks(),
            old(self).pos() <= final(self).pos(),
            r is Ok ==> old(self).pos() < final(self).pos(),
            match r {
                Ok(e) => p_equality(old(self).toks(), old(self).pos()) == PRes::Parsed(
                    e@,
                    (final(self).pos() - old(self).pos()) as nat,
                ),
                Err(pe) => p_equality(old(self).toks(), old(self).pos())
                    == PRes::Failed::<ExprV>(pe@),
            },
        decreases old(self).toks().len() - old(self).pos(), 6nat,
    {
        let ghost toks = self.toks();
        let ghost pos0 = self.pos();
        let mut expr = match self.comparison() {
            Ok(e) => e,
            Err(pe) => {
                proof {
                    lemma_unfold_p_equality(toks, pos0);
                    assert(p_equality(toks, pos0) == PRes::Failed::<ExprV>(pe@));
                }
                return Err(pe);
            },
        };
        proof {
            lemma_unfold_p_equality(toks, pos0);
            assert(p_equality(toks, pos0) == match p_equality_rest(toks, self.pos(), expr@) {
                PRes::Parsed(e2, u) => PRes::Parsed(e2, ((self.pos() - pos0) as nat + u) as nat),
                PRes::Failed(m) => PRes::Failed::<ExprV>(m),
            });
        }
        while self.check(TokenType::EqualEqual) || self.check(TokenType::BangEqual)
            invariant
                self.wf(),
                toks == old(self).toks(),
                pos0 == old(self).pos(),
                self.toks() == toks,
                pos0 <= self.pos(),
                match p_equality_rest(toks, self.pos(), expr@) {
                    PRes::Parsed(e2, u) => p_equality(toks, pos0) == PRes::Parsed(
                        e2,
                        (self.pos() - pos0 + u) as nat,
                    ),
                    PRes::Failed(m) => p_equality(toks, pos0) == PRes::Failed::<ExprV>(m),
                },
            decreases toks.len() - self.pos(),
        {
            let ghost hp = self.pos();
            let ghost acc0 = expr@;
            let kind = self.peek().kind;
            self.advance();
            let rhs = match self.comparison() {
                Ok(e) => e,
                Err(pe) => {
                    proof {
                        lemma_unfold_p_equality_rest(toks, hp, acc0);
                        assert(p_equality_rest(toks, hp, acc0) == PRes::Failed::<ExprV>(pe@));
                    }
                    return Err(pe);
                },
            };
            let op = BinaryOperator::from_tokentype(kind);
            expr = Expression::Binary(op, Box::new(expr), Box::new(rhs));
            proof {
                lemma_unfold_p_equality_rest(toks, hp, acc0);
                assert(p_equality_rest(toks, hp, acc0) == match p_equality_rest(toks, self.pos(), expr@) {
                    PRes::Parsed(e2, u) => PRes::Parsed(
                        e2,
                        ((self.pos() - hp) as nat + u) as nat,
                    ),
                    PRes::Failed(m) => PRes::Failed::<ExprV>(m),
                });
            }
        }
        proof {
            lemma_unfold_p_equality_rest(toks, self.pos(), expr@);
            assert(p_equality_rest(toks, self.pos(), expr@) == PRes::Parsed(expr@, 0));
        }
        Ok(expr)
    }

    #[verifier::rlimit(100)]
    #[verifier::spinoff_prover]
    pub fn comparison(&mut self) -> (r: Result<Expression, ParseError>)
        requires
            old(self).wf(),
        ensures
            final(self).wf(),
            final(self).toks() == old(self).toks(),
            old(self).pos() <= final(self).pos(),
            r is Ok ==> old(self).pos() < final(self).pos(),
            match r {
                Ok(e) => p_comparison(old(self).toks(), old(self).pos()) == PRes::Parsed(
                    e@,
                    (final(self).pos() - old(self).pos()) as nat,
                ),
                Err(pe) => p_comparison(old(self).toks(), old(self).pos())
                    == PRes::Failed::<ExprV>(pe@),
            },
        decreases old(self).toks().len() - old(self).pos(), 5nat,
    {
        let ghost toks = self.toks();
        let ghost pos0 = self.pos();
        let mut expr = match self.term() {
            Ok(e) => e,
            Err(pe) => {
                proof {
                    lemma_unfold_p_comparison(toks, pos0);
                    assert(p_comparison(toks, pos0) == PRes::Failed::<ExprV>(pe@));
                }
                return Err(pe);
            },
        };
        proof {
            lemma_unfold_p_comparison(toks, pos0);
            assert(p_comparison(toks, pos0) == match p_comparison_rest(toks, self.pos(), expr@) {
                PRes::Parsed(e2, u) => PRes::Parsed(e2, ((self.pos() - pos0) as nat + u) as nat),
                PRes::Failed(m) => PRes::Failed::<ExprV>(m),
            });
        }
        while self.check(TokenType::Greater) || self.check(TokenType::GreaterEqual) || self.check(TokenType::Less) || self.check(TokenType::LessEqual)
            invariant
                self.wf(),
                toks == old(self).toks(),
                pos0 == old(self).pos(),
                self.toks() == toks,
                pos0 <= self.pos(),
                match p_comparison_rest(toks, self.pos(), expr@) {
                    PRes::Parsed(e2, u) => p_comparison(toks, pos0) == PRes::Parsed(
                        e2,
                        (self.pos() - pos0 + u) as nat,
                    ),
                    PRes::Failed(m) => p_comparison(toks, pos0) == PRes::Failed::<ExprV>(m),
                },
            decreases toks.len() - self.pos(),
        {
            let ghost hp = self.pos();
            let ghost acc0 = expr@;
            let kind = self.peek().kind;
            self.advance();
            let rhs = match self.term() {
                Ok(e) => e,
                Err(pe) => {
                    proof {
                        lemma_unfold_p_comparison_rest(toks, hp, acc0);
                        assert(p_comparison_rest(toks, hp, acc0) == PRes::Failed::<ExprV>(pe@));
                    }
                    return Err(pe);
                },
            };
            let op = BinaryOperator::from_tokentype(kind);
            expr = Expression::Binary(op, Box::new(expr), Box::new(rhs));
            proof {
                lemma_unfold_p_comparison_rest(toks, hp, acc0);
                assert(p_comparison_rest(toks, hp, acc0) == match p_comparison_rest(toks, self.pos(), expr@) {
                    PRes::Parsed(e2, u) => PRes::Parsed(
                        e2,
                        ((self.pos() - hp) as nat + u) as nat,
                    ),
                    PRes::Failed(m) => PRes::Failed::<ExprV>(m),
                });
            }
        }
        proof {
            lemma_unfold_p_comparison_rest(toks, self.pos(), expr@);
            assert(p_comparison_rest(toks, self.pos(), expr@) == PRes::Parsed(expr@, 0));
        }
        Ok(expr)
    }

    #[verifier::rlimit(100)]
    #[verifier::spinoff_prover]
    pub fn term(&mut self) -> (r: Result<Expression, ParseError>)
        requires
            old(self).wf(),
        ensures
            final(self).wf(),
            final(self).toks() == old(self).toks(),
            old(self).pos() <= final(self).pos(),
            r is Ok ==> old(self).pos() < final(self).pos(),
            match r {
                Ok(e) => p_term(old(self).toks(), old(self).pos()) == PRes::Parsed(
                    e@,
                    (final(self).pos() - old(self).pos()) as nat,
                ),
                Err(pe) => p_term(old(self).toks(), old(self).pos())
                    == PRes::Failed::<ExprV>(pe@),
            },
        decreases old(self).toks().len() - old(self).pos(), 4nat,
    {
        let ghost toks = self.toks();
        let ghost pos0 = self.pos();
        let mut expr = match self.factor() {
            Ok(e) => e,
            Err(pe) => {
                proof {
                    lemma_unfold_p_term(toks, pos0);
                    assert(p_term(toks, pos0) == PRes::Failed::<ExprV>(pe@));
                }
                return Err(pe);
            },
        };
        proof {
            lemma_unfold_p_term(toks, pos0);
            assert(p_term(toks, pos0) == match p_term_rest(toks, self.pos(), expr@) {
                PRes::Parsed(e2, u) => PRes::Parsed(e2, ((self.pos() - pos0) as nat + u) as nat),
                PRes::Failed(m) => PRes::Failed::<ExprV>(m),
            });
        }
        while self.check(TokenType::Minus) || self.check(TokenType::Plus)
            invariant
                self.wf(),
                toks == old(self).toks(),
                pos0 == old(self).pos(),
                self.toks() == toks,
                pos0 <= self.pos(),
                match p_term_rest(toks, self.pos(), expr@) {
                    PRes::Parsed(e2, u) => p_term(toks, pos0) == PRes::Parsed(
                        e2,
                        (self.pos() - pos0 + u) as nat,
                    ),
                    PRes::Failed(m) => p_term(toks, pos0) == PRes::Failed::<ExprV>(m),
                },
            decreases toks.len() - self.pos(),
        {
            let ghost hp = self.pos();
            let ghost acc0 = expr@;
            let kind = self.peek().kind;
            self.advance();
            let rhs = match self.factor() {
                Ok(e) => e,
                Err(pe) => {
                    proof {
                        lemma_unfold_p_term_rest(toks, hp, acc0);
                        assert(p_term_rest(toks, hp, acc0) == PRes::Failed::<ExprV>(pe@));
                    }
                    return Err(pe);
                },
            };
            let op = BinaryOperator::from_tokentype(kind);
            expr = Expression::Binary(op, Box::new(expr), Box::new(rhs));
            proof {
                lemma_unfold_p_term_rest(toks, hp, acc0);
                assert(p_term_rest(toks, hp, acc0) == match p_term_rest(toks, self.pos(), expr@) {
                    PRes::Parsed(e2, u) => PRes::Parsed(
                        e2,
                        ((self.pos() - hp) as nat + u) as nat,
                    ),
                    PRes::Failed(m) => PRes::Failed::<ExprV>(m),
                });
            }
        }
        proof {
            lemma_unfold_p_term_rest(toks, self.pos(), expr@);
            assert(p_term_rest(toks, self.pos(), expr@) == PRes::Parsed(expr@, 0));
        }
        Ok(expr)
    }

    #[verifier::rlimit(100)]
    #[verifier::spinoff_prover]
    pub fn factor(&mut self) -> (r: Result<Expression, ParseError>)
        requires
            old(self).wf(),
        ensures
            final(self).wf(),
            final(self).toks() == old(self).toks(),
            old(self).pos() <= final(self).pos(),
            r is Ok ==> old(self).pos() < final(self).pos(),
            match r {
                Ok(e) => p_factor(old(self).toks(), old(self).pos()) == PRes::Parsed(
                    e@,
                    (final(self).pos() - old(self).pos()) as nat,
                ),
                Err(pe) => p_factor(old(self).toks(), old(self).pos())
                    == PRes::Failed::<ExprV>(pe@),
            },
        decreases old(self).toks().len() - old(self).pos(), 3nat,
    {
        let ghost toks = self.toks();
        let ghost pos0 = self.pos();
        let mut expr = match self.unary() {
            Ok(e) => e,
            Err(pe) => {
                proof {
                    lemma_unfold_p_factor(toks, pos0);
                    assert(p_factor(toks, pos0) == PRes::Failed::<ExprV>(pe@));
                }
                return Err(pe);
            },
        };
        proof {
            lemma_unfold_p_factor(toks, pos0);
            assert(p_factor(toks, pos0) == match p_factor_rest(toks, self.pos(), expr@) {
                PRes::Parsed(e2, u) => PRes::Parsed(e2, ((self.pos() - pos0) as nat + u) as nat),
                PRes::Failed(m) => PRes::Failed::<ExprV>(m),
            });
        }
        while self.check(TokenType::Slash) || self.check(TokenType::Star)
            invariant
                self.wf(),
                toks == old(self).toks(),
                pos0 == old(self).pos(),
                self.toks() == toks,
                pos0 <= self.pos(),
                match p_factor_rest(toks, self.pos(), expr@) {
                    PRes::Parsed(e2, u) => p_factor(toks, pos0) == PRes::Parsed(
                        e2,
                        (self.pos() - pos0 + u) as nat,
                    ),
                    PRes::Failed(m) => p_factor(toks, pos0) == PRes::Failed::<ExprV>(m),
                },
            decreases toks.len() - self.pos(),
        {
            let ghost hp = self.pos();
            let ghost acc0 = expr@;
            let kind = self.peek().kind;
            self.advance();
            let rhs = match self.unary() {
                Ok(e) => e,
                Err(pe) => {
                    proof {
                        lemma_unfold_p_factor_rest(toks, hp, acc0);
                        assert(p_factor_rest(toks, hp, acc0) == PRes::Failed::<ExprV>(pe@));
                    }
                    return Err(pe);
                },
            };
            let op = BinaryOperator::from_tokentype(kind);
            expr = Expression::Binary(op, Box::new(expr), Box::new(rhs));
            proof {
                lemma_unfold_p_factor_rest(toks, hp, acc0);
                assert(p_factor_rest(toks, hp, acc0) == match p_factor_rest(toks, self.pos(), expr@) {
                    PRes::Parsed(e2, u) => PRes::Parsed(
                        e2,
                        ((self.pos() - hp) as nat + u) as nat,
                    ),
                    PRes::Failed(m) => PRes::Failed::<ExprV>(m),
                });
            }
        }
        proof {
            lemma_unfold_p_factor_rest(toks, self.pos(), expr@);
            assert(p_factor_rest(toks, self.pos(), expr@) == PRes::Parsed(expr@, 0));
        }
        Ok(expr)
    }

    pub fn unary(&mut self) -> (r: Result<Expression, ParseError>)
        requires
            old(self).wf(),
        ensures
            final(self).wf(),
            final(self).toks() == old(self).toks(),
            old(self).pos() <= final(self).pos(),
            r is Ok ==> old(self).pos() < final(self).pos(),
            match r {
                Ok(e) => p_unary(old(self).toks(), old(self).pos()) == PRes::Parsed(
                    e@,
                    (final(self).pos() - old(self).pos()) as nat,
                ),
                Err(pe) => p_unary(old(self).toks(), old(self).pos())
                    == PRes::Failed::<ExprV>(pe@),
            },
        decreases old(self).toks().len() - old(self).pos(), 1nat,
    {
        let ghost toks = self.toks();
        let ghost pos0 = self.pos();
        if self.check(TokenType::Bang) || self.check(TokenType::Minus) {
            let kind = self.peek().kind;
            self.advance();
            let rhs = match self.unary() {
                Ok(e) => e,
                Err(pe) => {
                    proof {
                        lemma_unfold_p_unary(toks, pos0);
                        assert(p_unary(toks, pos0) == PRes::Failed::<ExprV>(pe@));
                    }
                    return Err(pe);
                },
            };
            let op = UnaryOperator::from_tokentype(kind);
            let e = Expression::Unary(op, Box::new(rhs));
            proof {
                lemma_unfold_p_unary(toks, pos0);
                assert(p_unary(toks, pos0) == PRes::Parsed(e@, (self.pos() - pos0) as nat));
            }
            Ok(e)
        } else {
            let r = self.primary();
            proof {
                lemma_unfold_p_unary(toks, pos0);
                assert(p_unary(toks, pos0) == p_primary(toks, pos0));
            }
            r
        }
    }

    #[verifier::rlimit(100)]
    #[verifier::spinoff_prover]
    pub fn primary(&mut self) -> (r: Result<Expression, ParseError>)
        requires
            old(self).wf(),
        ensures
            final(self).wf(),
            final(self).toks() == old(self).toks(),
            old(self).pos() <= final(self).pos(),
            r is Ok ==> old(self).pos() < final(self).pos(),
            match r {
                Ok(e) => p_primary(old(self).toks(), old(self).pos()) == PRes::Parsed(
                    e@,
                    (final(self).pos() - old(self).pos()) as nat,
                ),
                Err(pe) => p_primary(old(self).toks(), old(self).pos())
                    == PRes::Failed::<ExprV>(pe@),
            },
        decreases old(self).toks().len() - old(self).pos(), 0nat,
    {
        let ghost toks = self.toks();
        let ghost pos0 = self.pos();
        if self.check(TokenType::Boolean) {
            let t = self.advance();
            let tr = "true".to_owned();
            let e = Expression::Boolean(t.lexeme == tr);
            proof {
                lemma_unfold_p_primary(toks, pos0);
                assert(p_primary(toks, pos0) == PRes::Parsed(e@, 1));
            }
            Ok(e)
        } else if self.check(TokenType::Number) {
            let t = self.advance();
            let n = parse_number(&t.lexeme);
            let e = Expression::Number(n);
            proof {
                lemma_unfold_p_primary(toks, pos0);
                assert(p_primary(toks, pos0) == PRes::Parsed(e@, 1));
            }
            Ok(e)
        } else if self.check(TokenType::Text) {
            let t = self.advance();
            let e = Expression::Text(t.lexeme);
            proof {
                lemma_unfold_p_primary(toks, pos0);
                assert(p_primary(toks, pos0) == PRes::Parsed(e@, 1));
            }
            Ok(e)
        } else if self.check(TokenType::Identifier) {
            let t = self.advance();
            let e = Expression::Variable(t.lexeme);
            proof {
                lemma_unfold_p_primary(toks, pos0);
                assert(p_primary(toks, pos0) == PRes::Parsed(e@, 1));
            }
            Ok(e)
        } else if self.match_token(TokenType::LeftParen) {
            let e = match self.expression() {
                Ok(e) => e,
                Err(pe) => {
                    proof {
                        lemma_unfold_p_primary(toks, pos0);
                        assert(p_primary(toks, pos0) == PRes::Failed::<ExprV>(pe@));
                    }
                    return Err(pe);
                },
            };
            match self.consume(TokenType::RightParen, "Expected ')' after expression") {
                Ok(_) => {
                    proof {
                        lemma_unfold_p_primary(toks, pos0);
                        assert(p_primary(toks, pos0) == PRes::Parsed(
                            e@,
                            (self.pos() - pos0) as nat,
                        ));
                    }
                    Ok(e)
                },
                Err(pe) => {
                    proof {
                        lemma_unfold_p_primary(toks, pos0);
                        assert(p_primary(toks, pos0) == PRes::Failed::<ExprV>(pe@));
                    }
                    Err(pe)
                },
            }
        } else {
            let pe = ParseError { message: "Expected expression".to_owned() };
            proof {
                lemma_unfold_p_primary(toks, pos0);
                assert(p_primary(toks, pos0) == PRes::Failed::<ExprV>(pe@));
            }
            Err(pe)
        }
    }
}

proof fn lemma_unfold_p_or(toks: Seq<TokenV>, pos: nat)
    ensures
        p_or(toks, pos) == (match p_and(toks, pos) {
            PRes::Parsed(e, n) => match p_or_rest(toks, pos + n, e) {
                PRes::Parsed(e2, u) => PRes::Parsed(e2, n + u),
                PRes::Failed(m) => PRes::Failed(m),
            },
            PRes::Failed(m) => PRes::Failed(m),
        }),
{
    reveal(p_or);
    reveal(p_and);
    reveal(p_or_rest);
    match p_and(toks, pos) {
        PRes::Parsed(e, n) => {
            match p_or_rest(toks, pos + n, e) {
                PRes::Parsed(e2, u) => {
                    assert(p_or(toks, pos) == PRes::Parsed(e2, n + u));
                },
                PRes::Failed(m) => {
                    assert(p_or(toks, pos) == PRes::Failed::<ExprV>(m));
                },
            }
        },
        PRes::Failed(m) => {
            assert(p_or(toks, pos) == PRes::Failed::<ExprV>(m));
        },
    }
}

proof fn lemma_unfold_p_or_rest(toks: Seq<TokenV>, p: nat, acc: ExprV)
    ensures
        p_or_rest(toks, p, acc) == ({
            let k = tk(toks, p);
            if k == TokenType::Or {
                match p_and(toks, p + 1) {
                    PRes::Parsed(rhs, n) => {
                        let acc2 = ExprV::Logical(logical_op_of_token(k), Box::new(acc), Box::new(rhs));
                        match p_or_rest(toks, p + 1 + n, acc2) {
                            PRes::Parsed(e, u) => PRes::Parsed(e, 1 + n + u),
                            PRes::Failed(m) => PRes::Failed(m),
                        }
                    },
                    PRes::Failed(m) => PRes::Failed(m),
                }
            } else {
                PRes::Parsed(acc, 0)
            }
        }),
{
    reveal(p_or_rest);
    reveal(p_and);
    assert(p_or_rest(toks, p, acc) == ({
        let k = tk(toks, p);
        if k == TokenType::Or {
            match p_and(toks, p + 1) {
                PRes::Parsed(rhs, n) => {
                    let acc2 = ExprV::Logical(logical_op_of_token(k), Box::new(acc), Box::new(rhs));
                    match p_or_rest(toks, p + 1 + n, acc2) {
                        PRes::Parsed(e, u) => PRes::Parsed(e, 1 + n + u),
                        PRes::Failed(m) => PRes::Failed(m),
                    }
                },
                PRes::Failed(m) => PRes::Failed(m),
            }
        } else {
            PRes::Parsed(acc, 0)
        }
    }));
}

proof fn lemma_unfold_p_and(toks: Seq<TokenV>, pos: nat)
    ensures
        p_and(toks, pos) == (match p_equality(toks, pos) {
            PRes::Parsed(e, n) => match p_and_rest(toks, pos + n, e) {
                PRes::Parsed(e2, u) => PRes::Parsed(e2, n + u),
                PRes::Failed(m) => PRes::Failed(m),
            },
            PRes::Failed(m) => PRes::Failed(m),
        }),
{
    reveal(p_and);
    reveal(p_equality);
    reveal(p_and_rest);
    assert(p_and(toks, pos) == (match p_equality(toks, pos) {
        PRes::Parsed(e, n) => match p_and_rest(toks, pos + n, e) {
            PRes::Parsed(e2, u) => PRes::Parsed(e2, n + u),
            PRes::Failed(m) => PRes::Failed(m),
        },
        PRes::Failed(m) => PRes::Failed(m),
    }));
}

proof fn lemma_unfold_p_and_rest(toks: Seq<TokenV>, p: nat, acc: ExprV)
    ensures
        p_and_rest(toks, p, acc) == ({
            let k = tk(toks, p);
            if k == TokenType::And {
                match p_equality(toks, p + 1) {
                    PRes::Parsed(rhs, n) => {
                        let acc2 = ExprV::Logical(logical_op_of_token(k), Box::new(acc), Box::new(rhs));
                        match p_and_rest(toks, p + 1 + n, acc2) {
                            PRes::Parsed(e, u) => PRes::Parsed(e, 1 + n + u),
                            PRes::Failed(m) => PRes::Failed(m),
                        }
                    },
                    PRes::Failed(m) => PRes::Failed(m),
                }
            } else {
                PRes::Parsed(acc, 0)
            }
        }),
{
    reveal(p_and_rest);
    reveal(p_equality);
    assert(p_and_rest(toks, p, acc) == ({
        let k = tk(toks, p);
        if k == TokenType::And {
            match p_equality(toks, p + 1) {
                PRes::Parsed(rhs, n) => {
                    let acc2 = ExprV::Logical(logical_op_of_token(k), Box::new(acc), Box::new(rhs));
                    match p_and_rest(toks, p + 1 + n, acc2) {
                        PRes::Parsed(e, u) => PRes::Parsed(e, 1 + n + u),
                        PRes::Failed(m) => PRes::Failed(m),
                    }
                },
                PRes::Failed(m) => PRes::Failed(m),
            }
        } else {
            PRes::Parsed(acc, 0)
        }
    }));
}

proof fn lemma_unfold_p_equality(toks: Seq<TokenV>, pos: nat)
    ensures
        p_equality(toks, pos) == (match p_comparison(toks, pos) {
            PRes::Parsed(e, n) => match p_equality_rest(toks, pos + n, e) {
                PRes::Parsed(e2, u) => PRes::Parsed(e2, n + u),
                PRes::Failed(m) => PRes::Failed(m),
            },
            PRes::Failed(m) => PRes::Failed(m),
        }),
{
    reveal(p_equality);
    reveal(p_comparison);
    reveal(p_equality_rest);
    assert(p_equality(toks, pos) == (match p_comparison(toks, pos) {
        PRes::Parsed(e, n) => match p_equality_rest(toks, pos + n, e) {
            PRes::Parsed(e2, u) => PRes::Parsed(e2, n + u),
            PRes::Failed(m) => PRes::Failed(m),
        },
        PRes::Failed(m) => PRes::Failed(m),
    }));
}

proof fn lemma_unfold_p_equality_rest(toks: Seq<TokenV>, p: nat, acc: ExprV)
    ensures
        p_equality_rest(toks, p, acc) == ({
            let k = tk(toks, p);
            if k == TokenType::EqualEqual || k == TokenType::BangEqual {
                match p_comparison(toks, p + 1) {
                    PRes::Parsed(rhs, n) => {
                        let acc2 = ExprV::Binary(binary_op_of_token(k), Box::new(acc), Box::new(rhs));
                        match p_equality_rest(toks, p + 1 + n, acc2) {
                            PRes::Parsed(e, u) => PRes::Parsed(e, 1 + n + u),
                            PRes::Failed(m) => PRes::Failed(m),
                        }
                    },
                    PRes::Failed(m) => PRes::Failed(m),
                }
            } else {
                PRes::Parsed(acc, 0)
            }
        }),
{
    reveal(p_equality_rest);
    reveal(p_comparison);
    assert(p_equality_rest(toks, p, acc) == ({
        let k = tk(toks, p);
        if k == TokenType::EqualEqual || k == TokenType::BangEqual {
            match p_comparison(toks, p + 1) {
                PRes::Parsed(rhs, n) => {
                    let acc2 = ExprV::Binary(binary_op_of_token(k), Box::new(acc), Box::new(rhs));
                    match p_equality_rest(toks, p + 1 + n, acc2) {
                        PRes::Parsed(e, u) => PRes::Parsed(e, 1 + n + u),
                        PRes::Failed(m) => PRes::Failed(m),
                    }
                },
                PRes::Failed(m) => PRes::Failed(m),
            }
        } else {
            PRes::Parsed(acc, 0)
        }
    }));
}

proof fn lemma_unfold_p_comparison(toks: Seq<TokenV>, pos: nat)
    ensures
        p_comparison(toks, pos) == (match p_term(toks, pos) {
            PRes::Parsed(e, n) => match p_comparison_rest(toks, pos + n, e) {
                PRes::Parsed(e2, u) => PRes::Parsed(e2, n + u),
                PRes::Failed(m) => PRes::Failed(m),
            },
            PRes::Failed(m) => PRes::Failed(m),
        }),
{
    reveal(p_comparison);
    reveal(p_term);
    reveal(p_comparison_rest);
    assert(p_comparison(toks, pos) == (match p_term(toks, pos) {
        PRes::Parsed(e, n) => match p_comparison_rest(toks, pos + n, e) {
            PRes::Parsed(e2, u) => PRes::Parsed(e2, n + u),
            PRes::Failed(m) => PRes::Failed(m),
        },
        PRes::Failed(m) => PRes::Failed(m),
    }));
}

proof fn lemma_unfold_p_comparison_rest(toks: Seq<TokenV>, p: nat, acc: ExprV)
    ensures
        p_comparison_rest(toks, p, acc) == ({
            let k = tk(toks, p);
            if k == TokenType::Greater || k == TokenType::GreaterEqual || k == TokenType::Less || k == TokenType::LessEqual {
                match p_term(toks, p + 1) {
                    PRes::Parsed(rhs, n) => {
                        let acc2 = ExprV::Binary(binary_op_of_token(k), Box::new(acc), Box::new(rhs));
                        match p_comparison_rest(toks, p + 1 + n, acc2) {
                            PRes::Parsed(e, u) => PRes::Parsed(e, 1 + n + u),
                            PRes::Failed(m) => PRes::Failed(m),
                        }
                    },
                    PRes::Failed(m) => PRes::Failed(m),
                }
            } else {
                PRes::Parsed(acc, 0)
            }
        }),
{
    reveal(p_comparison_rest);
    reveal(p_term);
    assert(p_comparison_rest(toks, p, acc) == ({
        let k = tk(toks, p);
        if k == TokenType::Greater || k == TokenType::GreaterEqual || k == TokenType::Less || k == TokenType::LessEqual {
            match p_term(toks, p + 1) {
                PRes::Parsed(rhs, n) => {
                    let acc2 = ExprV::Binary(binary_op_of_token(k), Box::new(acc), Box::new(rhs));
                    match p_comparison_rest(toks, p + 1 + n, acc2) {
                        PRes::Parsed(e, u) => PRes::Parsed(e, 1 + n + u),
                        PRes::Failed(m) => PRes::Failed(m),
                    }
                },
                PRes::Failed(m) => PRes::Failed(m),
            }
        } else {
            PRes::Parsed(acc, 0)
        }
    }));
}

proof fn lemma_unfold_p_term(toks: Seq<TokenV>, pos: nat)
    ensures
        p_term(toks, pos) == (match p_factor(toks, pos) {
            PRes::Parsed(e, n) => match p_term_rest(toks, pos + n, e) {
                PRes::Parsed(e2, u) => PRes::Parsed(e2, n + u),
                PRes::Failed(m) => PRes::Failed(m),
            },
            PRes::Failed(m) => PRes::Failed(m),
        }),
{
    reveal(p_term);
    reveal(p_factor);
    reveal(p_term_rest);
    assert(p_term(toks, pos) == (match p_factor(toks, pos) {
        PRes::Parsed(e, n) => match p_term_rest(toks, pos + n, e) {
            PRes::Parsed(e2, u) => PRes::Parsed(e2, n + u),
            PRes::Failed(m) => PRes::Failed(m),
        },
        PRes::Failed(m) => PRes::Failed(m),
    }));
}

proof fn lemma_unfold_p_term_rest(toks: Seq<TokenV>, p: nat, acc: ExprV)
    ensures
        p_term_rest(toks, p, acc) == ({
            let k = tk(toks, p);
            if k == TokenType::Minus || k == TokenType::Plus {
                match p_factor(toks, p + 1) {
                    PRes::Parsed(rhs, n) => {
                        let acc2 = ExprV::Binary(binary_op_of_token(k), Box::new(acc), Box::new(rhs));
                        match p_term_rest(toks, p + 1 + n, acc2) {
                            PRes::Parsed(e, u) => PRes::Parsed(e, 1 + n + u),
                            PRes::Failed(m) => PRes::Failed(m),
                        }
                    },
                    PRes::Failed(m) => PRes::Failed(m),
                }
            } else {
                PRes::Parsed(acc, 0)
            }
        }),
{
    reveal(p_term_rest);
    reveal(p_factor);
    assert(p_term_rest(toks, p, acc) == ({
        let k = tk(toks, p);
        if k == TokenType::Minus || k == TokenType::Plus {
            match p_factor(toks, p + 1) {
                PRes::Parsed(rhs, n) => {
                    let acc2 = ExprV::Binary(binary_op_of_token(k), Box::new(acc), Box::new(rhs));
                    match p_term_rest(toks, p + 1 + n, acc2) {
                        PRes::Parsed(e, u) => PRes::Parsed(e, 1 + n + u),
                        PRes::Failed(m) => PRes::Failed(m),
                    }
                },
                PRes::Failed(m) => PRes::Failed(m),
            }
        } else {
            PRes::Parsed(acc, 0)
        }
    }));
}

proof fn lemma_unfold_p_factor(toks: Seq<TokenV>, pos: nat)
    ensures
        p_factor(toks, pos) == (match p_unary(toks, pos) {
            PRes::Parsed(e, n) => match p_factor_rest(toks, pos + n, e) {
                PRes::Parsed(e2, u) => PRes::Parsed(e2, n + u),
                PRes::Failed(m) => PRes::Failed(m),
            },
            PRes::Failed(m) => PRes::Failed(m),
        }),
{
    reveal(p_factor);
    reveal(p_unary);
    reveal(p_factor_rest);
    assert(p_factor(toks, pos) == (match p_unary(toks, pos) {
        PRes::Parsed(e, n) => match p_factor_rest(toks, pos + n, e) {
            PRes::Parsed(e2, u) => PRes::Parsed(e2, n + u),
            PRes::Failed(m) => PRes::Failed(m),
        },
        PRes::Failed(m) => PRes::Failed(m),
    }));
}

proof fn lemma_unfold_p_factor_rest(toks: Seq<TokenV>, p: nat, acc: ExprV)
    ensures
        p_factor_rest(toks, p, acc) == ({
            let k = tk(toks, p);
            if k == TokenType::Slash || k == TokenType::Star {
                match p_unary(toks, p + 1) {
                    PRes::Parsed(rhs, n) => {
                        let acc2 = ExprV::Binary(binary_op_of_token(k), Box::new(acc), Box::new(rhs));
                        match p_factor_rest(toks, p + 1 + n, acc2) {
                            PRes::Parsed(e, u) => PRes::Parsed(e, 1 + n + u),
                            PRes::Failed(m) => PRes::Failed(m),
                        }
                    },
                    PRes::Failed(m) => PRes::Failed(m),
                }
            } else {
                PRes::Parsed(acc, 0)
            }
        }),
{
    reveal(p_factor_rest);
    reveal(p_unary);
    assert(p_factor_rest(toks, p, acc) == ({
        let k = tk(toks, p);
        if k == TokenType::Slash || k == TokenType::Star {
            match p_unary(toks, p + 1) {
                PRes::Parsed(rhs, n) => {
                    let acc2 = ExprV::Binary(binary_op_of_token(k), Box::new(acc), Box::new(rhs));
                    match p_factor_rest(toks, p + 1 + n, acc2) {
                        PRes::Parsed(e, u) => PRes::Parsed(e, 1 + n + u),
                        PRes::Failed(m) => PRes::Failed(m),
                    }
                },
                PRes::Failed(m) => PRes::Failed(m),
            }
        } else {
            PRes::Parsed(acc, 0)
        }
    }));
}

proof fn lemma_unfold_p_expression(toks: Seq<TokenV>, pos: nat)
    ensures
        p_expression(toks, pos) == p_or(toks, pos),
{
    reveal(p_expression);
    reveal(p_or);
    assert(p_expression(toks, pos) == p_or(toks, pos));
}

proof fn lemma_unfold_p_unary(toks: Seq<TokenV>, pos: nat)
    ensures
        p_unary(toks, pos) == ({
            let k = tk(toks, pos);
            if k == TokenType::Bang || k == TokenType::Minus {
                match p_unary(toks, pos + 1) {
                    PRes::Parsed(e, n) => PRes::Parsed(
                        ExprV::Unary(unary_op_of_token(k), Box::new(e)),
                        1 + n,
                    ),
                    PRes::Failed(m) => PRes::Failed(m),
                }
            } else {
                p_primary(toks, pos)
            }
        }),
{
    reveal(p_unary);
    reveal(p_primary);
    assert(p_unary(toks, pos) == ({
        let k = tk(toks, pos);
        if k == TokenType::Bang || k == TokenType::Minus {
            match p_unary(toks, pos + 1) {
                PRes::Parsed(e, n) => PRes::Parsed(
                    ExprV::Unary(unary_op_of_token(k), Box::new(e)),
                    1 + n,
                ),
                PRes::Failed(m) => PRes::Failed(m),
            }
        } else {
            p_primary(toks, pos)
        }
    }));
}

proof fn lemma_unfold_p_primary(toks: Seq<TokenV>, pos: nat)
    ensures
        p_primary(toks, pos) == ({
            let k = tk(toks, pos);
            if k == TokenType::Boolean {
                PRes::Parsed(ExprV::Boolean(lx(toks, pos) == "true"@), 1)
            } else if k == TokenType::Number {
                PRes::Parsed(ExprV::Number(sat_num(lx(toks, pos))), 1)
            } else if k == TokenType::Text {
                PRes::Parsed(ExprV::Text(lx(toks, pos)), 1)
            } else if k == TokenType::Identifier {
                PRes::Parsed(ExprV::Variable(lx(toks, pos)), 1)
            } else if k == TokenType::LeftParen {
                match p_expression(toks, pos + 1) {
                    PRes::Parsed(e, n) => if tk(toks, pos + 1 + n) == TokenType::RightParen {
                        PRes::Parsed(e, n + 2)
                    } else {
                        PRes::Failed("Expected ')' after expression"@)
                    },
                    PRes::Failed(m) => PRes::Failed(m),
                }
            } else {
                PRes::Failed("Expected expression"@)
            }
        }),
{
    reveal(p_primary);
    reveal(p_expression);
    assert(p_primary(toks, pos) == ({
        let k = tk(toks, pos);
        if k == TokenType::Boolean {
            PRes::Parsed(ExprV::Boolean(lx(toks, pos) == "true"@), 1)
        } else if k == TokenType::Number {
            PRes::Parsed(ExprV::Number(sat_num(lx(toks, pos))), 1)
        } else if k == TokenType::Text {
            PRes::Parsed(ExprV::Text(lx(toks, pos)), 1)
        } else if k == TokenType::Identifier {
            PRes::Parsed(ExprV::Variable(lx(toks, pos)), 1)
        } else if k == TokenType::LeftParen {
            match p_expression(toks, pos + 1) {
                PRes::Parsed(e, n) => if tk(toks, pos + 1 + n) == TokenType::RightParen {
                    PRes::Parsed(e, n + 2)
                } else {
                    PRes::Failed("Expected ')' after expression"@)
                },
                PRes::Failed(m) => PRes::Failed(m),
            }
        } else {
            PRes::Failed("Expected expression"@)
        }
    }));
}

/// A whole program: declarations up to the end of input.
#[verifier::opaque]
pub open spec fn p_program(toks: Seq<TokenV>, pos: nat) -> PRes<Seq<DeclV>>
    decreases rem(toks, pos), 24nat,
{
    (if tk(toks, pos) == TokenType::Eof {
            PRes::Parsed(Seq::<DeclV>::empty(), 0)
        } else {
            match p_declaration(toks, pos) {
                PRes::Failed(m) => PRes::Failed(m),
                PRes::Parsed(d, n) => {
                    if n == 0 {
                        // never reached: a declaration consumes at least one token
                        PRes::Failed("Expected expression"@)
                    } else {
                        match p_program(toks, pos + n) {
                            PRes::Failed(m) => PRes::Failed(m),
                            PRes::Parsed(ds, u) => PRes::Parsed(seq![d] + ds, n + u),
                        }
                    }
                },
            }
        })
}

/// Declarations up to (not including) `end`, the end of input, or, when
/// asked, `else`.
#[verifier::opaque]
pub open spec fn p_decls_until(toks: Seq<TokenV>, pos: nat, stop_else: bool) -> PRes<Seq<DeclV>>
    decreases rem(toks, pos), 22nat,
{
    ({
            let k = tk(toks, pos);
            if k == TokenType::End || k == TokenType::Eof || (stop_else && k == TokenType::Else) {
                PRes::Parsed(Seq::<DeclV>::empty(), 0)
            } else {
                match p_declaration(toks, pos) {
                    PRes::Failed(m) => PRes::Failed(m),
                    PRes::Parsed(d, n) => {
                        if n == 0 {
                            // never reached: a declaration consumes at least one token
                            PRes::Failed("Expected 'end' after block"@)
                        } else {
                            match p_decls_until(toks, pos + n, stop_else) {
                                PRes::Failed(m) => PRes::Failed(m),
                                PRes::Parsed(ds, u) => PRes::Parsed(seq![d] + ds, n + u),
                            }
                        }
                    },
                }
            }
        })
}

/// A block: declarations up to and including `end`.
#[verifier::opaque]
pub open spec fn p_block(toks: Seq<TokenV>, pos: nat) -> PRes<Seq<DeclV>>
    decreases rem(toks, pos), 23nat,
{
    (match p_decls_until(toks, pos, false) {
            PRes::Failed(m) => PRes::Failed(m),
            PRes::Parsed(ds, n) => if tk(toks, pos + n) == TokenType::End {
                PRes::Parsed(ds, n + 1)
            } else {
                PRes::Failed("Expected 'end' after block"@)
            },
        })
}

/// What a declaration parses to: a `let` binding or a statement.
#[verifier::opaque]
pub open spec fn p_declaration(toks: Seq<TokenV>, pos: nat) -> PRes<DeclV>
    decreases rem(toks, pos), 20nat,
{
    (if tk(toks, pos) == TokenType::Let {
            match p_variable_declaration(toks, pos + 1) {
                PRes::Parsed(d, n) => PRes::Parsed(d, 1 + n),
                PRes::Failed(m) => PRes::Failed(m),
            }
        } else {
            match p_statement(toks, pos) {
                PRes::Parsed(st, n) => PRes::Parsed(DeclV::Statement(st), n),
                PRes::Failed(m) => PRes::Failed(m),
            }
        })
}

/// What follows `let`: a name, `=`, and the initializer.
#[verifier::opaque]
pub open spec fn p_variable_declaration(toks: Seq<TokenV>, pos: nat) -> PRes<DeclV>
    decreases rem(toks, pos), 19nat,
{
    (if tk(toks, pos) != TokenType::Identifier {
            PRes::Failed("Expected variable name"@)
        } else if tk(toks, pos + 1) != TokenType::Equal {
            PRes::Failed("Expected '=' after variable name"@)
        } else {
            match p_expression(toks, pos + 2) {
                PRes::Parsed(e, n) => PRes::Parsed(DeclV::Variable(lx(toks, pos), e), 2 + n),
                PRes::Failed(m) => PRes::Failed(m),
            }
        })
}

/// What a statement parses to, dispatched on its leading token: print,
/// conditional, while-loop, range-loop, procedure declaration, procedure
/// call, or a bare expression.
#[verifier::opaque]
pub open spec fn p_statement(toks: Seq<TokenV>, pos: nat) -> PRes<StmtV>
    decreases rem(toks, pos), 19nat,
{
    ({
            let k = tk(toks, pos);
            if k == TokenType::Print {
                match p_expression(toks, pos + 1) {
                    PRes::Parsed(e, n) => PRes::Parsed(StmtV::Print(e), 1 + n),
                    PRes::Failed(m) => PRes::Failed(m),
                }
            } else if k == TokenType::If {
                p_if(toks, pos)
            } else if k == TokenType::While {
                p_while(toks, pos)
            } else if k == TokenType::For {
                p_for(toks, pos)
            } else if k == TokenType::Function {
                p_function(toks, pos)
            } else if k == TokenType::Identifier && tk(toks, pos + 1) == TokenType::LeftParen {
                if tk(toks, pos + 2) == TokenType::RightParen {
                    PRes::Parsed(StmtV::ProcedureCall(lx(toks, pos)), 3)
                } else {
                    PRes::Failed("Expected ')' after procedure name"@)
                }
            } else {
                match p_expression(toks, pos) {
                    PRes::Parsed(e, n) => PRes::Parsed(StmtV::Expression(e), n),
                    PRes::Failed(m) => PRes::Failed(m),
                }
            }
        })
}

/// A conditional: condition, `then`, the then-branch, an optional `else`
/// branch, and `end`.
#[verifier::opaque]
pub open spec fn p_if(toks: Seq<TokenV>, pos: nat) -> PRes<StmtV>
    decreases rem(toks, pos), 18nat,
{
    (match p_expression(toks, pos + 1) {
            PRes::Failed(m) => PRes::Failed(m),
            PRes::Parsed(c, n) => {
                let q = pos + 1 + n;
                if tk(toks, q) != TokenType::Then {
                    PRes::Failed("Expected 'then' after if condition"@)
                } else {
                    match p_decls_until(toks, q + 1, true) {
                        PRes::Failed(m) => PRes::Failed(m),
                        PRes::Parsed(ds1, n1) => {
                            let r = q + 1 + n1;
                            if tk(toks, r) == TokenType::Else {
                                match p_block(toks, r + 1) {
                                    PRes::Failed(m) => PRes::Failed(m),
                                    PRes::Parsed(ds2, n2) => PRes::Parsed(
                                        StmtV::If(
                                            c,
                                            Box::new(StmtV::Block(ds1)),
                                            Some(Box::new(StmtV::Block(ds2))),
                                        ),
                                        (r + 1 + n2 - pos) as nat,
                                    ),
                                }
                            } else if tk(toks, r) == TokenType::End {
                                PRes::Parsed(
                                    StmtV::If(c, Box::new(StmtV::Block(ds1)), None),
                                    (r + 1 - pos) as nat,
                                )
                            } else {
                                PRes::Failed("Expected 'end' after block"@)
                            }
                        },
                    }
                }
            },
        })
}

/// A while-loop: condition, `do`, the body, `end`.
#[verifier::opaque]
pub open spec fn p_while(toks: Seq<TokenV>, pos: nat) -> PRes<StmtV>
    decreases rem(toks, pos), 18nat,
{
    (match p_expression(toks, pos + 1) {
            PRes::Failed(m) => PRes::Failed(m),
            PRes::Parsed(c, n) => {
                let q = pos + 1 + n;
                if tk(toks, q) != TokenType::Do {
                    PRes::Failed("Expected 'do' after while condition"@)
                } else {
                    match p_block(toks, q + 1) {
                        PRes::Failed(m) => PRes::Failed(m),
                        PRes::Parsed(ds, n2) => PRes::Parsed(
                            StmtV::While(c, Box::new(StmtV::Block(ds))),
                            (q + 1 + n2 - pos) as nat,
                        ),
                    }
                }
            },
        })
}

/// A range loop: variable, `from`, `to` and `step` bounds, `do`, body,
/// `end`.
#[verifier::opaque]
pub open spec fn p_for(toks: Seq<TokenV>, pos: nat) -> PRes<StmtV>
    decreases rem(toks, pos), 18nat,
{
    (if tk(toks, pos + 1) != TokenType::Identifier {
            PRes::Failed("Expected loop variable name"@)
        } else if tk(toks, pos + 2) != TokenType::From {
            PRes::Failed("Expected 'from' after loop variable"@)
        } else {
            match p_expression(toks, pos + 3) {
                PRes::Failed(m) => PRes::Failed(m),
                PRes::Parsed(lo, n1) => {
                    let q1 = pos + 3 + n1;
                    if tk(toks, q1) != TokenType::To {
                        PRes::Failed("Expected 'to' after range start"@)
                    } else {
                        match p_expression(toks, q1 + 1) {
                            PRes::Failed(m) => PRes::Failed(m),
                            PRes::Parsed(hi, n2) => {
                                let q2 = q1 + 1 + n2;
                                if tk(toks, q2) != TokenType::Step {
                                    PRes::Failed("Expected 'step' after range end"@)
                                } else {
                                    match p_expression(toks, q2 + 1) {
                                        PRes::Failed(m) => PRes::Failed(m),
                                        PRes::Parsed(stp, n3) => {
                                            let q3 = q2 + 1 + n3;
                                            if tk(toks, q3) != TokenType::Do {
                                                PRes::Failed("Expected 'do' after range step"@)
                                            } else {
                                                match p_block(toks, q3 + 1) {
                                                    PRes::Failed(m) => PRes::Failed(m),
                                                    PRes::Parsed(ds, n4) => PRes::Parsed(
                                                        StmtV::Range(
                                                            lx(toks, pos + 1),
                                                            lo,
                                                            hi,
                                                            stp,
                                                            Box::new(StmtV::Block(ds)),
                                                        ),
                                                        (q3 + 1 + n4 - pos) as nat,
                                                    ),
                                                }
                                            }
                                        },
                                    }
                                }
                            },
                        }
                    }
                },
            }
        })
}

/// A procedure declaration: name, `do`, body, `end`.
#[verifier::opaque]
pub open spec fn p_function(toks: Seq<TokenV>, pos: nat) -> PRes<StmtV>
    decreases rem(toks, pos), 18nat,
{
    (if tk(toks, pos + 1) != TokenType::Identifier {
            PRes::Failed("Expected procedure name"@)
        } else if tk(toks, pos + 2) != TokenType::Do {
            PRes::Failed("Expected 'do' after procedure name"@)
        } else {
            match p_block(toks, pos + 3) {
                PRes::Failed(m) => PRes::Failed(m),
                PRes::Parsed(ds, n) => PRes::Parsed(
                    StmtV::Procedure(lx(toks, pos + 1), ds),
                    3 + n,
                ),
            }
        })
}

proof fn lemma_unfold_p_program(toks: Seq<TokenV>, pos: nat)
    ensures
        p_program(toks, pos) == (if tk(toks, pos) == TokenType::Eof {
            PRes::Parsed(Seq::<DeclV>::empty(), 0)
        } else {
            match p_declaration(toks, pos) {
                PRes::Failed(m) => PRes::Failed(m),
                PRes::Parsed(d, n) => {
                    if n == 0 {
                        // never reached: a declaration consumes at least one token
                        PRes::Failed("Expected expression"@)
                    } else {
                        match p_program(toks, pos + n) {
                            PRes::Failed(m) => PRes::Failed(m),
                            PRes::Parsed(ds, u) => PRes::Parsed(seq![d] + ds, n + u),
                        }
                    }
                },
            }
        }),
{
    reveal(p_program);
    reveal(p_declaration);
    assert(p_program(toks, pos) == (if tk(toks, pos) == TokenType::Eof {
            PRes::Parsed(Seq::<DeclV>::empty(), 0)
        } else {
            match p_declaration(toks, pos) {
                PRes::Failed(m) => PRes::Failed(m),
                PRes::Parsed(d, n) => {
                    if n == 0 {
                        // never reached: a declaration consumes at least one token
                        PRes::Failed("Expected expression"@)
                    } else {
                        match p_program(toks, pos + n) {
                            PRes::Failed(m) => PRes::Failed(m),
                            PRes::Parsed(ds, u) => PRes::Parsed(seq![d] + ds, n + u),
                        }
                    }
                },
            }
        }));
}

proof fn lemma_unfold_p_decls_until(toks: Seq<TokenV>, pos: nat, stop_else: bool)
    ensures
        p_decls_until(toks, pos, stop_else) == ({
            let k = tk(toks, pos);
            if k == TokenType::End || k == TokenType::Eof || (stop_else && k == TokenType::Else) {
                PRes::Parsed(Seq::<DeclV>::empty(), 0)
            } else {
                match p_declaration(toks, pos) {
                    PRes::Failed(m) => PRes::Failed(m),
                    PRes::Parsed(d, n) => {
                        if n == 0 {
                            // never reached: a declaration consumes at least one token
                            PRes::Failed("Expected 'end' after block"@)
                        } else {
                            match p_decls_until(toks, pos + n, stop_else) {
                                PRes::Failed(m) => PRes::Failed(m),
                                PRes::Parsed(ds, u) => PRes::Parsed(seq![d] + ds, n + u),
                            }
                        }
                    },
                }
            }
        }),
{
    reveal(p_decls_until);
    reveal(p_declaration);
    assert(p_decls_until(toks, pos, stop_else) == ({
            let k = tk(toks, pos);
            if k == TokenType::End || k == TokenType::Eof || (stop_else && k == TokenType::Else) {
                PRes::Parsed(Seq::<DeclV>::empty(), 0)
            } else {
                match p_declaration(toks, pos) {
                    PRes::Failed(m) => PRes::Failed(m),
                    PRes::Parsed(d, n) => {
                        if n == 0 {
                            // never reached: a declaration consumes at least one token
                            PRes::Failed("Expected 'end' after block"@)
                        } else {
                            match p_decls_until(toks, pos + n, stop_else) {
                                PRes::Failed(m) => PRes::Failed(m),
                                PRes::Parsed(ds, u) => PRes::Parsed(seq![d] + ds, n + u),
                            }
                        }
                    },
                }
            }
        }));
}

proof fn lemma_unfold_p_block(toks: Seq<TokenV>, pos: nat)
    ensures
        p_block(toks, pos) == (match p_decls_until(toks, pos, false) {
            PRes::Failed(m) => PRes::Failed(m),
            PRes::Parsed(ds, n) => if tk(toks, pos + n) == TokenType::End {
                PRes::Parsed(ds, n + 1)
            } else {
                PRes::Failed("Expected 'end' after block"@)
            },
        }),
{
    reveal(p_block);
    reveal(p_decls_until);
    assert(p_block(toks, pos) == (match p_decls_until(toks, pos, false) {
            PRes::Failed(m) => PRes::Failed(m),
            PRes::Parsed(ds, n) => if tk(toks, pos + n) == TokenType::End {
                PRes::Parsed(ds, n + 1)
            } else {
                PRes::Failed("Expected 'end' after block"@)
            },
        }));
}

proof fn lemma_unfold_p_declaration(toks: Seq<TokenV>, pos: nat)
    ensures
        p_declaration(toks, pos) == (if tk(toks, pos) == TokenType::Let {
            match p_variable_declaration(toks, pos + 1) {
                PRes::Parsed(d, n) => PRes::Parsed(d, 1 + n),
                PRes::Failed(m) => PRes::Failed(m),
            }
        } else {
            match p_statement(toks, pos) {
                PRes::Parsed(st, n) => PRes::Parsed(DeclV::Statement(st), n),
                PRes::Failed(m) => PRes::Failed(m),
            }
        }),
{
    reveal(p_declaration);
    reveal(p_variable_declaration);
    reveal(p_statement);
    assert(p_declaration(toks, pos) == (if tk(toks, pos) == TokenType::Let {
            match p_variable_declaration(toks, pos + 1) {
                PRes::Parsed(d, n) => PRes::Parsed(d, 1 + n),
                PRes::Failed(m) => PRes::Failed(m),
            }
        } else {
            match p_statement(toks, pos) {
                PRes::Parsed(st, n) => PRes::Parsed(DeclV::Statement(st), n),
                PRes::Failed(m) => PRes::Failed(m),
            }
        }));
}

proof fn lemma_unfold_p_variable_declaration(toks: Seq<TokenV>, pos: nat)
    ensures
        p_variable_declaration(toks, pos) == (if tk(toks, pos) != TokenType::Identifier {
            PRes::Failed("Expected variable name"@)
        } else if tk(toks, pos + 1) != TokenType::Equal {
            PRes::Failed("Expected '=' after variable name"@)
        } else {
            match p_expression(toks, pos + 2) {
                PRes::Parsed(e, n) => PRes::Parsed(DeclV::Variable(lx(toks, pos), e), 2 + n),
                PRes::Failed(m) => PRes::Failed(m),
            }
        }),
{
    reveal(p_variable_declaration);
    assert(p_variable_declaration(toks, pos) == (if tk(toks, pos) != TokenType::Identifier {
            PRes::Failed("Expected variable name"@)
        } else if tk(toks, pos + 1) != TokenType::Equal {
            PRes::Failed("Expected '=' after variable name"@)
        } else {
            match p_expression(toks, pos + 2) {
                PRes::Parsed(e, n) => PRes::Parsed(DeclV::Variable(lx(toks, pos), e), 2 + n),
                PRes::Failed(m) => PRes::Failed(m),
            }
        }));
}

proof fn lemma_unfold_p_statement(toks: Seq<TokenV>, pos: nat)
    ensures
        p_statement(toks, pos) == ({
            let k = tk(toks, pos);
            if k == TokenType::Print {
                match p_expression(toks, pos + 1) {
                    PRes::Parsed(e, n) => PRes::Parsed(StmtV::Print(e), 1 + n),
                    PRes::Failed(m) => PRes::Failed(m),
                }
            } else if k == TokenType::If {
                p_if(toks, pos)
            } else if k == TokenType::While {
                p_while(toks, pos)
            } else if k == TokenType::For {
                p_for(toks, pos)
            } else if k == TokenType::Function {
                p_function(toks, pos)
            } else if k == TokenType::Identifier && tk(toks, pos + 1) == TokenType::LeftParen {
                if tk(toks, pos + 2) == TokenType::RightParen {
                    PRes::Parsed(StmtV::ProcedureCall(lx(toks, pos)), 3)
                } else {
                    PRes::Failed("Expected ')' after procedure name"@)
                }
            } else {
                match p_expression(toks, pos) {
                    PRes::Parsed(e, n) => PRes::Parsed(StmtV::Expression(e), n),
                    PRes::Failed(m) => PRes::Failed(m),
                }
            }
        }),
{
    reveal(p_statement);
    reveal(p_if);
    reveal(p_while);
    reveal(p_for);
    reveal(p_function);
    assert(p_statement(toks, pos) == ({
            let k = tk(toks, pos);
            if k == TokenType::Print {
                match p_expression(toks, pos + 1) {
                    PRes::Parsed(e, n) => PRes::Parsed(StmtV::Print(e), 1 + n),
                    PRes::Failed(m) => PRes::Failed(m),
                }
            } else if k == TokenType::If {
                p_if(toks, pos)
            } else if k == TokenType::While {
                p_while(toks, pos)
            } else if k == TokenType::For {
                p_for(toks, pos)
            } else if k == TokenType::Function {
                p_function(toks, pos)
            } else if k == TokenType::Identifier && tk(toks, pos + 1) == TokenType::LeftParen {
                if tk(toks, pos + 2) == TokenType::RightParen {
                    PRes::Parsed(StmtV::ProcedureCall(lx(toks, pos)), 3)
                } else {
                    PRes::Failed("Expected ')' after procedure name"@)
                }
            } else {
                match p_expression(toks, pos) {
                    PRes::Parsed(e, n) => PRes::Parsed(StmtV::Expression(e), n),
                    PRes::Failed(m) => PRes::Failed(m),
                }
            }
        }));
}

proof fn lemma_unfold_p_if(toks: Seq<TokenV>, pos: nat)
    ensures
        p_if(toks, pos) == (match p_expression(toks, pos + 1) {
            PRes::Failed(m) => PRes::Failed(m),
            PRes::Parsed(c, n) => {
                let q = pos + 1 + n;
                if tk(toks, q) != TokenType::Then {
                    PRes::Failed("Expected 'then' after if condition"@)
                } else {
                    match p_decls_until(toks, q + 1, true) {
                        PRes::Failed(m) => PRes::Failed(m),
                        PRes::Parsed(ds1, n1) => {
                            let r = q + 1 + n1;
                            if tk(toks, r) == TokenType::Else {
                                match p_block(toks, r + 1) {
                                    PRes::Failed(m) => PRes::Failed(m),
                                    PRes::Parsed(ds2, n2) => PRes::Parsed(
                                        StmtV::If(
                                            c,
                                            Box::new(StmtV::Block(ds1)),
                                            Some(Box::new(StmtV::Block(ds2))),
                                        ),
                                        (r + 1 + n2 - pos) as nat,
                                    ),
                                }
                            } else if tk(toks, r) == TokenType::End {
                                PRes::Parsed(
                                    StmtV::If(c, Box::new(StmtV::Block(ds1)), None),
                                    (r + 1 - pos) as nat,
                                )
                            } else {
                                PRes::Failed("Expected 'end' after block"@)
                            }
                        },
                    }
                }
            },
        }),
{
    reveal(p_if);
    reveal(p_decls_until);
    reveal(p_block);
    assert(p_if(toks, pos) == (match p_expression(toks, pos + 1) {
            PRes::Failed(m) => PRes::Failed(m),
            PRes::Parsed(c, n) => {
                let q = pos + 1 + n;
                if tk(toks, q) != TokenType::Then {
                    PRes::Failed("Expected 'then' after if condition"@)
                } else {
                    match p_decls_until(toks, q + 1, true) {
                        PRes::Failed(m) => PRes::Failed(m),
                        PRes::Parsed(ds1, n1) => {
                            let r = q + 1 + n1;
                            if tk(toks, r) == TokenType::Else {
                                match p_block(toks, r + 1) {
                                    PRes::Failed(m) => PRes::Failed(m),
                                    PRes::Parsed(ds2, n2) => PRes::Parsed(
                                        StmtV::If(
                                            c,
                                            Box::new(StmtV::Block(ds1)),
                                            Some(Box::new(StmtV::Block(ds2))),
                                        ),
                                        (r + 1 + n2 - pos) as nat,
                                    ),
                                }
                            } else if tk(toks, r) == TokenType::End {
                                PRes::Parsed(
                                    StmtV::If(c, Box::new(StmtV::Block(ds1)), None),
                                    (r + 1 - pos) as nat,
                                )
                            } else {
                                PRes::Failed("Expected 'end' after block"@)
                            }
                        },
                    }
                }
            },
        }));
}

proof fn lemma_unfold_p_while(toks: Seq<TokenV>, pos: nat)
    ensures
        p_while(toks, pos) == (match p_expression(toks, pos + 1) {
            PRes::Failed(m) => PRes::Failed(m),
            PRes::Parsed(c, n) => {
                let q = pos + 1 + n;
                if tk(toks, q) != TokenType::Do {
                    PRes::Failed("Expected 'do' after while condition"@)
                } else {
                    match p_block(toks, q + 1) {
                        PRes::Failed(m) => PRes::Failed(m),
                        PRes::Parsed(ds, n2) => PRes::Parsed(
                            StmtV::While(c, Box::new(StmtV::Block(ds))),
                            (q + 1 + n2 - pos) as nat,
                        ),
                    }
                }
            },
        }),
{
    reveal(p_while);
    reveal(p_block);
    assert(p_while(toks, pos) == (match p_expression(toks, pos + 1) {
            PRes::Failed(m) => PRes::Failed(m),
            PRes::Parsed(c, n) => {
                let q = pos + 1 + n;
                if tk(toks, q) != TokenType::Do {
                    PRes::Failed("Expected 'do' after while condition"@)
                } else {
                    match p_block(toks, q + 1) {
                        PRes::Failed(m) => PRes::Failed(m),
                        PRes::Parsed(ds, n2) => PRes::Parsed(
                            StmtV::While(c, Box::new(StmtV::Block(ds))),
                            (q + 1 + n2 - pos) as nat,
                        ),
                    }
                }
            },
        }));
}

proof fn lemma_unfold_p_for(toks: Seq<TokenV>, pos: nat)
    ensures
        p_for(toks, pos) == (if tk(toks, pos + 1) != TokenType::Identifier {
            PRes::Failed("Expected loop variable name"@)
        } else if tk(toks, pos + 2) != TokenType::From {
            PRes::Failed("Expected 'from' after loop variable"@)
        } else {
            match p_expression(toks, pos + 3) {
                PRes::Failed(m) => PRes::Failed(m),
                PRes::Parsed(lo, n1) => {
                    let q1 = pos + 3 + n1;
                    if tk(toks, q1) != TokenType::To {
                        PRes::Failed("Expected 'to' after range start"@)
                    } else {
                        match p_expression(toks, q1 + 1) {
                            PRes::Failed(m) => PRes::Failed(m),
                            PRes::Parsed(hi, n2) => {
                                let q2 = q1 + 1 + n2;
                                if tk(toks, q2) != TokenType::Step {
                                    PRes::Failed("Expected 'step' after range end"@)
                                } else {
                                    match p_expression(toks, q2 + 1) {
                                        PRes::Failed(m) => PRes::Failed(m),
                                        PRes::Parsed(stp, n3) => {
                                            let q3 = q2 + 1 + n3;
                                            if tk(toks, q3) != TokenType::Do {
                                                PRes::Failed("Expected 'do' after range step"@)
                                            } else {
                                                match p_block(toks, q3 + 1) {
                                                    PRes::Failed(m) => PRes::Failed(m),
                                                    PRes::Parsed(ds, n4) => PRes::Parsed(
                                                        StmtV::Range(
                                                            lx(toks, pos + 1),
                                                            lo,
                                                            hi,
                                                            stp,
                                                            Box::new(StmtV::Block(ds)),
                                                        ),
                                                        (q3 + 1 + n4 - pos) as nat,
                                                    ),
                                                }
                                            }
                                        },
                                    }
                                }
                            },
                        }
                    }
                },
            }
        }),
{
    reveal(p_for);
    reveal(p_block);
    assert(p_for(toks, pos) == (if tk(toks, pos + 1) != TokenType::Identifier {
            PRes::Failed("Expected loop variable name"@)
        } else if tk(toks, pos + 2) != TokenType::From {
            PRes::Failed("Expected 'from' after loop variable"@)
        } else {
            match p_expression(toks, pos + 3) {
                PRes::Failed(m) => PRes::Failed(m),
                PRes::Parsed(lo, n1) => {
                    let q1 = pos + 3 + n1;
                    if tk(toks, q1) != TokenType::To {
                        PRes::Failed("Expected 'to' after range start"@)
                    } else {
                        match p_expression(toks, q1 + 1) {
                            PRes::Failed(m) => PRes::Failed(m),
                            PRes::Parsed(hi, n2) => {
                                let q2 = q1 + 1 + n2;
                                if tk(toks, q2) != TokenType::Step {
                                    PRes::Failed("Expected 'step' after range end"@)
                                } else {
                                    match p_expression(toks, q2 + 1) {
                                        PRes::Failed(m) => PRes::Failed(m),
                                        PRes::Parsed(stp, n3) => {
                                            let q3 = q2 + 1 + n3;
                                            if tk(toks, q3) != TokenType::Do {
                                                PRes::Failed("Expected 'do' after range step"@)
                                            } else {
                                                match p_block(toks, q3 + 1) {
                                                    PRes::Failed(m) => PRes::Failed(m),
                                                    PRes::Parsed(ds, n4) => PRes::Parsed(
                                                        StmtV::Range(
                                                            lx(toks, pos + 1),
                                                            lo,
                                                            hi,
                                                            stp,
                                                            Box::new(StmtV::Block(ds)),
                                                        ),
                                                        (q3 + 1 + n4 - pos) as nat,
                                                    ),
                                                }
                                            }
                                        },
                                    }
                                }
                            },
                        }
                    }
                },
            }
        }));
}

proof fn lemma_unfold_p_function(toks: Seq<TokenV>, pos: nat)
    ensures
        p_function(toks, pos) == (if tk(toks, pos + 1) != TokenType::Identifier {
            PRes::Failed("Expected procedure name"@)
        } else if tk(toks, pos + 2) != TokenType::Do {
            PRes::Failed("Expected 'do' after procedure name"@)
        } else {
            match p_block(toks, pos + 3) {
                PRes::Failed(m) => PRes::Failed(m),
                PRes::Parsed(ds, n) => PRes::Parsed(
                    StmtV::Procedure(lx(toks, pos + 1), ds),
                    3 + n,
                ),
            }
        }),
{
    reveal(p_function);
    reveal(p_block);
    assert(p_function(toks, pos) == (if tk(toks, pos + 1) != TokenType::Identifier {
            PRes::Failed("Expected procedure name"@)
        } else if tk(toks, pos + 2) != TokenType::Do {
            PRes::Failed("Expected 'do' after procedure name"@)
        } else {
            match p_block(toks, pos + 3) {
                PRes::Failed(m) => PRes::Failed(m),
                PRes::Parsed(ds, n) => PRes::Parsed(
                    StmtV::Procedure(lx(toks, pos + 1), ds),
                    3 + n,
                ),
            }
        }));
}

impl Parser {
    /// Whether the token after the next one has the given kind.
    fn check_next(&self, kind: TokenType) -> (r: bool)
        requires
            self.wf(),
            kind != TokenType::Eof,
        ensures
            r == (tk(self.toks(), self.pos() + 1) == kind),
    {
        let n = self.tokens.len();
        if self.current + 1 < n {
            self.tokens[self.current + 1].kind == kind
        } else {
            false
        }
    }

    /// Whether the parser stands where a block ends: at `end`, at the end
    /// of input, or, when asked, at `else`.
    fn at_block_end(&self, stop_else: bool) -> (r: bool)
        requires
            self.wf(),
        ensures
            r == ({
                let k = tk(self.toks(), self.pos());
                k == TokenType::End || k == TokenType::Eof || (stop_else && k == TokenType::Else)
            }),
    {
        self.check(TokenType::End) || self.is_at_end() || (stop_else && self.check(
            TokenType::Else,
        ))
    }

    /// Parses the whole program: declarations up to the end of input.
    pub fn parse(&mut self) -> (r: Result<Vec<Declaration>, ParseError>)
        requires
            old(self).wf(),
        ensures
            final(self).wf(),
            final(self).toks() == old(self).toks(),
            old(self).pos() <= final(self).pos(),
            match r {
                Ok(ds) => p_program(old(self).toks(), old(self).pos()) == PRes::Parsed(
                    crate::ast::decls_view(ds@),
                    (final(self).pos() - old(self).pos()) as nat,
                ),
                Err(pe) => p_program(old(self).toks(), old(self).pos()) == PRes::Failed::<
                    Seq<DeclV>,
                >(pe@),
            },
    {
        let ghost toks = self.toks();
        let ghost pos0 = self.pos();
        let mut out: Vec<Declaration> = Vec::new();
        proof {
            assert(crate::ast::decls_view(out@) =~= Seq::<DeclV>::empty());
        }
        while !self.is_at_end()
            invariant
                self.wf(),
                toks == old(self).toks(),
                pos0 == old(self).pos(),
                self.toks() == toks,
                pos0 <= self.pos(),
                match p_program(toks, self.pos()) {
                    PRes::Parsed(rest, u) => p_program(toks, pos0) == PRes::Parsed(
                        crate::ast::decls_view(out@) + rest,
                        ((self.pos() - pos0) as nat + u) as nat,
                    ),
                    PRes::Failed(m) => p_program(toks, pos0) == PRes::Failed::<Seq<DeclV>>(m),
                },
            decreases toks.len() - self.pos(),
        {
            let ghost hp = self.pos();
            let ghost acc0 = out@;
            let d = match self.declaration() {
                Ok(d) => d,
                Err(pe) => {
                    proof {
                        lemma_unfold_p_program(toks, hp);
                    }
                    return Err(pe);
                },
            };
            out.push(d);
            proof {
                lemma_unfold_p_program(toks, hp);
                crate::ast::lemma_decls_view_push(acc0, d);
                match p_program(toks, self.pos()) {
                    PRes::Parsed(rest2, u2) => {
                        assert(crate::ast::decls_view(acc0) + (seq![crate::ast::decl_view(&d)]
                            + rest2) =~= crate::ast::decls_view(out@) + rest2);
                    },
                    PRes::Failed(m) => {},
                }
            }
        }
        proof {
            lemma_unfold_p_program(toks, self.pos());
            assert(crate::ast::decls_view(out@) + Seq::<DeclV>::empty() =~= crate::ast::decls_view(
                out@,
            ));
        }
        Ok(out)
    }

    /// Parses one declaration: a `let` binding or a statement.
    pub fn declaration(&mut self) -> (r: Result<Declaration, ParseError>)
        requires
            old(self).wf(),
        ensures
            final(self).wf(),
            final(self).toks() == old(self).toks(),
            old(self).pos() <= final(self).pos(),
            r is Ok ==> old(self).pos() < final(self).pos(),
            match r {
                Ok(d) => p_declaration(old(self).toks(), old(self).pos()) == PRes::Parsed(
                    d@,
                    (final(self).pos() - old(self).pos()) as nat,
                ),
                Err(pe) => p_declaration(old(self).toks(), old(self).pos()) == PRes::Failed::<
                    DeclV,
                >(pe@),
            },
        decreases old(self).toks().len() - old(self).pos(), 20nat,
    {
        let ghost toks = self.toks();
        let ghost pos0 = self.pos();
        if self.match_token(TokenType::Let) {
            let r = self.variable_declaration();
            proof {
                lemma_unfold_p_declaration(toks, pos0);
            }
            r
        } else {
            let st = match self.statement() {
                Ok(st) => st,
                Err(pe) => {
                    proof {
                        lemma_unfold_p_declaration(toks, pos0);
                    }
                    return Err(pe);
                },
            };
            proof {
                lemma_unfold_p_declaration(toks, pos0);
            }
            Ok(Declaration::Statement(st))
        }
    }

    /// Parses the rest of a `let` binding: the name, `=`, the initializer.
    pub fn variable_declaration(&mut self) -> (r: Result<Declaration, ParseError>)
        requires
            old(self).wf(),
        ensures
            final(self).wf(),
            final(self).toks() == old(self).toks(),
            old(self).pos() <= final(self).pos(),
            r is Ok ==> old(self).pos() < final(self).pos(),
            match r {
                Ok(d) => p_variable_declaration(old(self).toks(), old(self).pos())
                    == PRes::Parsed(d@, (final(self).pos() - old(self).pos()) as nat),
                Err(pe) => p_variable_declaration(old(self).toks(), old(self).pos())
                    == PRes::Failed::<DeclV>(pe@),
            },
        decreases old(self).toks().len() - old(self).pos(), 19nat,
    {
        let ghost toks = self.toks();
        let ghost pos0 = self.pos();
        let name = match self.consume(TokenType::Identifier, "Expected variable name") {
            Ok(t) => t,
            Err(pe) => {
                proof {
                    lemma_unfold_p_variable_declaration(toks, pos0);
                }
                return Err(pe);
            },
        };
        match self.consume(TokenType::Equal, "Expected '=' after variable name") {
            Ok(_) => {},
            Err(pe) => {
                proof {
                    lemma_unfold_p_variable_declaration(toks, pos0);
                }
                return Err(pe);
            },
        }
        let initializer = match self.expression() {
            Ok(e) => e,
            Err(pe) => {
                proof {
                    lemma_unfold_p_variable_declaration(toks, pos0);
                }
                return Err(pe);
            },
        };
        proof {
            lemma_unfold_p_variable_declaration(toks, pos0);
        }
        Ok(Declaration::Variable(name.lexeme, initializer))
    }

    /// Parses one statement, dispatched on its leading token.
    pub fn statement(&mut self) -> (r: Result<Statement, ParseError>)
        requires
            old(self).wf(),
        ensures
            final(self).wf(),
            final(self).toks() == old(self).toks(),
            old(self).pos() <= final(self).pos(),
            r is Ok ==> old(self).pos() < final(self).pos(),
            match r {
                Ok(st) => p_statement(old(self).toks(), old(self).pos()) == PRes::Parsed(
                    st@,
                    (final(self).pos() - old(self).pos()) as nat,
                ),
                Err(pe) => p_statement(old(self).toks(), old(self).pos()) == PRes::Failed::<
                    StmtV,
                >(pe@),
            },
        decreases old(self).toks().len() - old(self).pos(), 19nat,
    {
        let ghost toks = self.toks();
        let ghost pos0 = self.pos();
        if self.check(TokenType::Print) {
            let r = self.print_statement();
            proof {
                lemma_unfold_p_statement(toks, pos0);
            }
            r
        } else if self.check(TokenType::If) {
            let r = self.if_statement();
            proof {
                lemma_unfold_p_statement(toks, pos0);
            }
            r
        } else if self.check(TokenType::While) {
            let r = self.while_statement();
            proof {
                lemma_unfold_p_statement(toks, pos0);
            }
            r
        } else if self.check(TokenType::For) {
            let r = self.for_statement();
            proof {
                lemma_unfold_p_statement(toks, pos0);
            }
            r
        } else if self.check(TokenType::Function) {
            let r = self.function_statement();
            proof {
                lemma_unfold_p_statement(toks, pos0);
            }
            r
        } else if self.check(TokenType::Identifier) && self.check_next(TokenType::LeftParen) {
            let name = self.advance();
            self.advance();
            match self.consume(TokenType::RightParen, "Expected ')' after procedure name") {
                Ok(_) => {
                    proof {
                        lemma_unfold_p_statement(toks, pos0);
                    }
                    Ok(Statement::ProcedureCall(name.lexeme))
                },
                Err(pe) => {
                    proof {
                        lemma_unfold_p_statement(toks, pos0);
                    }
                    Err(pe)
                },
            }
        } else {
            let e = match self.expression() {
                Ok(e) => e,
                Err(pe) => {
                    proof {
                        lemma_unfold_p_statement(toks, pos0);
                    }
                    return Err(pe);
                },
            };
            proof {
                lemma_unfold_p_statement(toks, pos0);
            }
            Ok(Statement::Expression(e))
        }
    }

    /// Parses a print statement, standing on `print`.
    pub fn print_statement(&mut self) -> (r: Result<Statement, ParseError>)
        requires
            old(self).wf(),
            tk(old(self).toks(), old(self).pos()) == TokenType::Print,
        ensures
            final(self).wf(),
            final(self).toks() == old(self).toks(),
            old(self).pos() < final(self).pos(),
            match r {
                Ok(st) => p_statement(old(self).toks(), old(self).pos()) == PRes::Parsed(
                    st@,
                    (final(self).pos() - old(self).pos()) as nat,
                ),
                Err(pe) => p_statement(old(self).toks(), old(self).pos()) == PRes::Failed::<
                    StmtV,
                >(pe@),
            },
        decreases old(self).toks().len() - old(self).pos(), 18nat,
    {
        let ghost toks = self.toks();
        let ghost pos0 = self.pos();
        self.advance();
        let value = match self.expression() {
            Ok(e) => e,
            Err(pe) => {
                proof {
                    lemma_unfold_p_statement(toks, pos0);
                }
                return Err(pe);
            },
        };
        proof {
            lemma_unfold_p_statement(toks, pos0);
        }
        Ok(Statement::Print(value))
    }

    /// Parses a conditional, standing on `if`.
    pub fn if_statement(&mut self) -> (r: Result<Statement, ParseError>)
        requires
            old(self).wf(),
            tk(old(self).toks(), old(self).pos()) == TokenType::If,
        ensures
            final(self).wf(),
            final(self).toks() == old(self).toks(),
            old(self).pos() < final(self).pos(),
            match r {
                Ok(st) => p_if(old(self).toks(), old(self).pos()) == PRes::Parsed(
                    st@,
                    (final(self).pos() - old(self).pos()) as nat,
                ),
                Err(pe) => p_if(old(self).toks(), old(self).pos()) == PRes::Failed::<StmtV>(pe@),
            },
        decreases old(self).toks().len() - old(self).pos(), 18nat,
    {
        let ghost toks = self.toks();
        let ghost pos0 = self.pos();
        self.advance();
        let condition = match self.expression() {
            Ok(e) => e,
            Err(pe) => {
                proof {
                    lemma_unfold_p_if(toks, pos0);
                }
                return Err(pe);
            },
        };
        match self.consume(TokenType::Then, "Expected 'then' after if condition") {
            Ok(_) => {},
            Err(pe) => {
                proof {
                    lemma_unfold_p_if(toks, pos0);
                }
                return Err(pe);
            },
        }
        let then_decls = match self.decls_until(true) {
            Ok(ds) => ds,
            Err(pe) => {
                proof {
                    lemma_unfold_p_if(toks, pos0);
                }
                return Err(pe);
            },
        };
        if self.match_token(TokenType::Else) {
            let else_decls = match self.block() {
                Ok(ds) => ds,
                Err(pe) => {
                    proof {
                        lemma_unfold_p_if(toks, pos0);
                    }
                    return Err(pe);
                },
            };
            proof {
                lemma_unfold_p_if(toks, pos0);
                reveal_with_fuel(crate::ast::stmt_view, 3);
            }
            Ok(
                Statement::If(
                    condition,
                    Box::new(Statement::Block(then_decls)),
                    Some(Box::new(Statement::Block(else_decls))),
                ),
            )
        } else {
            match self.consume(TokenType::End, "Expected 'end' after block") {
                Ok(_) => {
                    proof {
                        lemma_unfold_p_if(toks, pos0);
                        reveal_with_fuel(crate::ast::stmt_view, 3);
                    }
                    Ok(Statement::If(condition, Box::new(Statement::Block(then_decls)), None))
                },
                Err(pe) => {
                    proof {
                        lemma_unfold_p_if(toks, pos0);
                    }
                    Err(pe)
                },
            }
        }
    }

    /// Parses a while-loop, standing on `while`.
    fn while_statement(&mut self) -> (r: Result<Statement, ParseError>)
        requires
            old(self).wf(),
            tk(old(self).toks(), old(self).pos()) == TokenType::While,
        ensures
            final(self).wf(),
            final(self).toks() == old(self).toks(),
            old(self).pos() < final(self).pos(),
            match r {
                Ok(st) => p_while(old(self).toks(), old(self).pos()) == PRes::Parsed(
                    st@,
                    (final(self).pos() - old(self).pos()) as nat,
                ),
                Err(pe) => p_while(old(self).toks(), old(self).pos()) == PRes::Failed::<StmtV>(
                    pe@,
                ),
            },
        decreases old(self).toks().len() - old(self).pos(), 18nat,
    {
        let ghost toks = self.toks();
        let ghost pos0 = self.pos();
        self.advance();
        let condition = match self.expression() {
            Ok(e) => e,
            Err(pe) => {
                proof {
                    lemma_unfold_p_while(toks, pos0);
                }
                return Err(pe);
            },
        };
        match self.consume(TokenType::Do, "Expected 'do' after while condition") {
            Ok(_) => {},
            Err(pe) => {
                proof {
                    lemma_unfold_p_while(toks, pos0);
                }
                return Err(pe);
            },
        }
        let body = match self.block() {
            Ok(ds) => ds,
            Err(pe) => {
                proof {
                    lemma_unfold_p_while(toks, pos0);
                }
                return Err(pe);
            },
        };
        proof {
            lemma_unfold_p_while(toks, pos0);
            reveal_with_fuel(crate::ast::stmt_view, 3);
        }
        Ok(Statement::While(condition, Box::new(Statement::Block(body))))
    }

    /// Parses a range loop, standing on `for`.
    fn for_statement(&mut self) -> (r: Result<Statement, ParseError>)
        requires
            old(self).wf(),
            tk(old(self).toks(), old(self).pos()) == TokenType::For,
        ensures
            final(self).wf(),
            final(self).toks() == old(self).toks(),
            old(self).pos() < final(self).pos(),
            match r {
                Ok(st) => p_for(old(self).toks(), old(self).pos()) == PRes::Parsed(
                    st@,
                    (final(self).pos() - old(self).pos()) as nat,
                ),
                Err(pe) => p_for(old(self).toks(), old(self).pos()) == PRes::Failed::<StmtV>(pe@),
            },
        decreases old(self).toks().len() - old(self).pos(), 18nat,
    {
        let ghost toks = self.toks();
        let ghost pos0 = self.pos();
        self.advance();
        let variable = match self.consume(TokenType::Identifier, "Expected loop variable name") {
            Ok(t) => t,
            Err(pe) => {
                proof {
                    lemma_unfold_p_for(toks, pos0);
                }
                return Err(pe);
            },
        };
        match self.consume(TokenType::From, "Expected 'from' after loop variable") {
            Ok(_) => {},
            Err(pe) => {
                proof {
                    lemma_unfold_p_for(toks, pos0);
                }
                return Err(pe);
            },
        }
        let start = match self.expression() {
            Ok(e) => e,
            Err(pe) => {
                proof {
                    lemma_unfold_p_for(toks, pos0);
                }
                return Err(pe);
            },
        };
        match self.consume(TokenType::To, "Expected 'to' after range start") {
            Ok(_) => {},
            Err(pe) => {
                proof {
                    lemma_unfold_p_for(toks, pos0);
                }
                return Err(pe);
            },
        }
        let end = match self.expression() {
            Ok(e) => e,
            Err(pe) => {
                proof {
                    lemma_unfold_p_for(toks, pos0);
                }
                return Err(pe);
            },
        };
        match self.consume(TokenType::Step, "Expected 'step' after range end") {
            Ok(_) => {},
            Err(pe) => {
                proof {
                    lemma_unfold_p_for(toks, pos0);
                }
                return Err(pe);
            },
        }
        let step = match self.expression() {
            Ok(e) => e,
            Err(pe) => {
                proof {
                    lemma_unfold_p_for(toks, pos0);
                }
                return Err(pe);
            },
        };
        match self.consume(TokenType::Do, "Expected 'do' after range step") {
            Ok(_) => {},
            Err(pe) => {
                proof {
                    lemma_unfold_p_for(toks, pos0);
                }
                return Err(pe);
            },
        }
        let body = match self.block() {
            Ok(ds) => ds,
            Err(pe) => {
                proof {
                    lemma_unfold_p_for(toks, pos0);
                }
                return Err(pe);
            },
        };
        proof {
            lemma_unfold_p_for(toks, pos0);
            reveal_with_fuel(crate::ast::stmt_view, 3);
        }
        Ok(
            Statement::Range(
                variable.lexeme,
                start,
                end,
                step,
                Box::new(Statement::Block(body)),
            ),
        )
    }

    /// Parses a procedure declaration, standing on `function`.
    fn function_statement(&mut self) -> (r: Result<Statement, ParseError>)
        requires
            old(self).wf(),
            tk(old(self).toks(), old(self).pos()) == TokenType::Function,
        ensures
            final(self).wf(),
            final(self).toks() == old(self).toks(),
            old(self).pos() < final(self).pos(),
            match r {
                Ok(st) => p_function(old(self).toks(), old(self).pos()) == PRes::Parsed(
                    st@,
                    (final(self).pos() - old(self).pos()) as nat,
                ),
                Err(pe) => p_function(old(self).toks(), old(self).pos()) == PRes::Failed::<
                    StmtV,
                >(pe@),
            },
        decreases old(self).toks().len() - old(self).pos(), 18nat,
    {
        let ghost toks = self.toks();
        let ghost pos0 = self.pos();
        self.advance();
        let name = match self.consume(TokenType::Identifier, "Expected procedure name") {
            Ok(t) => t,
            Err(pe) => {
                proof {
                    lemma_unfold_p_function(toks, pos0);
                }
                return Err(pe);
            },
        };
        match self.consume(TokenType::Do, "Expected 'do' after procedure name") {
            Ok(_) => {},
            Err(pe) => {
                proof {
                    lemma_unfold_p_function(toks, pos0);
                }
                return Err(pe);
            },
        }
        let body = match self.block() {
            Ok(ds) => ds,
            Err(pe) => {
                proof {
                    lemma_unfold_p_function(toks, pos0);
                }
                return Err(pe);
            },
        };
        proof {
            lemma_unfold_p_function(toks, pos0);
        }
        Ok(Statement::Procedure(name.lexeme, body))
    }

    /// Parses a block's declarations and its closing `end`.
    pub fn block(&mut self) -> (r: Result<Vec<Declaration>, ParseError>)
        requires
            old(self).wf(),
        ensures
            final(self).wf(),
            final(self).toks() == old(self).toks(),
            old(self).pos() <= final(self).pos(),
            r is Ok ==> old(self).pos() < final(self).pos(),
            match r {
                Ok(ds) => p_block(old(self).toks(), old(self).pos()) == PRes::Parsed(
                    crate::ast::decls_view(ds@),
                    (final(self).pos() - old(self).pos()) as nat,
                ),
                Err(pe) => p_block(old(self).toks(), old(self).pos()) == PRes::Failed::<
                    Seq<DeclV>,
                >(pe@),
            },
        decreases old(self).toks().len() - old(self).pos(), 23nat,
    {
        let ghost toks = self.toks();
        let ghost pos0 = self.pos();
        let decls = match self.decls_until(false) {
            Ok(ds) => ds,
            Err(pe) => {
                proof {
                    lemma_unfold_p_block(toks, pos0);
                }
                return Err(pe);
            },
        };
        match self.consume(TokenType::End, "Expected 'end' after block") {
            Ok(_) => {
                proof {
                    lemma_unfold_p_block(toks, pos0);
                }
                Ok(decls)
            },
            Err(pe) => {
                proof {
                    lemma_unfold_p_block(toks, pos0);
                }
                Err(pe)
            },
        }
    }

    /// Parses declarations up to (not consuming) the end of a block.
    fn decls_until(&mut self, stop_else: bool) -> (r: Result<Vec<Declaration>, ParseError>)
        requires
            old(self).wf(),
        ensures
            final(self).wf(),
            final(self).toks() == old(self).toks(),
            old(self).pos() <= final(self).pos(),
            match r {
                Ok(ds) => p_decls_until(old(self).toks(), old(self).pos(), stop_else)
                    == PRes::Parsed(
                    crate::ast::decls_view(ds@),
                    (final(self).pos() - old(self).pos()) as nat,
                ),
                Err(pe) => p_decls_until(old(self).toks(), old(self).pos(), stop_else)
                    == PRes::Failed::<Seq<DeclV>>(pe@),
            },
        decreases old(self).toks().len() - old(self).pos(), 22nat,
    {
        let ghost toks = self.toks();
        let ghost pos0 = self.pos();
        let mut out: Vec<Declaration> = Vec::new();
        proof {
            assert(crate::ast::decls_view(out@) =~= Seq::<DeclV>::empty());
        }
        while !self.at_block_end(stop_else)
            invariant
                self.wf(),
                toks == old(self).toks(),
                pos0 == old(self).pos(),
                self.toks() == toks,
                pos0 <= self.pos(),
                match p_decls_until(toks, self.pos(), stop_else) {
                    PRes::Parsed(rest, u) => p_decls_until(toks, pos0, stop_else) == PRes::Parsed(
                        crate::ast::decls_view(out@) + rest,
                        ((self.pos() - pos0) as nat + u) as nat,
                    ),
                    PRes::Failed(m) => p_decls_until(toks, pos0, stop_else) == PRes::Failed::<
                        Seq<DeclV>,
                    >(m),
                },
            decreases toks.len() - self.pos(),
        {
            let ghost hp = self.pos();
            let ghost acc0 = out@;
            let d = match self.declaration() {
                Ok(d) => d,
                Err(pe) => {
                    proof {
                        lemma_unfold_p_decls_until(toks, hp, stop_else);
                    }
                    return Err(pe);
                },
            };
            out.push(d);
            proof {
                lemma_unfold_p_decls_until(toks, hp, stop_else);
                crate::ast::lemma_decls_view_push(acc0, d);
                match p_decls_until(toks, self.pos(), stop_else) {
                    PRes::Parsed(rest2, u2) => {
                        assert(crate::ast::decls_view(acc0) + (seq![crate::ast::decl_view(&d)]
                            + rest2) =~= crate::ast::decls_view(out@) + rest2);
                    },
                    PRes::Failed(m) => {},
                }
            }
        }
        proof {
            lemma_unfold_p_decls_until(toks, self.pos(), stop_else);
            assert(crate::ast::decls_view(out@) + Seq::<DeclV>::empty() =~= crate::ast::decls_view(
                out@,
            ));
        }
        Ok(out)
    }
}

} // verus!
