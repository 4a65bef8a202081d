//! The syntax tree the parser produces and the compiler consumes:
//! declarations contain statements, statements contain expressions.
//! Each node has a mathematical mirror (`DeclV`, `StmtV`, `ExprV`) that
//! contracts speak about.

use vstd::prelude::*;

use crate::lexer::TokenType;

verus! {

#[derive(Debug, Clone, Copy, PartialEq, Eq, Structural)]
pub enum UnaryOperator {
    Negate,
    Not,
}

#[derive(Debug, Clone, Copy, PartialEq, Eq, Structural)]
pub enum BinaryOperator {
    Add,
    Subtract,
    Multiply,
    Divide,
    Equal,
    NotEqual,
    Greater,
    GreaterEqual,
    Less,
    LessEqual,
}

#[derive(Debug, Clone, Copy, PartialEq, Eq, Structural)]
pub enum LogicalOperator {
    And,
    Or,
}

#[derive(Debug)]
pub enum Expression {
    Number(i64),
    Boolean(bool),
    Void,
    Text(String),
    Variable(String),
    Unary(UnaryOperator, Box<Expression>),
    Binary(BinaryOperator, Box<Expression>, Box<Expression>),
    Logical(LogicalOperator, Box<Expression>, Box<Expression>),
}

#[derive(Debug)]
pub enum Statement {
    Expression(Expression),
    Print(Expression),
    Block(Vec<Declaration>),
    If(Expression, Box<Statement>, Option<Box<Statement>>),
    While(Expression, Box<Statement>),
    Range(String, Expression, Expression, Expression, Box<Statement>),
    Procedure(String, Vec<Declaration>),
    ProcedureCall(String),
}

#[derive(Debug)]
pub enum Declaration {
    Variable(String, Expression),
    Statement(Statement),
}

/// Mathematical mirror of an expression.
pub enum ExprV {
    Number(i64),
    Boolean(bool),
    Void,
    Text(Seq<char>),
    Variable(Seq<char>),
    Unary(UnaryOperator, Box<ExprV>),
    Binary(BinaryOperator, Box<ExprV>, Box<ExprV>),
    Logical(LogicalOperator, Box<ExprV>, Box<ExprV>),
}

/// Mathematical mirror of a statement.
pub enum StmtV {
    Expression(ExprV),
    Print(ExprV),
    Block(Seq<DeclV>),
    If(ExprV, Box<StmtV>, Option<Box<StmtV>>),
    While(ExprV, Box<StmtV>),
    Range(Seq<char>, ExprV, ExprV, ExprV, Box<StmtV>),
    Procedure(Seq<char>, Seq<DeclV>),
    ProcedureCall(Seq<char>),
}

/// Mathematical mirror of a declaration.
pub enum DeclV {
    Variable(Seq<char>, ExprV),
    Statement(StmtV),
}

/// Mathematical mirror of a declaration list.
pub open spec fn decls_view(ds: Seq<Declaration>) -> Seq<DeclV>
    decreases ds,
{
    if ds.len() == 0 {
        Seq::<DeclV>::empty()
    } else {
        seq![decl_view(&ds[0])] + decls_view(ds.subrange(1, ds.len() as int))
    }
}

pub proof fn lemma_decls_view_len(ds: Seq<Declaration>)
    ensures
        decls_view(ds).len() == ds.len(),
    decreases ds.len(),
{
    if ds.len() > 0 {
        lemma_decls_view_len(ds.subrange(1, ds.len() as int));
    }
}

pub proof fn lemma_decls_view_index(ds: Seq<Declaration>, i: int)
    requires
        0 <= i < ds.len(),
    ensures
        decls_view(ds)[i] == decl_view(&ds[i]),
    decreases i,
{
    lemma_decls_view_len(ds);
    if i == 0 {
    } else {
        let rest = ds.subrange(1, ds.len() as int);
        lemma_decls_view_index(rest, i - 1);
        lemma_decls_view_len(rest);
        assert(rest[i - 1] == ds[i]);
    }
}

/// Appending one declaration appends its mirror.
pub proof fn lemma_decls_view_push(ds: Seq<Declaration>, d: Declaration)
    ensures
        decls_view(ds.push(d)) == decls_view(ds) + seq![decl_view(&d)],
{
    lemma_decls_view_len(ds);
    lemma_decls_view_len(ds.push(d));
    assert forall|i: int| 0 <= i < ds.len() + 1 implies #[trigger] decls_view(ds.push(d))[i]
        == (decls_view(ds) + seq![decl_view(&d)])[i] by {
        lemma_decls_view_index(ds.push(d), i);
        if i < ds.len() {
            lemma_decls_view_index(ds, i);
            assert(ds.push(d)[i] == ds[i]);
        } else {
            assert(ds.push(d)[i] == d);
        }
    }
    assert(decls_view(ds.push(d)) =~= decls_view(ds) + seq![decl_view(&d)]);
}

pub open spec fn expr_view(e: &Expression) -> ExprV
    decreases e,
{
    match e {
        Expression::Number(n) => ExprV::Number(*n),
        Expression::Boolean(b) => ExprV::Boolean(*b),
        Expression::Void => ExprV::Void,
        Expression::Text(s) => ExprV::Text(s@),
        Expression::Variable(n) => ExprV::Variable(n@),
        Expression::Unary(op, a) => ExprV::Unary(*op, Box::new(expr_view(a))),
        Expression::Binary(op, a, b) => ExprV::Binary(
            *op,
            Box::new(expr_view(a)),
            Box::new(expr_view(b)),
        ),
        Expression::Logical(op, a, b) => ExprV::Logical(
            *op,
            Box::new(expr_view(a)),
            Box::new(expr_view(b)),
        ),
    }
}

pub open spec fn stmt_view(s: &Statement) -> StmtV
    decreases s,
{
    match s {
        Statement::Expression(e) => StmtV::Expression(expr_view(e)),
        Statement::Print(e) => StmtV::Print(expr_view(e)),
        Statement::Block(ds) => StmtV::Block(decls_view(ds@)),
        Statement::If(c, t, e) => StmtV::If(
            expr_view(c),
            Box::new(stmt_view(t)),
            match e {
                Some(s2) => Some(Box::new(stmt_view(s2))),
                None => None,
            },
        ),
        Statement::While(c, b) => StmtV::While(expr_view(c), Box::new(stmt_view(b))),
        Statement::Range(v, lo, hi, st, b) => StmtV::Range(
            v@,
            expr_view(lo),
            expr_view(hi),
            expr_view(st),
            Box::new(stmt_view(b)),
        ),
        Statement::Procedure(n, body) => StmtV::Procedure(n@, decls_view(body@)),
        Statement::ProcedureCall(n) => StmtV::ProcedureCall(n@),
    }
}

pub open spec fn decl_view(d: &Declaration) -> DeclV
    decreases d,
{
    match d {
        Declaration::Variable(n, e) => DeclV::Variable(n@, expr_view(e)),
        Declaration::Statement(s) => DeclV::Statement(stmt_view(s)),
    }
}

impl View for Expression {
    type V = ExprV;

    open spec fn view(&self) -> ExprV {
        expr_view(self)
    }
}

impl View for Statement {
    type V = StmtV;

    open spec fn view(&self) -> StmtV {
        stmt_view(self)
    }
}

impl View for Declaration {
    type V = DeclV;

    open spec fn view(&self) -> DeclV {
        decl_view(self)
    }
}

/// Whether a token kind names a unary operator.
pub open spec fn is_unary_op_token(kind: TokenType) -> bool {
    kind == TokenType::Bang || kind == TokenType::Minus
}

/// Whether a token kind names a binary operator.
pub open spec fn is_binary_op_token(kind: TokenType) -> bool {
    ||| kind == TokenType::Plus
    ||| kind == TokenType::Minus
    ||| kind == TokenType::Star
    ||| kind == TokenType::Slash
    ||| kind == TokenType::EqualEqual
    ||| kind == TokenType::BangEqual
    ||| kind == TokenType::Greater
    ||| kind == TokenType::GreaterEqual
    ||| kind == TokenType::Less
    ||| kind == TokenType::LessEqual
}

/// Whether a token kind names a logical operator.
pub open spec fn is_logical_op_token(kind: TokenType) -> bool {
    kind == TokenType::And || kind == TokenType::Or
}

/// The unary operator a token kind stands for.
pub open spec fn unary_op_of_token(kind: TokenType) -> UnaryOperator {
    if kind == TokenType::Bang {
        UnaryOperator::Not
    } else {
        UnaryOperator::Negate
    }
}

/// The binary operator a token kind stands for.
pub open spec fn binary_op_of_token(kind: TokenType) -> BinaryOperator {
    if kind == TokenType::Plus {
        BinaryOperator::Add
    } else if kind == TokenType::Minus {
        BinaryOperator::Subtract
    } else if kind == TokenType::Star {
        BinaryOperator::Multiply
    } else if kind == TokenType::Slash {
        BinaryOperator::Divide
    } else if kind == TokenType::EqualEqual {
        BinaryOperator::Equal
    } else if kind == TokenType::BangEqual {
        BinaryOperator::NotEqual
    } else if kind == TokenType::Greater {
        BinaryOperator::Greater
    } else if kind == TokenType::GreaterEqual {
        BinaryOperator::GreaterEqual
    } else if kind == TokenType::Less {
        BinaryOperator::Less
    } else {
        BinaryOperator::LessEqual
    }
}

/// The logical operator a token kind stands for.
pub open spec fn logical_op_of_token(kind: TokenType) -> LogicalOperator {
    if kind == TokenType::And {
        LogicalOperator::And
    } else {
        LogicalOperator::Or
    }
}

impl UnaryOperator {
    /// The operator an operator token stands for; other kinds never reach
    /// this mapping.
    pub fn from_tokentype(kind: TokenType) -> (r: UnaryOperator)
        requires
            is_unary_op_token(kind),
        ensures
            r == unary_op_of_token(kind),
    {
        match kind {
            TokenType::Bang => UnaryOperator::Not,
            _ => UnaryOperator::Negate,
        }
    }
}

impl BinaryOperator {
    /// The operator an operator token stands for; other kinds never reach
    /// this mapping.
    pub fn from_tokentype(kind: TokenType) -> (r: BinaryOperator)
        requires
            is_binary_op_token(kind),
        ensures
            r == binary_op_of_token(kind),
    {
        match kind {
            TokenType::Plus => BinaryOperator::Add,
            TokenType::Minus => BinaryOperator::Subtract,
            TokenType::Star => BinaryOperator::Multiply,
            TokenType::Slash => BinaryOperator::Divide,
            TokenType::EqualEqual => BinaryOperator::Equal,
            TokenType::BangEqual => BinaryOperator::NotEqual,
            TokenType::Greater => BinaryOperator::Greater,
            TokenType::GreaterEqual => BinaryOperator::GreaterEqual,
            TokenType::Less => BinaryOperator::Less,
            _ => BinaryOperator::LessEqual,
        }
    }
}

impl LogicalOperator {
    /// The operator an operator token stands for; other kinds never reach
    /// this mapping.
    pub fn from_tokentype(kind: TokenType) -> (r: LogicalOperator)
        requires
            is_logical_op_token(kind),
        ensures
            r == logical_op_of_token(kind),
    {
        match kind {
            TokenType::And => LogicalOperator::And,
            _ => LogicalOperator::Or,
        }
    }
}

impl Clone for Expression {
    fn clone(&self) -> (r: Expression)
        ensures
            r@ == self@,
        decreases self,
    {
        match self {
            Expression::Number(n) => Expression::Number(*n),
            Expression::Boolean(b) => Expression::Boolean(*b),
            Expression::Void => Expression::Void,
            Expression::Text(s) => Expression::Text(s.clone()),
            Expression::Variable(n) => Expression::Variable(n.clone()),
            Expression::Unary(op, a) => Expression::Unary(*op, Box::new((**a).clone())),
            Expression::Binary(op, a, b) => Expression::Binary(
                *op,
                Box::new((**a).clone()),
                Box::new((**b).clone()),
            ),
            Expression::Logical(op, a, b) => Expression::Logical(
                *op,
                Box::new((**a).clone()),
                Box::new((**b).clone()),
            ),
        }
    }
}

impl Clone for Statement {
    fn clone(&self) -> (r: Statement)
        ensures
            r@ == self@,
        decreases self,
    {
        match self {
            Statement::Expression(e) => Statement::Expression(e.clone()),
            Statement::Print(e) => Statement::Print(e.clone()),
            Statement::Block(ds) => Statement::Block(clone_decls(ds)),
            Statement::If(c, t, e) => Statement::If(
                c.clone(),
                Box::new((**t).clone()),
                match e {
                    Some(s2) => Some(Box::new((**s2).clone())),
                    None => None,
                },
            ),
            Statement::While(c, b) => Statement::While(c.clone(), Box::new((**b).clone())),
            Statement::Range(v, lo, hi, st, b) => Statement::Range(
                v.clone(),
                lo.clone(),
                hi.clone(),
                st.clone(),
                Box::new((**b).clone()),
            ),
            Statement::Procedure(n, body) => Statement::Procedure(n.clone(), clone_decls(body)),
            Statement::ProcedureCall(n) => Statement::ProcedureCall(n.clone()),
        }
    }
}

impl Clone for Declaration {
    fn clone(&self) -> (r: Declaration)
        ensures
            r@ == self@,
        decreases self,
    {
        match self {
            Declaration::Variable(n, e) => Declaration::Variable(n.clone(), e.clone()),
            Declaration::Statement(s) => Declaration::Statement(s.clone()),
        }
    }
}

/// Clones a declaration list, preserving its mirror.
fn clone_decls(v: &Vec<Declaration>) -> (r: Vec<Declaration>)
    ensures
        decls_view(r@) == decls_view(v@),
        r@.len() == v@.len(),
    decreases v@,
{
    let mut r: Vec<Declaration> = Vec::new();
    let n = v.len();
    let mut i: usize = 0;
    while i < n
        invariant
            i <= n,
            n == v@.len(),
            r@.len() == i,
            forall|j: int| 0 <= j < i ==> decl_view(&r@[j]) == decl_view(&v@[j]),
        decreases n - i,
    {
        proof {
            broadcast use vstd::std_specs::vec::axiom_vec_index_decreases;

            assert(decreases_to!(v@ => v@[i as int]));
        }
        r.push(v[i].clone());
        i = i + 1;
    }
    proof {
        lemma_decls_view_eq(r@, v@);
    }
    r
}

/// Lists whose declarations mirror pointwise have the same mirror.
proof fn lemma_decls_view_eq(a: Seq<Declaration>, b: Seq<Declaration>)
    requires
        a.len() == b.len(),
        forall|j: int| 0 <= j < a.len() ==> decl_view(&a[j]) == decl_view(&b[j]),
    ensures
        decls_view(a) == decls_view(b),
    decreases a.len(),
{
    if a.len() > 0 {
        lemma_decls_view_eq(a.subrange(1, a.len() as int), b.subrange(1, b.len() as int));
        assert(decls_view(a) =~= decls_view(b));
    }
}

} // verus!
