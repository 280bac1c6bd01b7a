//! Abstract syntax of C-Lite programs, with a mathematical view of each node.
use vstd::prelude::*;

verus! {

/// The value types of C-Lite.
#[derive(Debug, PartialEq, Eq, Structural, Clone, Copy)]
pub enum Type {
    Int,
    Bool,
}

/// Binary operators, from arithmetic to comparisons.
#[derive(Debug, PartialEq, Eq, Structural, Clone, Copy)]
pub enum BinaryOp {
    Add,
    Sub,
    Mul,
    Div,
    Equal,
    NotEqual,
    Less,
    LessEqual,
    Greater,
    GreaterEqual,
}

#[derive(Debug, PartialEq)]
pub enum Expression {
    IntLiteral(i32),
    BoolLiteral(bool),
    Variable(String),
    Binary(BinaryOp, Box<Expression>, Box<Expression>),
    Call(String, Vec<Expression>),
}

#[derive(Debug, PartialEq)]
pub enum Statement {
    VarDecl(Type, String, Option<Expression>),
    Assign(String, Expression),
    Block(Vec<Statement>),
    If(Expression, Box<Statement>, Option<Box<Statement>>),
    While(Expression, Box<Statement>),
    Return(Option<Expression>),
    PrintInt(Expression),
    Expression(Expression),
}

#[derive(Debug, PartialEq)]
pub struct FunctionDecl {
    pub name: String,
    pub return_type: Type,
    pub params: Vec<(Type, String)>,
    /// A `Statement::Block` when produced by the parser.
    pub body: Statement,
}

#[derive(Debug, PartialEq)]
pub struct Program {
    pub functions: Vec<FunctionDecl>,
}

/// Mathematical model of an expression: names are character sequences.
pub enum SpecExpr {
    IntLiteral(i32),
    BoolLiteral(bool),
    Variable(Seq<char>),
    Binary(BinaryOp, Box<SpecExpr>, Box<SpecExpr>),
    Call(Seq<char>, Seq<SpecExpr>),
}

/// Mathematical model of a statement.
pub enum SpecStmt {
    VarDecl(Type, Seq<char>, Option<SpecExpr>),
    Assign(Seq<char>, SpecExpr),
    Block(Seq<SpecStmt>),
    If(SpecExpr, Box<SpecStmt>, Option<Box<SpecStmt>>),
    While(SpecExpr, Box<SpecStmt>),
    Return(Option<SpecExpr>),
    PrintInt(SpecExpr),
    Expression(SpecExpr),
}

/// Mathematical model of a function declaration.
pub struct SpecFunction {
    pub name: Seq<char>,
    pub return_type: Type,
    pub params: Seq<(Type, Seq<char>)>,
    pub body: SpecStmt,
}

/// Mathematical model of a program.
pub struct SpecProgram {
    pub functions: Seq<SpecFunction>,
}

pub open spec fn expr_view(e: Expression) -> SpecExpr
    decreases e,
{
    match e {
        Expression::IntLiteral(i) => SpecExpr::IntLiteral(i),
        Expression::BoolLiteral(b) => SpecExpr::BoolLiteral(b),
        Expression::Variable(n) => SpecExpr::Variable(n@),
        Expression::Binary(op, l, r) => SpecExpr::Binary(op, Box::new(expr_view(*l)), Box::new(expr_view(*r))),
        Expression::Call(n, args) => SpecExpr::Call(n@, exprs_view(args@)),
    }
}

pub open spec fn exprs_view(s: Seq<Expression>) -> Seq<SpecExpr>
    decreases s,
{
    if s.len() == 0 {
        Seq::empty()
    } else {
        exprs_view(s.drop_last()).push(expr_view(s.last()))
    }
}

pub open spec fn stmt_view(s: Statement) -> SpecStmt
    decreases s,
{
    match s {
        Statement::VarDecl(t, n, init) => SpecStmt::VarDecl(
            t,
            n@,
            match init {
                Some(e) => Some(expr_view(e)),
                None => None,
            },
        ),
        Statement::Assign(n, e) => SpecStmt::Assign(n@, expr_view(e)),
        Statement::Block(ss) => SpecStmt::Block(stmts_view(ss@)),
        Statement::If(c, t, e) => SpecStmt::If(
            expr_view(c),
            Box::new(stmt_view(*t)),
            match e {
                Some(e) => Some(Box::new(stmt_view(*e))),
                None => None,
            },
        ),
        Statement::While(c, b) => SpecStmt::While(expr_view(c), Box::new(stmt_view(*b))),
        Statement::Return(e) => SpecStmt::Return(
            match e {
                Some(e) => Some(expr_view(e)),
                None => None,
            },
        ),
        Statement::PrintInt(e) => SpecStmt::PrintInt(expr_view(e)),
        Statement::Expression(e) => SpecStmt::Expression(expr_view(e)),
    }
}

pub open spec fn stmts_view(s: Seq<Statement>) -> Seq<SpecStmt>
    decreases s,
{
    if s.len() == 0 {
        Seq::empty()
    } else {
        stmts_view(s.drop_last()).push(stmt_view(s.last()))
    }
}

pub open spec fn params_view(s: Seq<(Type, String)>) -> Seq<(Type, Seq<char>)> {
    s.map_values(|p: (Type, String)| (p.0, p.1@))
}

pub open spec fn function_view(f: FunctionDecl) -> SpecFunction {
    SpecFunction {
        name: f.name@,
        return_type: f.return_type,
        params: params_view(f.params@),
        body: stmt_view(f.body),
    }
}

pub open spec fn functions_view(s: Seq<FunctionDecl>) -> Seq<SpecFunction> {
    s.map_values(|f: FunctionDecl| function_view(f))
}

impl View for Expression {
    type V = SpecExpr;

    open spec fn view(&self) -> SpecExpr {
        expr_view(*self)
    }
}

impl View for Statement {
    type V = SpecStmt;

    open spec fn view(&self) -> SpecStmt {
        stmt_view(*self)
    }
}

impl View for FunctionDecl {
    type V = SpecFunction;

    open spec fn view(&self) -> SpecFunction {
        function_view(*self)
    }
}

impl View for Program {
    type V = SpecProgram;

    open spec fn view(&self) -> SpecProgram {
        SpecProgram { functions: functions_view(self.functions@) }
    }
}

#[verifier::loop_isolation(false)]
fn copy_expression(e: &Expression) -> (r: Expression)
    ensures
        r@ == e@,
    decreases e,
{
    match e {
        Expression::IntLiteral(i) => Expression::IntLiteral(*i),
        Expression::BoolLiteral(b) => Expression::BoolLiteral(*b),
        Expression::Variable(n) => Expression::Variable(n.clone()),
        Expression::Binary(op, l, r) => Expression::Binary(
            *op,
            Box::new(copy_expression(l)),
            Box::new(copy_expression(r)),
        ),
        Expression::Call(n, args) => {
            let mut v: Vec<Expression> = Vec::new();
            let mut i: usize = 0;
            while i < args.len()
                invariant
                    i <= args@.len(),
                    v@.len() == i,
                    forall|j: int| 0 <= j < i ==> (#[trigger] v@[j])@ == args@[j]@,
                decreases args@.len() - i,
            {
                proof {
                    assert(decreases_to!(*e => args@[i as int]));
                }
                v.push(copy_expression(&args[i]));
                i = i + 1;
            }
            proof {
                lemma_exprs_view_len(v@);
                lemma_exprs_view_len(args@);
                assert forall|j: int| 0 <= j < v@.len() implies exprs_view(v@)[j] == exprs_view(
                    args@,
                )[j] by {
                    lemma_exprs_view_index(v@, j);
                    lemma_exprs_view_index(args@, j);
                }
                assert(exprs_view(v@) =~= exprs_view(args@));
            }
            Expression::Call(n.clone(), v)
        },
    }
}

fn copy_opt_expression(e: &Option<Expression>) -> (r: Option<Expression>)
    ensures
        match (r, *e) {
            (Some(a), Some(b)) => a@ == b@,
            (None, None) => true,
            _ => false,
        },
{
    match e {
        Some(x) => Some(copy_expression(x)),
        None => None,
    }
}

#[verifier::loop_isolation(false)]
fn copy_statement(s: &Statement) -> (r: Statement)
    ensures
        r@ == s@,
    decreases s,
{
    match s {
        Statement::VarDecl(t, n, init) => Statement::VarDecl(*t, n.clone(), copy_opt_expression(init)),
        Statement::Assign(n, e) => Statement::Assign(n.clone(), copy_expression(e)),
        Statement::Block(ss) => {
            let mut v: Vec<Statement> = Vec::new();
            let mut i: usize = 0;
            while i < ss.len()
                invariant
                    i <= ss@.len(),
                    v@.len() == i,
                    forall|j: int| 0 <= j < i ==> (#[trigger] v@[j])@ == ss@[j]@,
                decreases ss@.len() - i,
            {
                proof {
                    assert(decreases_to!(*s => ss@[i as int]));
                }
                v.push(copy_statement(&ss[i]));
                i = i + 1;
            }
            proof {
                lemma_stmts_view_len(v@);
                lemma_stmts_view_len(ss@);
                assert forall|j: int| 0 <= j < v@.len() implies stmts_view(v@)[j] == stmts_view(
                    ss@,
                )[j] by {
                    lemma_stmts_view_index(v@, j);
                    lemma_stmts_view_index(ss@, j);
                }
                assert(stmts_view(v@) =~= stmts_view(ss@));
            }
            Statement::Block(v)
        },
        Statement::If(c, th, el) => {
            let el2 = match el {
                Some(x) => Some(Box::new(copy_statement(x))),
                None => None,
            };
            Statement::If(copy_expression(c), Box::new(copy_statement(th)), el2)
        },
        Statement::While(c, b) => Statement::While(copy_expression(c), Box::new(copy_statement(b))),
        Statement::Return(e) => Statement::Return(copy_opt_expression(e)),
        Statement::PrintInt(e) => Statement::PrintInt(copy_expression(e)),
        Statement::Expression(e) => Statement::Expression(copy_expression(e)),
    }
}

fn copy_function(f: &FunctionDecl) -> (r: FunctionDecl)
    ensures
        r@ == f@,
{
    let mut params: Vec<(Type, String)> = Vec::new();
    let mut i: usize = 0;
    while i < f.params.len()
        invariant
            i <= f.params@.len(),
            params@.len() == i,
            forall|j: int|
                0 <= j < i ==> (#[trigger] params@[j]).0 == f.params@[j].0 && params@[j].1@
                    == f.params@[j].1@,
        decreases f.params@.len() - i,
    {
        params.push((f.params[i].0, f.params[i].1.clone()));
        i = i + 1;
    }
    assert(params_view(params@) =~= params_view(f.params@));
    FunctionDecl {
        name: f.name.clone(),
        return_type: f.return_type,
        params,
        body: copy_statement(&f.body),
    }
}

impl Clone for Expression {
    fn clone(&self) -> (r: Expression)
        ensures
            r@ == self@,
    {
        copy_expression(self)
    }
}

impl Clone for Statement {
    fn clone(&self) -> (r: Statement)
        ensures
            r@ == self@,
    {
        copy_statement(self)
    }
}

impl Clone for FunctionDecl {
    fn clone(&self) -> (r: FunctionDecl)
        ensures
            r@ == self@,
    {
        copy_function(self)
    }
}

impl Clone for Program {
    fn clone(&self) -> (r: Program)
        ensures
            r@ == self@,
    {
        let mut functions: Vec<FunctionDecl> = Vec::new();
        let mut i: usize = 0;
        while i < self.functions.len()
            invariant
                i <= self.functions@.len(),
                functions@.len() == i,
                forall|j: int| 0 <= j < i ==> (#[trigger] functions@[j])@ == self.functions@[j]@,
            decreases self.functions@.len() - i,
        {
            functions.push(copy_function(&self.functions[i]));
            i = i + 1;
        }
        assert(functions_view(functions@) =~= functions_view(self.functions@));
        Program { functions }
    }
}

/// Appending to a list of expressions appends its model.
pub proof fn lemma_exprs_view_push(s: Seq<Expression>, e: Expression)
    ensures
        exprs_view(s.push(e)) == exprs_view(s).push(expr_view(e)),
{
    assert(s.push(e).drop_last() =~= s);
}

/// Appending to a list of statements appends its model.
pub proof fn lemma_stmts_view_push(s: Seq<Statement>, e: Statement)
    ensures
        stmts_view(s.push(e)) == stmts_view(s).push(stmt_view(e)),
{
    assert(s.push(e).drop_last() =~= s);
}

/// The model of a list of expressions has one entry per expression.
pub proof fn lemma_exprs_view_index(s: Seq<Expression>, i: int)
    requires
        0 <= i < s.len(),
    ensures
        exprs_view(s).len() == s.len(),
        exprs_view(s)[i] == expr_view(s[i]),
    decreases s.len(),
{
    if i < s.len() - 1 {
        lemma_exprs_view_index(s.drop_last(), i);
    } else {
        lemma_exprs_view_len(s.drop_last());
    }
}

pub proof fn lemma_exprs_view_len(s: Seq<Expression>)
    ensures
        exprs_view(s).len() == s.len(),
    decreases s.len(),
{
    if s.len() > 0 {
        lemma_exprs_view_len(s.drop_last());
    }
}

/// The model of a list of statements has one entry per statement.
pub proof fn lemma_stmts_view_index(s: Seq<Statement>, i: int)
    requires
        0 <= i < s.len(),
    ensures
        stmts_view(s).len() == s.len(),
        stmts_view(s)[i] == stmt_view(s[i]),
    decreases s.len(),
{
    if i < s.len() - 1 {
        lemma_stmts_view_index(s.drop_last(), i);
    } else {
        lemma_stmts_view_len(s.drop_last());
    }
}

pub proof fn lemma_stmts_view_len(s: Seq<Statement>)
    ensures
        stmts_view(s).len() == s.len(),
    decreases s.len(),
{
    if s.len() > 0 {
        lemma_stmts_view_len(s.drop_last());
    }
}

} // verus!
