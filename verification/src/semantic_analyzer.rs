//! Scoped symbol tables and type checking of C-Lite programs.
use vstd::prelude::*;
use crate::assoc::{entries_map, find_name, lemma_entries_map, names_distinct};
use crate::text::{nat_text, usize_text};
use crate::ast::{
    exprs_view, lemma_exprs_view_index, lemma_stmts_view_index, stmts_view,
    function_view, functions_view, params_view, BinaryOp, Expression, FunctionDecl, Program,
    SpecExpr, SpecFunction, SpecProgram, SpecStmt, Statement, Type,
};

verus! {

#[derive(Debug, PartialEq)]
pub enum SemanticError {
    VariableNotDeclared(String),
    VariableAlreadyDeclared(String),
    TypeMismatch(Type, Type),
    FunctionNotDeclared(String),
    FunctionAlreadyDeclared(String),
    ArgCountMismatch(String, usize, usize),
    InvalidBinaryOp(BinaryOp, Type, Type),
    InvalidPrintIntType(Type),
    InvalidConditionType(Type),
    MissingReturnValue(String, Type),
}

/// Mathematical model of a semantic error.
pub enum SpecSemanticError {
    VariableNotDeclared(Seq<char>),
    VariableAlreadyDeclared(Seq<char>),
    TypeMismatch(Type, Type),
    FunctionNotDeclared(Seq<char>),
    FunctionAlreadyDeclared(Seq<char>),
    ArgCountMismatch(Seq<char>, nat, nat),
    InvalidBinaryOp(BinaryOp, Type, Type),
    InvalidPrintIntType(Type),
    InvalidConditionType(Type),
    MissingReturnValue(Seq<char>, Type),
}

/// How a type is written in messages (its `Debug` form).
pub open spec fn type_text(t: Type) -> Seq<char> {
    match t {
        Type::Int => "Int"@,
        Type::Bool => "Bool"@,
    }
}

/// How an operator is written in messages (its `Debug` form).
pub open spec fn op_text(op: BinaryOp) -> Seq<char> {
    match op {
        BinaryOp::Add => "Add"@,
        BinaryOp::Sub => "Sub"@,
        BinaryOp::Mul => "Mul"@,
        BinaryOp::Div => "Div"@,
        BinaryOp::Equal => "Equal"@,
        BinaryOp::NotEqual => "NotEqual"@,
        BinaryOp::Less => "Less"@,
        BinaryOp::LessEqual => "LessEqual"@,
        BinaryOp::Greater => "Greater"@,
        BinaryOp::GreaterEqual => "GreaterEqual"@,
    }
}

/// The message of a semantic error.
pub open spec fn semantic_error_text(e: SpecSemanticError) -> Seq<char> {
    match e {
        SpecSemanticError::VariableNotDeclared(n) => "Variable '"@ + n + "' not declared"@,
        SpecSemanticError::VariableAlreadyDeclared(n) => "Variable '"@ + n
            + "' already declared in this scope"@,
        SpecSemanticError::TypeMismatch(a, b) => "Type mismatch: expected "@ + type_text(a)
            + ", found "@ + type_text(b),
        SpecSemanticError::FunctionNotDeclared(n) => "Function '"@ + n + "' not declared"@,
        SpecSemanticError::FunctionAlreadyDeclared(n) => "Function '"@ + n + "' already declared"@,
        SpecSemanticError::ArgCountMismatch(n, a, b) => "Argument count mismatch for function '"@
            + n + "': expected "@ + nat_text(a) + ", found "@ + nat_text(b),
        SpecSemanticError::InvalidBinaryOp(op, a, b) => "Invalid operation '"@ + op_text(op)
            + "' on types "@ + type_text(a) + " and "@ + type_text(b),
        SpecSemanticError::InvalidPrintIntType(t) => "PrintInt expects Int, found "@ + type_text(t),
        SpecSemanticError::InvalidConditionType(t) => "Condition expects Bool, found "@ + type_text(
            t,
        ),
        SpecSemanticError::MissingReturnValue(n, t) => "Function '"@ + n
            + "' must return a value of type "@ + type_text(t),
    }
}

fn type_label(t: Type) -> (r: &'static str)
    ensures
        r@ == type_text(t),
{
    match t {
        Type::Int => "Int",
        Type::Bool => "Bool",
    }
}

fn op_label(op: BinaryOp) -> (r: &'static str)
    ensures
        r@ == op_text(op),
{
    match op {
        BinaryOp::Add => "Add",
        BinaryOp::Sub => "Sub",
        BinaryOp::Mul => "Mul",
        BinaryOp::Div => "Div",
        BinaryOp::Equal => "Equal",
        BinaryOp::NotEqual => "NotEqual",
        BinaryOp::Less => "Less",
        BinaryOp::LessEqual => "LessEqual",
        BinaryOp::Greater => "Greater",
        BinaryOp::GreaterEqual => "GreaterEqual",
    }
}

impl SemanticError {
    /// The message that reports this error.
    pub fn message(&self) -> (s: String)
        ensures
            s@ == semantic_error_text(self@),
    {
        let mut s = String::new();
        match self {
            SemanticError::VariableNotDeclared(n) => {
                s.append("Variable '");
                s.append(n.as_str());
                s.append("' not declared");
            },
            SemanticError::VariableAlreadyDeclared(n) => {
                s.append("Variable '");
                s.append(n.as_str());
                s.append("' already declared in this scope");
            },
            SemanticError::TypeMismatch(a, b) => {
                s.append("Type mismatch: expected ");
                s.append(type_label(*a));
                s.append(", found ");
                s.append(type_label(*b));
            },
            SemanticError::FunctionNotDeclared(n) => {
                s.append("Function '");
                s.append(n.as_str());
                s.append("' not declared");
            },
            SemanticError::FunctionAlreadyDeclared(n) => {
                s.append("Function '");
                s.append(n.as_str());
                s.append("' already declared");
            },
            SemanticError::ArgCountMismatch(n, a, b) => {
                s.append("Argument count mismatch for function '");
                s.append(n.as_str());
                s.append("': expected ");
                s.append(usize_text(*a).as_str());
                s.append(", found ");
                s.append(usize_text(*b).as_str());
            },
            SemanticError::InvalidBinaryOp(op, a, b) => {
                s.append("Invalid operation '");
                s.append(op_label(*op));
                s.append("' on types ");
                s.append(type_label(*a));
                s.append(" and ");
                s.append(type_label(*b));
            },
            SemanticError::InvalidPrintIntType(t) => {
                s.append("PrintInt expects Int, found ");
                s.append(type_label(*t));
            },
            SemanticError::InvalidConditionType(t) => {
                s.append("Condition expects Bool, found ");
                s.append(type_label(*t));
            },
            SemanticError::MissingReturnValue(n, t) => {
                s.append("Function '");
                s.append(n.as_str());
                s.append("' must return a value of type ");
                s.append(type_label(*t));
            },
        }
        assert(s@ =~= semantic_error_text(self@));
        s
    }
}

impl View for SemanticError {
    type V = SpecSemanticError;

    open spec fn view(&self) -> SpecSemanticError {
        match self {
            SemanticError::VariableNotDeclared(n) => SpecSemanticError::VariableNotDeclared(n@),
            SemanticError::VariableAlreadyDeclared(n) => SpecSemanticError::VariableAlreadyDeclared(
                n@,
            ),
            SemanticError::TypeMismatch(a, b) => SpecSemanticError::TypeMismatch(*a, *b),
            SemanticError::FunctionNotDeclared(n) => SpecSemanticError::FunctionNotDeclared(n@),
            SemanticError::FunctionAlreadyDeclared(n) => SpecSemanticError::FunctionAlreadyDeclared(
                n@,
            ),
            SemanticError::ArgCountMismatch(n, a, b) => SpecSemanticError::ArgCountMismatch(
                n@,
                *a as nat,
                *b as nat,
            ),
            SemanticError::InvalidBinaryOp(op, a, b) => SpecSemanticError::InvalidBinaryOp(
                *op,
                *a,
                *b,
            ),
            SemanticError::InvalidPrintIntType(t) => SpecSemanticError::InvalidPrintIntType(*t),
            SemanticError::InvalidConditionType(t) => SpecSemanticError::InvalidConditionType(*t),
            SemanticError::MissingReturnValue(n, t) => SpecSemanticError::MissingReturnValue(
                n@,
                *t,
            ),
        }
    }
}

/// The nested scopes of variables, innermost last.
pub type Scopes = Seq<Map<Seq<char>, Type>>;

/// A function's signature: its return type and its parameter types.
pub type Signature = (Type, Seq<Type>);

/// The declared functions, by name.
pub type Signatures = Map<Seq<char>, Signature>;

/// The type of a variable in the innermost scope that declares it.
pub open spec fn lookup(scopes: Scopes, name: Seq<char>) -> Option<Type>
    decreases scopes.len(),
{
    if scopes.len() == 0 {
        None
    } else if scopes.last().contains_key(name) {
        Some(scopes.last()[name])
    } else {
        lookup(scopes.drop_last(), name)
    }
}

/// Declares a variable in the innermost scope, where it must be new.
pub open spec fn define(scopes: Scopes, name: Seq<char>, ty: Type) -> (
    Result<(), SpecSemanticError>,
    Scopes,
) {
    if scopes.last().contains_key(name) {
        (Err(SpecSemanticError::VariableAlreadyDeclared(name)), scopes)
    } else {
        (Ok(()), scopes.update(scopes.len() - 1, scopes.last().insert(name, ty)))
    }
}

/// The type of a binary operation on operands of types `l` and `r`: arithmetic
/// and ordering need two integers, (in)equality two operands of one type.
pub open spec fn binary_type(op: BinaryOp, l: Type, r: Type) -> Result<Type, SpecSemanticError> {
    match op {
        BinaryOp::Add | BinaryOp::Sub | BinaryOp::Mul | BinaryOp::Div => if l == Type::Int && r
            == Type::Int {
            Ok(Type::Int)
        } else {
            Err(SpecSemanticError::InvalidBinaryOp(op, l, r))
        },
        BinaryOp::Less | BinaryOp::LessEqual | BinaryOp::Greater | BinaryOp::GreaterEqual => if l
            == Type::Int && r == Type::Int {
            Ok(Type::Bool)
        } else {
            Err(SpecSemanticError::InvalidBinaryOp(op, l, r))
        },
        BinaryOp::Equal | BinaryOp::NotEqual => if l == r {
            Ok(Type::Bool)
        } else {
            Err(SpecSemanticError::InvalidBinaryOp(op, l, r))
        },
    }
}

/// The type of an expression, or the first error met, left to right.
pub open spec fn check_expr(sigs: Signatures, scopes: Scopes, e: SpecExpr) -> Result<
    Type,
    SpecSemanticError,
>
    decreases e, 0nat,
{
    match e {
        SpecExpr::IntLiteral(_) => Ok(Type::Int),
        SpecExpr::BoolLiteral(_) => Ok(Type::Bool),
        SpecExpr::Variable(name) => match lookup(scopes, name) {
            Some(t) => Ok(t),
            None => Err(SpecSemanticError::VariableNotDeclared(name)),
        },
        SpecExpr::Binary(op, l, r) => match check_expr(sigs, scopes, *l) {
            Err(err) => Err(err),
            Ok(lt) => match check_expr(sigs, scopes, *r) {
                Err(err) => Err(err),
                Ok(rt) => binary_type(op, lt, rt),
            },
        },
        SpecExpr::Call(name, args) => if !sigs.contains_key(name) {
            Err(SpecSemanticError::FunctionNotDeclared(name))
        } else {
            let (ret, params) = sigs[name];
            if args.len() != params.len() {
                Err(SpecSemanticError::ArgCountMismatch(name, params.len(), args.len()))
            } else {
                match check_args(sigs, scopes, args, params, 0) {
                    Err(err) => Err(err),
                    Ok(_) => Ok(ret),
                }
            }
        },
    }
}

/// Checks the arguments from index `i` on against the parameter types.
pub open spec fn check_args(
    sigs: Signatures,
    scopes: Scopes,
    args: Seq<SpecExpr>,
    params: Seq<Type>,
    i: nat,
) -> Result<(), SpecSemanticError>
    decreases args, args.len() - i,
{
    if i >= args.len() || i >= params.len() {
        Ok(())
    } else {
        match check_expr(sigs, scopes, args[i as int]) {
            Err(err) => Err(err),
            Ok(t) => if t != params[i as int] {
                Err(SpecSemanticError::TypeMismatch(params[i as int], t))
            } else {
                check_args(sigs, scopes, args, params, i + 1)
            },
        }
    }
}

/// Checks a statement in functions returning `ret`, giving the outcome and the
/// scopes afterwards (on an error: as they stood when it was found).
pub open spec fn check_stmt(sigs: Signatures, ret: Target, scopes: Scopes, s: SpecStmt) -> (
    Result<(), SpecSemanticError>,
    Scopes,
)
    decreases s, 0nat,
{
    match s {
        SpecStmt::VarDecl(ty, name, init) => match init {
            Some(e) => match check_expr(sigs, scopes, e) {
                Err(err) => (Err(err), scopes),
                Ok(t) => if t != ty {
                    (Err(SpecSemanticError::TypeMismatch(ty, t)), scopes)
                } else {
                    define(scopes, name, ty)
                },
            },
            None => define(scopes, name, ty),
        },
        SpecStmt::Assign(name, e) => match lookup(scopes, name) {
            None => (Err(SpecSemanticError::VariableNotDeclared(name)), scopes),
            Some(vt) => match check_expr(sigs, scopes, e) {
                Err(err) => (Err(err), scopes),
                Ok(t) => if vt != t {
                    (Err(SpecSemanticError::TypeMismatch(vt, t)), scopes)
                } else {
                    (Ok(()), scopes)
                },
            },
        },
        SpecStmt::Block(ss) => {
            let (r, after) = check_block(sigs, ret, scopes.push(Map::empty()), ss, 0);
            match r {
                Err(err) => (Err(err), after),
                Ok(_) => (Ok(()), after.drop_last()),
            }
        },
        SpecStmt::If(cond, th, el) => match check_expr(sigs, scopes, cond) {
            Err(err) => (Err(err), scopes),
            Ok(ct) => if ct != Type::Bool {
                (Err(SpecSemanticError::InvalidConditionType(ct)), scopes)
            } else {
                let (r, after) = check_stmt(sigs, ret, scopes, *th);
                match r {
                    Err(err) => (Err(err), after),
                    Ok(_) => match el {
                        Some(e) => check_stmt(sigs, ret, after, *e),
                        None => (Ok(()), after),
                    },
                }
            },
        },
        SpecStmt::While(cond, body) => match check_expr(sigs, scopes, cond) {
            Err(err) => (Err(err), scopes),
            Ok(ct) => if ct != Type::Bool {
                (Err(SpecSemanticError::InvalidConditionType(ct)), scopes)
            } else {
                check_stmt(sigs, ret, scopes, *body)
            },
        },
        SpecStmt::Return(e) => match e {
            Some(e) => match check_expr(sigs, scopes, e) {
                Err(err) => (Err(err), scopes),
                Ok(t) => if t != ret.1 {
                    (Err(SpecSemanticError::TypeMismatch(ret.1, t)), scopes)
                } else {
                    (Ok(()), scopes)
                },
            },
            None => (Err(SpecSemanticError::MissingReturnValue(ret.0, ret.1)), scopes),
        },
        SpecStmt::PrintInt(e) => match check_expr(sigs, scopes, e) {
            Err(err) => (Err(err), scopes),
            Ok(t) => if t != Type::Int {
                (Err(SpecSemanticError::InvalidPrintIntType(t)), scopes)
            } else {
                (Ok(()), scopes)
            },
        },
        SpecStmt::Expression(e) => match check_expr(sigs, scopes, e) {
            Err(err) => (Err(err), scopes),
            Ok(_) => (Ok(()), scopes),
        },
    }
}

/// Checks the statements of a block from index `i` on.
pub open spec fn check_block(
    sigs: Signatures,
    ret: Target,
    scopes: Scopes,
    ss: Seq<SpecStmt>,
    i: nat,
) -> (Result<(), SpecSemanticError>, Scopes)
    decreases ss, ss.len() - i,
{
    if i >= ss.len() {
        (Ok(()), scopes)
    } else {
        let (r, after) = check_stmt(sigs, ret, scopes, ss[i as int]);
        match r {
            Err(err) => (Err(err), after),
            Ok(_) => check_block(sigs, ret, after, ss, i + 1),
        }
    }
}

/// Declaring succeeds exactly when the innermost scope lacks the name. After
/// it, the name looks up to the declared type and every other name looks up as
/// before; a refused declaration leaves the scopes as they were.
pub proof fn lemma_define_then_lookup(scopes: Scopes, name: Seq<char>, ty: Type, other: Seq<char>)
    requires
        scopes.len() >= 1,
    ensures
        define(scopes, name, ty).0 is Ok <==> !scopes.last().contains_key(name),
        define(scopes, name, ty).0 is Ok ==> lookup(define(scopes, name, ty).1, name) == Some(ty),
        define(scopes, name, ty).0 is Ok && other != name ==> lookup(
            define(scopes, name, ty).1,
            other,
        ) == lookup(scopes, other),
        define(scopes, name, ty).0 is Err ==> define(scopes, name, ty).1 == scopes,
{
    let after = define(scopes, name, ty).1;
    if !scopes.last().contains_key(name) {
        assert(after.drop_last() =~= scopes.drop_last());
    }
}

proof fn lemma_args_typed(
    sigs: Signatures,
    scopes: Scopes,
    args: Seq<SpecExpr>,
    params: Seq<Type>,
    i: nat,
)
    requires
        args.len() == params.len(),
        check_args(sigs, scopes, args, params, i) is Ok,
    ensures
        forall|j: int|
            i <= j < args.len() ==> check_expr(sigs, scopes, #[trigger] args[j]) == Ok::<
                Type,
                SpecSemanticError,
            >(params[j]),
    decreases args.len() - i,
{
    if i < args.len() {
        lemma_args_typed(sigs, scopes, args, params, i + 1);
    }
}

/// The typing rules of expressions. An expression that checks has the type its
/// form gives it: a variable the type it was declared with; arithmetic `int`
/// from two `int` operands; an ordering comparison `bool` from two `int`
/// operands; (in)equality `bool` from two operands of one type; and a call the
/// return type registered for the function called, with one argument of each
/// declared parameter type.
pub proof fn lemma_expression_typing(sigs: Signatures, scopes: Scopes, e: SpecExpr)
    ensures
        check_expr(sigs, scopes, e) matches Ok(t) ==> match e {
            SpecExpr::IntLiteral(_) => t == Type::Int,
            SpecExpr::BoolLiteral(_) => t == Type::Bool,
            SpecExpr::Variable(n) => lookup(scopes, n) == Some(t),
            SpecExpr::Binary(op, l, r) => {
                let lt = check_expr(sigs, scopes, *l);
                let rt = check_expr(sigs, scopes, *r);
                match op {
                    BinaryOp::Add | BinaryOp::Sub | BinaryOp::Mul | BinaryOp::Div => {
                        &&& lt == Ok::<Type, SpecSemanticError>(Type::Int)
                        &&& rt == Ok::<Type, SpecSemanticError>(Type::Int)
                        &&& t == Type::Int
                    },
                    BinaryOp::Less | BinaryOp::LessEqual | BinaryOp::Greater
                    | BinaryOp::GreaterEqual => {
                        &&& lt == Ok::<Type, SpecSemanticError>(Type::Int)
                        &&& rt == Ok::<Type, SpecSemanticError>(Type::Int)
                        &&& t == Type::Bool
                    },
                    BinaryOp::Equal | BinaryOp::NotEqual => {
                        &&& lt is Ok
                        &&& lt == rt
                        &&& t == Type::Bool
                    },
                }
            },
            SpecExpr::Call(name, args) => {
                &&& sigs.contains_key(name)
                &&& t == sigs[name].0
                &&& args.len() == sigs[name].1.len()
                &&& forall|j: int|
                    0 <= j < args.len() ==> check_expr(sigs, scopes, #[trigger] args[j]) == Ok::<
                        Type,
                        SpecSemanticError,
                    >(sigs[name].1[j])
            },
        },
{
    match e {
        SpecExpr::Call(name, args) => {
            if sigs.contains_key(name) && args.len() == sigs[name].1.len() {
                if check_args(sigs, scopes, args, sigs[name].1, 0) is Ok {
                    lemma_args_typed(sigs, scopes, args, sigs[name].1, 0);
                }
            }
        },
        _ => {},
    }
}

/// The typing rules of statements. A statement that checks obeys its rule: a
/// declaration's initializer has the declared type, and the name is then
/// declared with that type in the innermost scope; an assignment's value has
/// the variable's type; conditions are `bool`; `printInt` takes an `int`; and
/// `return` gives a value of the function's return type (a bare `return`
/// never checks).
pub proof fn lemma_statement_typing(sigs: Signatures, ret: Target, scopes: Scopes, s: SpecStmt)
    requires
        scopes.len() >= 1,
    ensures
        check_stmt(sigs, ret, scopes, s).0 is Ok ==> match s {
            SpecStmt::VarDecl(ty, name, init) => {
                &&& (init matches Some(e) ==> check_expr(sigs, scopes, e) == Ok::<
                    Type,
                    SpecSemanticError,
                >(ty))
                &&& !scopes.last().contains_key(name)
                &&& lookup(check_stmt(sigs, ret, scopes, s).1, name) == Some(ty)
            },
            SpecStmt::Assign(name, e) => {
                &&& lookup(scopes, name) is Some
                &&& check_expr(sigs, scopes, e) == Ok::<Type, SpecSemanticError>(
                    lookup(scopes, name)->Some_0,
                )
            },
            SpecStmt::If(c, _, _) => check_expr(sigs, scopes, c) == Ok::<Type, SpecSemanticError>(
                Type::Bool,
            ),
            SpecStmt::While(c, _) => check_expr(sigs, scopes, c) == Ok::<
                Type,
                SpecSemanticError,
            >(Type::Bool),
            SpecStmt::PrintInt(e) => check_expr(sigs, scopes, e) == Ok::<Type, SpecSemanticError>(
                Type::Int,
            ),
            SpecStmt::Return(e) => e matches Some(v) && check_expr(sigs, scopes, v) == Ok::<
                Type,
                SpecSemanticError,
            >(ret.1),
            SpecStmt::Expression(e) => check_expr(sigs, scopes, e) is Ok,
            SpecStmt::Block(_) => true,
        },
{
    match s {
        SpecStmt::VarDecl(ty, name, init) => {
            lemma_define_then_lookup(scopes, name, ty, name);
        },
        _ => {},
    }
}

/// Names are looked up innermost scope first: an inner declaration hides an
/// outer one, and a name the inner scope lacks is looked up outside it.
pub proof fn lemma_lookup_innermost_first(scopes: Scopes, inner: Map<Seq<char>, Type>, name: Seq<char>)
    ensures
        inner.contains_key(name) ==> lookup(scopes.push(inner), name) == Some(inner[name]),
        !inner.contains_key(name) ==> lookup(scopes.push(inner), name) == lookup(scopes, name),
        lookup(Seq::<Map<Seq<char>, Type>>::empty(), name) is None,
{
    assert(scopes.push(inner).drop_last() =~= scopes);
}

proof fn lemma_define_params_fresh(scopes: Scopes, params: Seq<(Type, Seq<char>)>, i: nat)
    requires
        scopes.len() >= 1,
    ensures
        define_params(scopes, params, i).0 is Ok ==> forall|j: int|
            i <= j < params.len() ==> !scopes.last().contains_key(#[trigger] params[j].1),
    decreases params.len() - i,
{
    if i < params.len() {
        let (r, after) = define(scopes, params[i as int].1, params[i as int].0);
        if r is Ok {
            lemma_define_params_fresh(after, params, i + 1);
            assert(after.last() == scopes.last().insert(params[i as int].1, params[i as int].0));
        }
    }
}

proof fn lemma_define_params_lookup(scopes: Scopes, params: Seq<(Type, Seq<char>)>, i: nat)
    requires
        scopes.len() >= 1,
    ensures
        define_params(scopes, params, i).0 is Ok ==> forall|j: int|
            i <= j < params.len() ==> lookup(define_params(scopes, params, i).1, #[trigger] params[j].1)
                == Some(params[j].0),
        define_params(scopes, params, i).0 is Ok ==> forall|k: Seq<char>|
            (forall|j: int| i <= j < params.len() ==> #[trigger] params[j].1 != k) ==> lookup(
                define_params(scopes, params, i).1,
                k,
            ) == lookup(scopes, k),
    decreases params.len() - i,
{
    if i < params.len() {
        let n = params[i as int].1;
        let t = params[i as int].0;
        let (r, after) = define(scopes, n, t);
        if r is Ok {
            lemma_define_params_lookup(after, params, i + 1);
            lemma_define_params_fresh(after, params, i + 1);
            lemma_define_then_lookup(scopes, n, t, n);
            assert forall|k: Seq<char>| k != n implies lookup(after, k) == lookup(scopes, k) by {
                lemma_define_then_lookup(scopes, n, t, k);
            }
            assert(after.last().contains_key(n));
            assert(after.len() == scopes.len());
        }
    }
}

/// Declaring a function's parameters, when it succeeds, makes each parameter
/// name look up to the type it was declared with.
pub proof fn lemma_parameters_typed(scopes: Scopes, params: Seq<(Type, Seq<char>)>)
    requires
        scopes.len() >= 1,
    ensures
        define_params(scopes.push(Map::empty()), params, 0).0 is Ok ==> forall|j: int|
            0 <= j < params.len() ==> lookup(
                define_params(scopes.push(Map::empty()), params, 0).1,
                #[trigger] params[j].1,
            ) == Some(params[j].0),
{
    lemma_define_params_lookup(scopes.push(Map::empty()), params, 0);
}

/// What `return` statements are checked against: the name and the return type
/// of the function being checked.
pub type Target = (Seq<char>, Type);

/// Whether a statement contains a `return` anywhere inside it.
pub open spec fn stmt_has_return(s: SpecStmt) -> bool
    decreases s, 0nat,
{
    match s {
        SpecStmt::Return(_) => true,
        SpecStmt::Block(ss) => block_has_return(ss, 0),
        SpecStmt::If(_, th, el) => stmt_has_return(*th) || match el {
            Some(e) => stmt_has_return(*e),
            None => false,
        },
        SpecStmt::While(_, body) => stmt_has_return(*body),
        _ => false,
    }
}

/// Whether a statement of a block, from index `i` on, contains a `return`.
pub open spec fn block_has_return(ss: Seq<SpecStmt>, i: nat) -> bool
    decreases ss, ss.len() - i,
{
    i < ss.len() && (stmt_has_return(ss[i as int]) || block_has_return(ss, i + 1))
}

/// What `return` statements are checked against: the function being checked,
/// or, where none is set, an unnamed `int` function (no `return` is then checked).
pub open spec fn expected_return(r: Option<Target>) -> Target {
    match r {
        Some(t) => t,
        None => (Seq::empty(), Type::Int),
    }
}

/// Checking a statement without `return` does not depend on the return type.
pub proof fn lemma_check_stmt_ignores_ret(
    sigs: Signatures,
    r1: Target,
    r2: Target,
    scopes: Scopes,
    s: SpecStmt,
)
    requires
        !stmt_has_return(s),
    ensures
        check_stmt(sigs, r1, scopes, s) == check_stmt(sigs, r2, scopes, s),
    decreases s, 0nat,
{
    match s {
        SpecStmt::Block(ss) => lemma_check_block_ignores_ret(
            sigs,
            r1,
            r2,
            scopes.push(Map::empty()),
            ss,
            0,
        ),
        SpecStmt::If(_, th, el) => {
            lemma_check_stmt_ignores_ret(sigs, r1, r2, scopes, *th);
            let after = check_stmt(sigs, r1, scopes, *th).1;
            match el {
                Some(e) => lemma_check_stmt_ignores_ret(sigs, r1, r2, after, *e),
                None => {},
            }
        },
        SpecStmt::While(_, body) => lemma_check_stmt_ignores_ret(sigs, r1, r2, scopes, *body),
        _ => {},
    }
}

pub proof fn lemma_check_block_ignores_ret(
    sigs: Signatures,
    r1: Target,
    r2: Target,
    scopes: Scopes,
    ss: Seq<SpecStmt>,
    i: nat,
)
    requires
        !block_has_return(ss, i),
    ensures
        check_block(sigs, r1, scopes, ss, i) == check_block(sigs, r2, scopes, ss, i),
    decreases ss, ss.len() - i,
{
    if i < ss.len() {
        lemma_check_stmt_ignores_ret(sigs, r1, r2, scopes, ss[i as int]);
        let after = check_stmt(sigs, r1, scopes, ss[i as int]).1;
        lemma_check_block_ignores_ret(sigs, r1, r2, after, ss, i + 1);
    }
}

/// Declares the parameters from index `i` on.
pub open spec fn define_params(scopes: Scopes, params: Seq<(Type, Seq<char>)>, i: nat) -> (
    Result<(), SpecSemanticError>,
    Scopes,
)
    decreases params.len() - i,
{
    if i >= params.len() {
        (Ok(()), scopes)
    } else {
        let (r, after) = define(scopes, params[i as int].1, params[i as int].0);
        match r {
            Err(err) => (Err(err), after),
            Ok(_) => define_params(after, params, i + 1),
        }
    }
}

/// Checks a function: its parameters and body share one new scope.
pub open spec fn check_function(sigs: Signatures, scopes: Scopes, f: SpecFunction) -> (
    Result<(), SpecSemanticError>,
    Scopes,
) {
    let (r, after_params) = define_params(scopes.push(Map::empty()), f.params, 0);
    match r {
        Err(err) => (Err(err), after_params),
        Ok(_) => {
            let (r2, after_body) = check_stmt(sigs, (f.name, f.return_type), after_params, f.body);
            match r2 {
                Err(err) => (Err(err), after_body),
                Ok(_) => (Ok(()), after_body.drop_last()),
            }
        },
    }
}

/// The signature that a function declares.
pub open spec fn signature_of(f: SpecFunction) -> Signature {
    (f.return_type, f.params.map_values(|p: (Type, Seq<char>)| p.0))
}

/// Registers the signatures of the functions from index `i` on; names must be new.
pub open spec fn register_functions(sigs: Signatures, fs: Seq<SpecFunction>, i: nat) -> (
    Result<(), SpecSemanticError>,
    Signatures,
)
    decreases fs.len() - i,
{
    if i >= fs.len() {
        (Ok(()), sigs)
    } else if sigs.contains_key(fs[i as int].name) {
        (Err(SpecSemanticError::FunctionAlreadyDeclared(fs[i as int].name)), sigs)
    } else {
        register_functions(sigs.insert(fs[i as int].name, signature_of(fs[i as int])), fs, i + 1)
    }
}

/// The analyzer's state: scopes, known functions, and the name and return type
/// of the function checked last.
pub struct AnalyzerState {
    pub scopes: Scopes,
    pub functions: Signatures,
    pub current: Option<Target>,
}

/// Checks the functions from index `i` on, in order.
pub open spec fn check_functions(st: AnalyzerState, fs: Seq<SpecFunction>, i: nat) -> (
    Result<(), SpecSemanticError>,
    AnalyzerState,
)
    decreases fs.len() - i,
{
    if i >= fs.len() {
        (Ok(()), st)
    } else {
        let (r, scopes) = check_function(st.functions, st.scopes, fs[i as int]);
        let st2 = AnalyzerState {
            scopes,
            functions: st.functions,
            current: Some((fs[i as int].name, fs[i as int].return_type)),
        };
        match r {
            Err(err) => (Err(err), st2),
            Ok(_) => check_functions(st2, fs, i + 1),
        }
    }
}

/// Analyzes a program: first every signature is registered, so that functions
/// may call ones declared later, then every function is checked in order.
pub open spec fn analyze_program(st: AnalyzerState, p: SpecProgram) -> (
    Result<(), SpecSemanticError>,
    AnalyzerState,
) {
    let (r, functions) = register_functions(st.functions, p.functions, 0);
    let st1 = AnalyzerState { scopes: st.scopes, functions, current: st.current };
    match r {
        Err(err) => (Err(err), st1),
        Ok(_) => check_functions(st1, p.functions, 0),
    }
}

/// Only the innermost scope may have changed, and the depth is the same.
pub open spec fn frame_kept(before: Scopes, after: Scopes) -> bool {
    &&& after.len() == before.len()
    &&& forall|j: int| 0 <= j < before.len() - 1 ==> after[j] == before[j]
}

/// A statement that checks leaves every scope but the innermost as it was.
pub proof fn lemma_check_stmt_frame(sigs: Signatures, ret: Target, scopes: Scopes, s: SpecStmt)
    requires
        scopes.len() >= 1,
    ensures
        check_stmt(sigs, ret, scopes, s).0 is Ok ==> frame_kept(
            scopes,
            check_stmt(sigs, ret, scopes, s).1,
        ),
    decreases s, 0nat,
{
    match s {
        SpecStmt::Block(ss) => {
            let inner = scopes.push(Map::empty());
            lemma_check_block_frame(sigs, ret, inner, ss, 0);
            let (r, after) = check_block(sigs, ret, inner, ss, 0);
            if r is Ok {
                assert(after.drop_last() =~= scopes);
            }
        },
        SpecStmt::If(cond, th, el) => {
            lemma_check_stmt_frame(sigs, ret, scopes, *th);
            let (r, after) = check_stmt(sigs, ret, scopes, *th);
            if r is Ok {
                match el {
                    Some(e) => {
                        lemma_check_stmt_frame(sigs, ret, after, *e);
                    },
                    None => {},
                }
            }
        },
        SpecStmt::While(cond, body) => {
            lemma_check_stmt_frame(sigs, ret, scopes, *body);
        },
        _ => {},
    }
}

/// The statements of a block that check leave every scope but the innermost as it was.
pub proof fn lemma_check_block_frame(
    sigs: Signatures,
    ret: Target,
    scopes: Scopes,
    ss: Seq<SpecStmt>,
    i: nat,
)
    requires
        scopes.len() >= 1,
    ensures
        check_block(sigs, ret, scopes, ss, i).0 is Ok ==> frame_kept(
            scopes,
            check_block(sigs, ret, scopes, ss, i).1,
        ),
    decreases ss, ss.len() - i,
{
    if i < ss.len() {
        lemma_check_stmt_frame(sigs, ret, scopes, ss[i as int]);
        let (r, after) = check_stmt(sigs, ret, scopes, ss[i as int]);
        if r is Ok {
            lemma_check_block_frame(sigs, ret, after, ss, i + 1);
        }
    }
}

/// Declaring parameters that succeeds changes only the innermost scope.
pub proof fn lemma_define_params_frame(scopes: Scopes, params: Seq<(Type, Seq<char>)>, i: nat)
    requires
        scopes.len() >= 1,
    ensures
        define_params(scopes, params, i).0 is Ok ==> frame_kept(
            scopes,
            define_params(scopes, params, i).1,
        ),
    decreases params.len() - i,
{
    if i < params.len() {
        let (r, after) = define(scopes, params[i as int].1, params[i as int].0);
        if r is Ok {
            lemma_define_params_frame(after, params, i + 1);
        }
    }
}

/// A block that checks leaves the scopes exactly as they were before it:
/// its declarations live in its own scope, which closes with it.
pub proof fn lemma_block_restores_scopes(
    sigs: Signatures,
    ret: Target,
    scopes: Scopes,
    ss: Seq<SpecStmt>,
)
    requires
        scopes.len() >= 1,
    ensures
        check_stmt(sigs, ret, scopes, SpecStmt::Block(ss)).0 is Ok ==> check_stmt(
            sigs,
            ret,
            scopes,
            SpecStmt::Block(ss),
        ).1 == scopes,
{
    lemma_check_stmt_frame(sigs, ret, scopes, SpecStmt::Block(ss));
    let inner = scopes.push(Map::empty());
    lemma_check_block_frame(sigs, ret, inner, ss, 0);
    let (r, after) = check_block(sigs, ret, inner, ss, 0);
    if r is Ok {
        assert(after.drop_last() =~= scopes);
    }
}

/// A function that checks leaves the scopes exactly as they were: its
/// parameters and locals live in scopes that close with it.
pub proof fn lemma_function_restores_scopes(sigs: Signatures, scopes: Scopes, f: SpecFunction)
    requires
        scopes.len() >= 1,
    ensures
        check_function(sigs, scopes, f).0 is Ok ==> check_function(sigs, scopes, f).1 == scopes,
{
    let inner = scopes.push(Map::empty());
    lemma_define_params_frame(inner, f.params, 0);
    let (r, after_params) = define_params(inner, f.params, 0);
    if r is Ok {
        lemma_check_stmt_frame(sigs, (f.name, f.return_type), after_params, f.body);
        let (r2, after_body) = check_stmt(sigs, (f.name, f.return_type), after_params, f.body);
        if r2 is Ok {
            assert(after_body.drop_last() =~= scopes);
        }
    }
}

proof fn lemma_check_functions_restores(st: AnalyzerState, fs: Seq<SpecFunction>, i: nat)
    requires
        st.scopes.len() >= 1,
    ensures
        check_functions(st, fs, i).0 is Ok ==> check_functions(st, fs, i).1.scopes == st.scopes,
        check_functions(st, fs, i).1.functions == st.functions,
    decreases fs.len() - i,
{
    if i < fs.len() {
        lemma_function_restores_scopes(st.functions, st.scopes, fs[i as int]);
        let (r, scopes) = check_function(st.functions, st.scopes, fs[i as int]);
        let st2 = AnalyzerState {
            scopes,
            functions: st.functions,
            current: Some((fs[i as int].name, fs[i as int].return_type)),
        };
        if r is Ok {
            lemma_check_functions_restores(st2, fs, i + 1);
        }
    }
}

/// Analysis that succeeds leaves the scopes as it found them, and keeps every
/// signature it registered.
pub proof fn lemma_analysis_restores_scopes(st: AnalyzerState, p: SpecProgram)
    requires
        st.scopes.len() >= 1,
    ensures
        analyze_program(st, p).0 is Ok ==> analyze_program(st, p).1.scopes == st.scopes,
        analyze_program(st, p).0 is Ok ==> analyze_program(st, p).1.functions
            == register_functions(st.functions, p.functions, 0).1,
{
    let (r, functions) = register_functions(st.functions, p.functions, 0);
    let st1 = AnalyzerState { scopes: st.scopes, functions, current: st.current };
    if r is Ok {
        lemma_check_functions_restores(st1, p.functions, 0);
    }
}

proof fn lemma_register_facts(sigs: Signatures, fs: Seq<SpecFunction>, i: nat)
    ensures
        sigs.dom().subset_of(register_functions(sigs, fs, i).1.dom()),
        register_functions(sigs, fs, i).0 is Ok ==> forall|j: int|
            i <= j < fs.len() ==> register_functions(sigs, fs, i).1.contains_key(
                #[trigger] fs[j].name,
            ) && !sigs.contains_key(fs[j].name),
        register_functions(sigs, fs, i).0 is Ok ==> forall|a: int, b: int|
            i <= a < b < fs.len() ==> #[trigger] fs[a].name != #[trigger] fs[b].name,
    decreases fs.len() - i,
{
    if i < fs.len() && !sigs.contains_key(fs[i as int].name) {
        let s1 = sigs.insert(fs[i as int].name, signature_of(fs[i as int]));
        lemma_register_facts(s1, fs, i + 1);
        if register_functions(sigs, fs, i).0 is Ok {
            assert forall|a: int, b: int| i <= a < b < fs.len() implies #[trigger] fs[a].name
                != #[trigger] fs[b].name by {
                if a == i {
                    assert(!s1.contains_key(fs[b].name));
                }
            }
        }
    }
}

/// An accepted program declares no function name twice.
pub proof fn lemma_accepted_names_distinct(st: AnalyzerState, p: SpecProgram)
    requires
        analyze_program(st, p).0 is Ok,
    ensures
        forall|a: int, b: int|
            0 <= a < b < p.functions.len() ==> #[trigger] p.functions[a].name
                != #[trigger] p.functions[b].name,
{
    lemma_register_facts(st.functions, p.functions, 0);
}

/// An analyzer keeps the signatures it registered, so analyzing the same
/// (non-empty) program a second time fails on its first function.
pub proof fn lemma_second_analysis_rejected(st: AnalyzerState, p: SpecProgram)
    requires
        st.scopes.len() >= 1,
        analyze_program(st, p).0 is Ok,
        p.functions.len() > 0,
    ensures
        analyze_program(analyze_program(st, p).1, p).0 == Err::<(), SpecSemanticError>(
            SpecSemanticError::FunctionAlreadyDeclared(p.functions[0].name),
        ),
{
    lemma_register_facts(st.functions, p.functions, 0);
    lemma_analysis_restores_scopes(st, p);
    let after = analyze_program(st, p).1;
    assert(after.functions.contains_key(p.functions[0].name));
}

/// Declaring parameters keeps the depth of the scopes.
pub proof fn lemma_define_params_depth(scopes: Scopes, params: Seq<(Type, Seq<char>)>, i: nat)
    requires
        scopes.len() >= 1,
    ensures
        define_params(scopes, params, i).1.len() == scopes.len(),
    decreases params.len() - i,
{
    if i < params.len() {
        let (r, after) = define(scopes, params[i as int].1, params[i as int].0);
        if r is Ok {
            lemma_define_params_depth(after, params, i + 1);
        }
    }
}

/// The map that a list of distinct (name, type) entries stands for.
pub open spec fn scope_map(s: Seq<(String, Type)>) -> Map<Seq<char>, Type> {
    entries_map(s, |t: Type| t)
}

proof fn lemma_scope_map(s: Seq<(String, Type)>, k: Seq<char>)
    requires
        names_distinct(s),
    ensures
        scope_map(s).contains_key(k) <==> exists|i: int| 0 <= i < s.len() && s[i].0@ == k,
        forall|i: int| 0 <= i < s.len() && s[i].0@ == k ==> scope_map(s)[k] == s[i].1,
{
    lemma_entries_map(s, |t: Type| t, k);
}

/// A function's signature as the analyzer records it.
struct FunctionSignature {
    return_type: Type,
    param_types: Vec<Type>,
}

/// The map that a list of distinct (name, signature) entries stands for.
spec fn signature_map(s: Seq<(String, FunctionSignature)>) -> Signatures {
    entries_map(s, |g: FunctionSignature| (g.return_type, g.param_types@))
}

proof fn lemma_signature_map(s: Seq<(String, FunctionSignature)>, k: Seq<char>)
    requires
        names_distinct(s),
    ensures
        signature_map(s).contains_key(k) <==> exists|i: int| 0 <= i < s.len() && s[i].0@ == k,
        forall|i: int|
            0 <= i < s.len() && s[i].0@ == k ==> signature_map(s)[k] == (
                s[i].1.return_type,
                s[i].1.param_types@,
            ),
{
    lemma_entries_map(s, |g: FunctionSignature| (g.return_type, g.param_types@), k);
}

struct SymbolTable {
    scopes: Vec<Vec<(String, Type)>>,
}

impl SymbolTable {
    spec fn view(&self) -> Scopes {
        self.scopes@.map_values(|s: Vec<(String, Type)>| scope_map(s@))
    }

    spec fn wf(&self) -> bool {
        &&& self.scopes@.len() >= 1
        &&& forall|i: int| 0 <= i < self.scopes@.len() ==> names_distinct(#[trigger] self.scopes@[i]@)
    }

    fn new() -> (t: SymbolTable)
        ensures
            t.wf(),
            t.view() == seq![Map::<Seq<char>, Type>::empty()],
    {
        let mut scopes: Vec<Vec<(String, Type)>> = Vec::new();
        scopes.push(Vec::new());
        let t = SymbolTable { scopes };
        assert(t.view() =~= seq![Map::<Seq<char>, Type>::empty()]);
        t
    }

    fn enter_scope(&mut self)
        requires
            old(self).wf(),
        ensures
            final(self).wf(),
            final(self).view() == old(self).view().push(Map::empty()),
    {
        self.scopes.push(Vec::new());
        assert(self.view() =~= old(self).view().push(Map::empty()));
    }

    fn exit_scope(&mut self)
        requires
            old(self).wf(),
            old(self).view().len() >= 2,
        ensures
            final(self).wf(),
            final(self).view() == old(self).view().drop_last(),
    {
        self.scopes.pop();
        assert(self.view() =~= old(self).view().drop_last());
    }

    fn define(&mut self, name: String, ty: Type) -> (res: Result<(), SemanticError>)
        requires
            old(self).wf(),
        ensures
            final(self).wf(),
            (unit_result_view(res), final(self).view()) == define(old(self).view(), name@, ty),
            res is Ok <==> !old(self).view().last().contains_key(name@),
            res is Ok ==> lookup(final(self).view(), name@) == Some(ty),
            res is Ok ==> forall|k: Seq<char>|
                k != name@ ==> #[trigger] lookup(final(self).view(), k) == lookup(
                    old(self).view(),
                    k,
                ),
            res is Err ==> final(self).view() == old(self).view(),
    {
        proof {
            lemma_define_then_lookup(old(self).view(), name@, ty, name@);
            assert forall|k: Seq<char>| k != name@ implies #[trigger] lookup(
                define(old(self).view(), name@, ty).1,
                k,
            ) == lookup(old(self).view(), k) by {
                lemma_define_then_lookup(old(self).view(), name@, ty, k);
            }
        }
        let mut current_scope = self.scopes.pop().unwrap();
        proof {
            lemma_scope_map(current_scope@, name@);
        }
        assert(old(self).view().last() == scope_map(current_scope@));
        if find_name(&current_scope, &name).is_some() {
            self.scopes.push(current_scope);
            assert(self.scopes@ =~= old(self).scopes@);
            return Err(SemanticError::VariableAlreadyDeclared(name));
        }
        let ghost before = current_scope@;
        current_scope.push((name, ty));
        assert(current_scope@.drop_last() =~= before);
        self.scopes.push(current_scope);
        assert(self.view() =~= old(self).view().update(
            old(self).view().len() - 1,
            old(self).view().last().insert(name@, ty),
        ));
        Ok(())
    }

    fn lookup(&self, name: &String) -> (r: Option<Type>)
        requires
            self.wf(),
        ensures
            r == lookup(self.view(), name@),
    {
        let mut i = self.scopes.len();
        assert(self.view().take(i as int) =~= self.view());
        while i > 0
            invariant
                i <= self.scopes@.len(),
                self.wf(),
                lookup(self.view(), name@) == lookup(self.view().take(i as int), name@),
            decreases i,
        {
            let ghost prefix = self.view().take(i as int);
            proof {
                lemma_scope_map(self.scopes@[i - 1]@, name@);
            }
            assert(prefix.last() == scope_map(self.scopes@[i - 1]@));
            assert(prefix.drop_last() =~= self.view().take(i - 1));
            match find_name(&self.scopes[i - 1], name) {
                Some(j) => {
                    return Some(self.scopes[i - 1][j].1);
                },
                None => {},
            }
            i = i - 1;
        }
        None
    }
}

/// The model of an outcome that carries nothing on success.
pub open spec fn unit_result_view(r: Result<(), SemanticError>) -> Result<(), SpecSemanticError> {
    match r {
        Ok(_) => Ok(()),
        Err(e) => Err(e@),
    }
}

/// The model of an outcome that is a type.
pub open spec fn type_result_view(r: Result<Type, SemanticError>) -> Result<Type, SpecSemanticError> {
    match r {
        Ok(t) => Ok(t),
        Err(e) => Err(e@),
    }
}

pub struct SemanticAnalyzer {
    symbol_table: SymbolTable,
    functions: Vec<(String, FunctionSignature)>,
    current_function: Option<(String, Type)>,
}

impl SemanticAnalyzer {
    /// The analyzer's state: its scopes, the functions it knows, and the name and
    /// return type of the function it checked last.
    pub closed spec fn state(&self) -> AnalyzerState {
        AnalyzerState {
            scopes: self.symbol_table.view(),
            functions: signature_map(self.functions@),
            current: match self.current_function {
                Some(c) => Some((c.0@, c.1)),
                None => None,
            },
        }
    }

    pub closed spec fn wf(&self) -> bool {
        &&& self.symbol_table.wf()
        &&& names_distinct(self.functions@)
    }

    /// An analyzer with one empty scope and no functions.
    pub fn new() -> (a: SemanticAnalyzer)
        ensures
            a.wf(),
            a.state().scopes == seq![Map::<Seq<char>, Type>::empty()],
            a.state().functions == Map::<Seq<char>, Signature>::empty(),
            a.state().current is None,
    {
        SemanticAnalyzer {
            symbol_table: SymbolTable::new(),
            functions: Vec::new(),
            current_function: None,
        }
    }

    /// Checks a whole program: registers every function's signature (a name may
    /// be declared once), then checks each function in order.
    #[verifier::loop_isolation(false)]
    pub fn analyze(&mut self, program: &Program) -> (res: Result<(), SemanticError>)
        requires
            old(self).wf(),
        ensures
            final(self).wf(),
            unit_result_view(res) == analyze_program(old(self).state(), program@).0,
            final(self).state() == analyze_program(old(self).state(), program@).1,
    {
        let ghost fs = program@.functions;
        let n = program.functions.len();
        let mut i: usize = 0;
        while i < n
            invariant
                self.wf(),
                n == program.functions@.len(),
                fs == functions_view(program.functions@),
                i <= n,
                self.symbol_table == old(self).symbol_table,
                self.current_function == old(self).current_function,
                register_functions(old(self).state().functions, fs, 0) == register_functions(
                    self.state().functions,
                    fs,
                    i as nat,
                ),
            decreases n - i,
        {
            let func = &program.functions[i];
            assert(fs[i as int] == function_view(*func));
            proof {
                lemma_signature_map(self.functions@, func.name@);
            }
            if find_name(&self.functions, &func.name).is_some() {
                return Err(SemanticError::FunctionAlreadyDeclared(func.name.clone()));
            }
            let mut param_types: Vec<Type> = Vec::new();
            let mut k: usize = 0;
            while k < func.params.len()
                invariant
                    k <= func.params@.len(),
                    param_types@ =~= func.params@.take(k as int).map_values(
                        |p: (Type, String)| p.0,
                    ),
                decreases func.params@.len() - k,
            {
                param_types.push(func.params[k].0);
                k = k + 1;
                assert(param_types@ =~= func.params@.take(k as int).map_values(
                    |p: (Type, String)| p.0,
                ));
            }
            assert(func.params@.take(func.params@.len() as int) =~= func.params@);
            assert(param_types@ =~= signature_of(fs[i as int]).1);
            let ghost before = self.functions@;
            self.functions.push(
                (func.name.clone(), FunctionSignature { return_type: func.return_type, param_types }),
            );
            assert(self.functions@.drop_last() =~= before);
            i = i + 1;
        }
        let mut j: usize = 0;
        while j < n
            invariant
                self.wf(),
                n == program.functions@.len(),
                fs == functions_view(program.functions@),
                j <= n,
                register_functions(old(self).state().functions, fs, 0).0 is Ok,
                analyze_program(old(self).state(), program@) == check_functions(
                    self.state(),
                    fs,
                    j as nat,
                ),
            decreases n - j,
        {
            assert(fs[j as int] == function_view(program.functions@[j as int]));
            self.analyze_function(&program.functions[j])?;
            j = j + 1;
        }
        Ok(())
    }

    #[verifier::loop_isolation(false)]
    fn analyze_function(&mut self, func: &FunctionDecl) -> (res: Result<(), SemanticError>)
        requires
            old(self).wf(),
        ensures
            final(self).wf(),
            final(self).state().functions == old(self).state().functions,
            final(self).state().current == Some((func.name@, func.return_type)),
            (unit_result_view(res), final(self).state().scopes) == check_function(
                old(self).state().functions,
                old(self).state().scopes,
                func@,
            ),
    {
        let ghost sigs = self.state().functions;
        let ghost ps = params_view(func.params@);
        self.current_function = Some((func.name.clone(), func.return_type));
        self.symbol_table.enter_scope();
        let ghost inner = self.state().scopes;
        let mut i: usize = 0;
        while i < func.params.len()
            invariant
                self.wf(),
                self.state().functions == sigs,
                self.state().current == Some((func.name@, func.return_type)),
                i <= func.params@.len(),
                ps == params_view(func.params@),
                define_params(inner, ps, 0) == define_params(self.state().scopes, ps, i as nat),
            decreases func.params@.len() - i,
        {
            let (ty, name) = (func.params[i].0, func.params[i].1.clone());
            self.symbol_table.define(name, ty)?;
            i = i + 1;
        }
        let ghost after_params = self.state().scopes;
        proof {
            lemma_define_params_depth(inner, ps, 0);
            lemma_check_stmt_frame(sigs, (func.name@, func.return_type), after_params, func.body@);
        }
        self.analyze_statement(&func.body)?;
        self.symbol_table.exit_scope();
        Ok(())
    }

    #[verifier::loop_isolation(false)]
    #[verifier::rlimit(40)]
    fn analyze_statement(&mut self, stmt: &Statement) -> (res: Result<(), SemanticError>)
        requires
            old(self).wf(),
            stmt_has_return(stmt@) ==> old(self).state().current is Some,
        ensures
            final(self).wf(),
            final(self).state().functions == old(self).state().functions,
            final(self).state().current == old(self).state().current,
            stmt@ is Block && res is Ok ==> final(self).state().scopes == old(self).state().scopes,
            (unit_result_view(res), final(self).state().scopes) == check_stmt(
                old(self).state().functions,
                expected_return(old(self).state().current),
                old(self).state().scopes,
                stmt@,
            ),
        decreases stmt,
    {
        let ghost sigs = self.state().functions;
        let ghost scopes = self.state().scopes;
        match stmt {
            Statement::VarDecl(ty, name, init) => {
                match init {
                    Some(expr) => {
                        let expr_ty = self.analyze_expression(expr)?;
                        if expr_ty != *ty {
                            return Err(SemanticError::TypeMismatch(*ty, expr_ty));
                        }
                    },
                    None => {},
                }
                self.symbol_table.define(name.clone(), *ty)?;
            },
            Statement::Assign(name, expr) => {
                let var_ty = match self.symbol_table.lookup(name) {
                    Some(t) => t,
                    None => {
                        return Err(SemanticError::VariableNotDeclared(name.clone()));
                    },
                };
                let expr_ty = self.analyze_expression(expr)?;
                if var_ty != expr_ty {
                    return Err(SemanticError::TypeMismatch(var_ty, expr_ty));
                }
            },
            Statement::Block(stmts) => {
                let ghost ss = stmts_view(stmts@);
                let ghost ret = expected_return(self.state().current);
                let ghost rt = self.state().current;
                self.symbol_table.enter_scope();
                let ghost inner = self.state().scopes;
                proof {
                    lemma_check_block_frame(sigs, ret, inner, ss, 0);
                    crate::ast::lemma_stmts_view_len(stmts@);
                }
                let mut i: usize = 0;
                while i < stmts.len()
                    invariant
                        self.wf(),
                        self.state().functions == sigs,
                        self.state().current == rt,
                        ret == expected_return(rt),
                        block_has_return(ss, i as nat) ==> rt is Some,
                        i <= stmts@.len(),
                        ss == stmts_view(stmts@),
                        ss.len() == stmts@.len(),
                        check_block(sigs, ret, inner, ss, 0) == check_block(
                            sigs,
                            ret,
                            self.state().scopes,
                            ss,
                            i as nat,
                        ),
                    decreases stmts@.len() - i,
                {
                    proof {
                        lemma_stmts_view_index(stmts@, i as int);
                        assert(decreases_to!(*stmt => stmts@[i as int]));
                    }
                    self.analyze_statement(&stmts[i])?;
                    i = i + 1;
                }
                self.symbol_table.exit_scope();
                proof {
                    lemma_block_restores_scopes(sigs, ret, scopes, ss);
                }
            },
            Statement::If(cond, then, els) => {
                let cond_ty = self.analyze_expression(cond)?;
                if cond_ty != Type::Bool {
                    return Err(SemanticError::InvalidConditionType(cond_ty));
                }
                self.analyze_statement(then)?;
                match els {
                    Some(e) => {
                        self.analyze_statement(e)?;
                    },
                    None => {},
                }
            },
            Statement::While(cond, body) => {
                let cond_ty = self.analyze_expression(cond)?;
                if cond_ty != Type::Bool {
                    return Err(SemanticError::InvalidConditionType(cond_ty));
                }
                self.analyze_statement(body)?;
            },
            Statement::Return(expr_opt) => {
                let (fname, expected) = match &self.current_function {
                    Some(c) => (&c.0, c.1),
                    None => {
                        proof {
                            assert(false);
                        }
                        return Ok(());
                    },
                };
                match expr_opt {
                    Some(expr) => {
                        let actual = self.analyze_expression(expr)?;
                        if actual != expected {
                            return Err(SemanticError::TypeMismatch(expected, actual));
                        }
                    },
                    None => {
                        return Err(SemanticError::MissingReturnValue(fname.clone(), expected));
                    },
                }
            },
            Statement::PrintInt(expr) => {
                let ty = self.analyze_expression(expr)?;
                if ty != Type::Int {
                    return Err(SemanticError::InvalidPrintIntType(ty));
                }
            },
            Statement::Expression(expr) => {
                self.analyze_expression(expr)?;
            },
        }
        Ok(())
    }

    #[verifier::loop_isolation(false)]
    fn analyze_expression(&self, expr: &Expression) -> (res: Result<Type, SemanticError>)
        requires
            self.wf(),
        ensures
            type_result_view(res) == check_expr(self.state().functions, self.state().scopes, expr@),
        decreases expr,
    {
        match expr {
            Expression::IntLiteral(_) => Ok(Type::Int),
            Expression::BoolLiteral(_) => Ok(Type::Bool),
            Expression::Variable(name) => match self.symbol_table.lookup(name) {
                Some(t) => Ok(t),
                None => Err(SemanticError::VariableNotDeclared(name.clone())),
            },
            Expression::Binary(op, left, right) => {
                let l_ty = self.analyze_expression(left)?;
                let r_ty = self.analyze_expression(right)?;
                match op {
                    BinaryOp::Add | BinaryOp::Sub | BinaryOp::Mul | BinaryOp::Div => {
                        if l_ty == Type::Int && r_ty == Type::Int {
                            Ok(Type::Int)
                        } else {
                            Err(SemanticError::InvalidBinaryOp(*op, l_ty, r_ty))
                        }
                    },
                    BinaryOp::Less
                    | BinaryOp::LessEqual
                    | BinaryOp::Greater
                    | BinaryOp::GreaterEqual => {
                        if l_ty == Type::Int && r_ty == Type::Int {
                            Ok(Type::Bool)
                        } else {
                            Err(SemanticError::InvalidBinaryOp(*op, l_ty, r_ty))
                        }
                    },
                    BinaryOp::Equal | BinaryOp::NotEqual => {
                        if l_ty == r_ty {
                            Ok(Type::Bool)
                        } else {
                            Err(SemanticError::InvalidBinaryOp(*op, l_ty, r_ty))
                        }
                    },
                }
            },
            Expression::Call(name, args) => {
                proof {
                    lemma_signature_map(self.functions@, name@);
                }
                let j = match find_name(&self.functions, name) {
                    Some(j) => j,
                    None => {
                        return Err(SemanticError::FunctionNotDeclared(name.clone()));
                    },
                };
                let sig = &self.functions[j].1;
                assert(self.state().functions[name@] == (sig.return_type, sig.param_types@));
                proof {
                    crate::ast::lemma_exprs_view_len(args@);
                }
                if args.len() != sig.param_types.len() {
                    return Err(
                        SemanticError::ArgCountMismatch(
                            name.clone(),
                            sig.param_types.len(),
                            args.len(),
                        ),
                    );
                }
                let ghost sigs = self.state().functions;
                let ghost scopes = self.state().scopes;
                let ghost a = exprs_view(args@);
                let ghost ps = sig.param_types@;
                proof {
                    crate::ast::lemma_exprs_view_len(args@);
                }
                let mut i: usize = 0;
                while i < args.len()
                    invariant
                        self.wf(),
                        sigs == self.state().functions,
                        scopes == self.state().scopes,
                        i <= args@.len(),
                        a == exprs_view(args@),
                        a.len() == args@.len(),
                        ps == sig.param_types@,
                        ps.len() == args@.len(),
                        check_args(sigs, scopes, a, ps, 0) == check_args(
                            sigs,
                            scopes,
                            a,
                            ps,
                            i as nat,
                        ),
                    decreases args@.len() - i,
                {
                    proof {
                        lemma_exprs_view_index(args@, i as int);
                        assert(decreases_to!(*expr => args@[i as int]));
                    }
                    let actual = self.analyze_expression(&args[i])?;
                    if actual != sig.param_types[i] {
                        return Err(SemanticError::TypeMismatch(sig.param_types[i], actual));
                    }
                    i = i + 1;
                }
                Ok(sig.return_type)
            },
        }
    }
}

} // verus!
