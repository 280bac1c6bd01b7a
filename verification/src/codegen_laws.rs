//! What the generated code keeps: the stack of temporaries balances, stays in
//! 8-byte units so that padded calls are 16-byte aligned, labels are handed out
//! one after another, and every variable of a frame has a slot of its own.
use vstd::prelude::*;
use crate::ast::{BinaryOp, SpecExpr, SpecFunction, SpecProgram, SpecStmt, Type};
use crate::codegen::{
    frame, frame_bytes, functions_labels, gen_args, gen_block, gen_expr, gen_function,
    gen_functions, gen_program, gen_stmt, lemma_gen_args_depth, lemma_gen_stmt_counts,
    arg_register, line, needs_padding, op_code, pop_args, slot_operand, store_params, param_slots, round_up_16, scope_after, stmt_decls, Slots,
};

verus! {

/// Every call in the expression passes at most six arguments, all in registers.
pub open spec fn expr_calls_fit(e: SpecExpr) -> bool
    decreases e, 0nat,
{
    match e {
        SpecExpr::Binary(_, l, r) => expr_calls_fit(*l) && expr_calls_fit(*r),
        SpecExpr::Call(_, args) => args.len() <= 6 && args_calls_fit(args, 0),
        _ => true,
    }
}

pub open spec fn args_calls_fit(args: Seq<SpecExpr>, i: nat) -> bool
    decreases args, args.len() - i,
{
    i >= args.len() || (expr_calls_fit(args[i as int]) && args_calls_fit(args, i + 1))
}

pub open spec fn opt_expr_calls_fit(e: Option<SpecExpr>) -> bool {
    match e {
        Some(e) => expr_calls_fit(e),
        None => true,
    }
}

/// Every call in the statement passes at most six arguments.
pub open spec fn stmt_calls_fit(s: SpecStmt) -> bool
    decreases s, 0nat,
{
    match s {
        SpecStmt::VarDecl(_, _, init) => opt_expr_calls_fit(init),
        SpecStmt::Assign(_, e) => expr_calls_fit(e),
        SpecStmt::Block(ss) => block_calls_fit(ss, 0),
        SpecStmt::If(c, th, el) => expr_calls_fit(c) && stmt_calls_fit(*th) && match el {
            Some(e) => stmt_calls_fit(*e),
            None => true,
        },
        SpecStmt::While(c, body) => expr_calls_fit(c) && stmt_calls_fit(*body),
        SpecStmt::Return(e) => opt_expr_calls_fit(e),
        SpecStmt::PrintInt(e) => expr_calls_fit(e),
        SpecStmt::Expression(e) => expr_calls_fit(e),
    }
}

pub open spec fn block_calls_fit(ss: Seq<SpecStmt>, i: nat) -> bool
    decreases ss, ss.len() - i,
{
    i >= ss.len() || (stmt_calls_fit(ss[i as int]) && block_calls_fit(ss, i + 1))
}

/// Every call of every function passes at most six arguments.
pub open spec fn program_calls_fit(p: SpecProgram) -> bool {
    forall|i: int| 0 <= i < p.functions.len() ==> stmt_calls_fit(#[trigger] p.functions[i].body)
}

/// An expression whose calls pass at most six arguments pops every temporary it
/// pushes: the depth after it is the depth before it.
pub proof fn lemma_expr_balanced(slots: Slots, d: nat, e: SpecExpr)
    requires
        expr_calls_fit(e),
    ensures
        gen_expr(slots, d, e).1 == d,
    decreases e, 0nat,
{
    match e {
        SpecExpr::Binary(_, l, r) => {
            lemma_expr_balanced(slots, d, *l);
            lemma_expr_balanced(slots, d + 8, *r);
        },
        SpecExpr::Call(_, args) => {
            lemma_args_balanced(slots, d, args, 0);
        },
        _ => {},
    }
}

/// Pushing the arguments from index `i` on leaves one 8-byte temporary per argument.
pub proof fn lemma_args_balanced(slots: Slots, d: nat, args: Seq<SpecExpr>, i: nat)
    requires
        args_calls_fit(args, i),
        i <= args.len(),
    ensures
        gen_args(slots, d, args, i).1 == d + 8 * (args.len() - i),
    decreases args, args.len() - i,
{
    if i < args.len() {
        lemma_expr_balanced(slots, d, args[i as int]);
        lemma_args_balanced(slots, d + 8, args, i + 1);
    }
}

/// A statement whose calls pass at most six arguments leaves the stack of
/// temporaries as it found it.
pub proof fn lemma_stmt_balanced(
    slots: Slots,
    used: nat,
    ret: Seq<char>,
    l: nat,
    d: nat,
    s: SpecStmt,
)
    requires
        stmt_calls_fit(s),
    ensures
        gen_stmt(slots, used, ret, l, d, s).2 == d,
    decreases s, 0nat,
{
    match s {
        SpecStmt::VarDecl(_, _, init) => match init {
            Some(e) => lemma_expr_balanced(slots, d, e),
            None => {},
        },
        SpecStmt::Assign(_, e) => lemma_expr_balanced(slots, d, e),
        SpecStmt::Block(ss) => lemma_block_balanced(slots, used, ret, l, d, ss, 0),
        SpecStmt::If(c, th, el) => {
            lemma_expr_balanced(slots, d, c);
            lemma_stmt_balanced(slots, used, ret, l + 2, d, *th);
            let lt = gen_stmt(slots, used, ret, l + 2, d, *th).1;
            match el {
                Some(e) => lemma_stmt_balanced(
                    scope_after(slots, used, *th),
                    used + 8 * stmt_decls(*th),
                    ret,
                    lt,
                    d,
                    *e,
                ),
                None => {},
            }
        },
        SpecStmt::While(c, body) => {
            lemma_expr_balanced(slots, d, c);
            lemma_stmt_balanced(slots, used, ret, l + 2, d, *body);
        },
        SpecStmt::Return(e) => match e {
            Some(e) => lemma_expr_balanced(slots, d, e),
            None => {},
        },
        SpecStmt::PrintInt(e) => lemma_expr_balanced(slots, d, e),
        SpecStmt::Expression(e) => lemma_expr_balanced(slots, d, e),
    }
}

pub proof fn lemma_block_balanced(
    slots: Slots,
    used: nat,
    ret: Seq<char>,
    l: nat,
    d: nat,
    ss: Seq<SpecStmt>,
    i: nat,
)
    requires
        block_calls_fit(ss, i),
    ensures
        gen_block(slots, used, ret, l, d, ss, i).2 == d,
    decreases ss, ss.len() - i,
{
    if i < ss.len() {
        lemma_stmt_balanced(slots, used, ret, l, d, ss[i as int]);
        let l1 = gen_stmt(slots, used, ret, l, d, ss[i as int]).1;
        lemma_block_balanced(
            scope_after(slots, used, ss[i as int]),
            used + 8 * stmt_decls(ss[i as int]),
            ret,
            l1,
            d,
            ss,
            i + 1,
        );
    }
}

/// Starting from a depth in whole 8-byte units, the depth stays in whole 8-byte
/// units, whatever the expression.
pub proof fn lemma_expr_depth_units(slots: Slots, d: nat, e: SpecExpr)
    requires
        d % 8 == 0,
    ensures
        gen_expr(slots, d, e).1 % 8 == 0,
    decreases e, 0nat,
{
    match e {
        SpecExpr::Binary(_, l, r) => {
            lemma_expr_depth_units(slots, d, *l);
            let dl = gen_expr(slots, d, *l).1;
            lemma_expr_depth_units(slots, dl + 8, *r);
            crate::codegen::lemma_gen_expr_depth(slots, dl + 8, *r);
        },
        SpecExpr::Call(_, args) => {
            lemma_args_depth_units(slots, d, args, 0);
            lemma_gen_args_depth(slots, d, args, 0);
        },
        _ => {},
    }
}

pub proof fn lemma_args_depth_units(slots: Slots, d: nat, args: Seq<SpecExpr>, i: nat)
    requires
        d % 8 == 0,
    ensures
        gen_args(slots, d, args, i).1 % 8 == 0,
    decreases args, args.len() - i,
{
    if i < args.len() {
        lemma_expr_depth_units(slots, d, args[i as int]);
        let de = gen_expr(slots, d, args[i as int]).1;
        lemma_args_depth_units(slots, de + 8, args, i + 1);
    }
}

pub proof fn lemma_stmt_depth_units(
    slots: Slots,
    used: nat,
    ret: Seq<char>,
    l: nat,
    d: nat,
    s: SpecStmt,
)
    requires
        d % 8 == 0,
    ensures
        gen_stmt(slots, used, ret, l, d, s).2 % 8 == 0,
    decreases s, 0nat,
{
    match s {
        SpecStmt::VarDecl(_, _, init) => match init {
            Some(e) => lemma_expr_depth_units(slots, d, e),
            None => {},
        },
        SpecStmt::Assign(_, e) => lemma_expr_depth_units(slots, d, e),
        SpecStmt::Block(ss) => lemma_block_depth_units(slots, used, ret, l, d, ss, 0),
        SpecStmt::If(c, th, el) => {
            lemma_expr_depth_units(slots, d, c);
            let dc = gen_expr(slots, d, c).1;
            lemma_stmt_depth_units(slots, used, ret, l + 2, dc, *th);
            let (_, lt, dt) = gen_stmt(slots, used, ret, l + 2, dc, *th);
            match el {
                Some(e) => lemma_stmt_depth_units(
                    scope_after(slots, used, *th),
                    used + 8 * stmt_decls(*th),
                    ret,
                    lt,
                    dt,
                    *e,
                ),
                None => {},
            }
        },
        SpecStmt::While(c, body) => {
            lemma_expr_depth_units(slots, d, c);
            let dc = gen_expr(slots, d, c).1;
            lemma_stmt_depth_units(slots, used, ret, l + 2, dc, *body);
        },
        SpecStmt::Return(e) => match e {
            Some(e) => lemma_expr_depth_units(slots, d, e),
            None => {},
        },
        SpecStmt::PrintInt(e) => lemma_expr_depth_units(slots, d, e),
        SpecStmt::Expression(e) => lemma_expr_depth_units(slots, d, e),
    }
}

pub proof fn lemma_block_depth_units(
    slots: Slots,
    used: nat,
    ret: Seq<char>,
    l: nat,
    d: nat,
    ss: Seq<SpecStmt>,
    i: nat,
)
    requires
        d % 8 == 0,
    ensures
        gen_block(slots, used, ret, l, d, ss, i).2 % 8 == 0,
    decreases ss, ss.len() - i,
{
    if i < ss.len() {
        lemma_stmt_depth_units(slots, used, ret, l, d, ss[i as int]);
        let (_, l1, d1) = gen_stmt(slots, used, ret, l, d, ss[i as int]);
        lemma_block_depth_units(
            scope_after(slots, used, ss[i as int]),
            used + 8 * stmt_decls(ss[i as int]),
            ret,
            l1,
            d1,
            ss,
            i + 1,
        );
    }
}

/// At a depth in whole 8-byte units, the padding that a call gets makes the
/// temporaries a multiple of 16 bytes: the stack is 16-byte aligned at the call.
pub proof fn lemma_call_alignment(d: nat)
    requires
        d % 8 == 0,
    ensures
        (d + if needs_padding(d) {
            8nat
        } else {
            0nat
        }) % 16 == 0,
{
}

proof fn lemma_functions_facts(l: nat, d: nat, fs: Seq<SpecFunction>, i: nat)
    ensures
        gen_functions(l, d, fs, i).1 == l + functions_labels(fs, i),
        d % 8 == 0 ==> gen_functions(l, d, fs, i).2 % 8 == 0,
        (forall|j: int| i <= j < fs.len() ==> stmt_calls_fit(#[trigger] fs[j].body))
            ==> gen_functions(l, d, fs, i).2 == d,
    decreases fs.len() - i,
{
    if i < fs.len() {
        let f = fs[i as int];
        let slots = frame(f).0;
        let used = frame(f).1;
        let ret = crate::codegen::label_name(l);
        lemma_gen_stmt_counts(slots, used, ret, l + 1, d, f.body);
        if d % 8 == 0 {
            lemma_stmt_depth_units(slots, used, ret, l + 1, d, f.body);
        }
        if stmt_calls_fit(f.body) {
            lemma_stmt_balanced(slots, used, ret, l + 1, d, f.body);
        }
        let (_, l1, d1) = gen_function(l, d, f);
        lemma_functions_facts(l1, d1, fs, i + 1);
    }
}

/// A program takes one label per function plus two per `if` and per `while`,
/// counting on from the labels handed out before.
pub proof fn lemma_program_labels(l: nat, d: nat, p: SpecProgram)
    ensures
        gen_program(l, d, p).1 == l + functions_labels(p.functions, 0),
{
    lemma_functions_facts(l, d, p.functions, 0);
}

/// The depth of temporaries stays in whole 8-byte units over a whole program.
pub proof fn lemma_program_depth_units(l: nat, d: nat, p: SpecProgram)
    requires
        d % 8 == 0,
    ensures
        gen_program(l, d, p).2 % 8 == 0,
{
    lemma_functions_facts(l, d, p.functions, 0);
}

/// A program whose calls pass at most six arguments leaves no temporaries behind.
pub proof fn lemma_program_balanced(l: nat, d: nat, p: SpecProgram)
    requires
        program_calls_fit(p),
    ensures
        gen_program(l, d, p).2 == d,
{
    lemma_functions_facts(l, d, p.functions, 0);
}

/// Slots below `rbp` within the first `used` bytes, in 8-byte units, no two alike.
pub open spec fn slots_apart(slots: Slots, used: nat) -> bool {
    &&& used % 8 == 0
    &&& forall|k: Seq<char>| #[trigger]
        slots.contains_key(k) ==> -(used as int) <= slots[k] <= -8 && slots[k] % 8 == 0
    &&& forall|a: Seq<char>, b: Seq<char>|
        #![trigger slots.contains_key(a), slots.contains_key(b)]
        slots.contains_key(a) && slots.contains_key(b) && a != b ==> slots[a] != slots[b]
}

proof fn lemma_insert_apart(slots: Slots, used: nat, name: Seq<char>)
    requires
        slots_apart(slots, used),
    ensures
        slots_apart(slots.insert(name, -(used + 8)), used + 8),
{
    let m = slots.insert(name, -(used + 8));
    assert forall|a: Seq<char>, b: Seq<char>|
        m.contains_key(a) && m.contains_key(b) && a != b implies m[a] != m[b] by {
        if a != name && b != name {
            assert(slots.contains_key(a) && slots.contains_key(b));
        } else if a == name {
            assert(slots.contains_key(b));
        } else {
            assert(slots.contains_key(a));
        }
    }
    assert forall|k: Seq<char>| #[trigger]
        m.contains_key(k) implies -((used + 8) as int) <= m[k] <= -8 && m[k] % 8 == 0 by {
        if k != name {
            assert(slots.contains_key(k));
        }
    }
}

proof fn lemma_param_slots_apart(slots: Slots, used: nat, params: Seq<(Type, Seq<char>)>, i: nat)
    requires
        slots_apart(slots, used),
    ensures
        slots_apart(param_slots(slots, used, params, i).0, param_slots(slots, used, params, i).1),
    decreases params.len() - i,
{
    if i < params.len() {
        lemma_insert_apart(slots, used, params[i as int].1);
        lemma_param_slots_apart(
            slots.insert(params[i as int].1, -(used + 8)),
            used + 8,
            params,
            i + 1,
        );
    }
}

/// A smaller frame fits in a larger one.
proof fn lemma_apart_wider(slots: Slots, used: nat, more: nat)
    requires
        slots_apart(slots, used),
        used <= more,
        more % 8 == 0,
    ensures
        slots_apart(slots, more),
{
}

/// A statement keeps the visible slots apart and inside the frame: each
/// declaration takes a slot that no visible variable holds.
pub proof fn lemma_scope_after_apart(slots: Slots, used: nat, s: SpecStmt)
    requires
        slots_apart(slots, used),
    ensures
        slots_apart(scope_after(slots, used, s), used + 8 * stmt_decls(s)),
    decreases s, 0nat,
{
    match s {
        SpecStmt::VarDecl(_, name, _) => lemma_insert_apart(slots, used, name),
        SpecStmt::If(_, th, el) => {
            lemma_scope_after_apart(slots, used, *th);
            let s1 = scope_after(slots, used, *th);
            let u1 = used + 8 * stmt_decls(*th);
            match el {
                Some(e) => lemma_scope_after_apart(s1, u1, *e),
                None => {},
            }
        },
        SpecStmt::While(_, body) => lemma_scope_after_apart(slots, used, *body),
        _ => lemma_apart_wider(slots, used, used + 8 * stmt_decls(s)),
    }
}

/// A declaration that shadows a visible variable gives the name a new slot,
/// distinct from the one it hides; every other name keeps its slot. When the
/// block ends, the slots visible before it are visible again.
pub proof fn lemma_shadowing_takes_new_slot(
    slots: Slots,
    used: nat,
    ty: Type,
    name: Seq<char>,
    init: Option<SpecExpr>,
    ss: Seq<SpecStmt>,
)
    requires
        slots_apart(slots, used),
        slots.contains_key(name),
    ensures
        scope_after(slots, used, SpecStmt::VarDecl(ty, name, init))[name] != slots[name],
        forall|k: Seq<char>|
            k != name && slots.contains_key(k) ==> #[trigger] scope_after(
                slots,
                used,
                SpecStmt::VarDecl(ty, name, init),
            )[k] == slots[k],
        scope_after(slots, used, SpecStmt::Block(ss)) == slots,
{
}

/// Every parameter has a slot of its own: an 8-byte unit below `rbp`. The
/// frame that the prologue reserves holds them and one more unit per
/// declaration of the body, rounded up to 16 bytes.
pub proof fn lemma_frame_slots_apart(f: SpecFunction)
    ensures
        slots_apart(frame(f).0, frame(f).1),
        frame(f).1 + 8 * stmt_decls(f.body) == frame_bytes(f),
        frame_bytes(f) <= round_up_16(frame_bytes(f)),
        round_up_16(frame_bytes(f)) % 16 == 0,
{
    lemma_param_slots_apart(Map::empty(), 0, f.params, 0);
    crate::codegen::lemma_param_slots(Map::empty(), 0, f.params, 0);
    let n = frame_bytes(f);
    assert((n + 15) / 16 * 16 >= n) by (nonlinear_arith);
    assert(((n + 15) / 16 * 16) % 16 == 0) by (nonlinear_arith);
}

/// No two parameters share a name.
pub open spec fn params_distinct(params: Seq<(Type, Seq<char>)>) -> bool {
    forall|a: int, b: int|
        0 <= a < b < params.len() ==> #[trigger] params[a].1 != #[trigger] params[b].1
}

proof fn lemma_param_positions(slots: Slots, used: nat, params: Seq<(Type, Seq<char>)>, i: nat)
    requires
        params_distinct(params),
        i <= params.len(),
    ensures
        forall|j: int|
            i <= j < params.len() ==> param_slots(slots, used, params, i).0[#[trigger] params[j].1]
                == -(used + 8 * (j - i + 1)),
    decreases params.len() - i,
{
    if i < params.len() {
        let s1 = slots.insert(params[i as int].1, -(used + 8));
        lemma_param_positions(s1, used + 8, params, i + 1);
        lemma_param_keeps(s1, used + 8, params, i + 1, params[i as int].1);
    }
}

proof fn lemma_param_keeps(
    slots: Slots,
    used: nat,
    params: Seq<(Type, Seq<char>)>,
    i: nat,
    k: Seq<char>,
)
    requires
        slots.contains_key(k),
        forall|j: int| i <= j < params.len() ==> #[trigger] params[j].1 != k,
    ensures
        param_slots(slots, used, params, i).0[k] == slots[k],
    decreases params.len() - i,
{
    if i < params.len() {
        let s1 = slots.insert(params[i as int].1, -(used + 8));
        lemma_param_keeps(s1, used + 8, params, i + 1, k);
    }
}

/// Parameters with distinct names sit in order below `rbp`: the first at
/// `[rbp -8]`, the next at `[rbp -16]`, and so on.
pub proof fn lemma_param_slots_in_order(f: SpecFunction)
    requires
        params_distinct(f.params),
    ensures
        forall|j: int|
            0 <= j < f.params.len() ==> frame(f).0[#[trigger] f.params[j].1] == -8 * (j + 1),
{
    lemma_param_positions(Map::empty(), 0, f.params, 0);
}

/// The x86 condition codes that `setcc` tests after `cmp a, b` (signed).
pub enum Cond {
    E,
    NE,
    L,
    LE,
    G,
    GE,
}

/// The instructions that combine `rax` (left operand) and `rdi` (right).
pub enum Instr {
    Add,
    Sub,
    Imul,
    Cqo,
    Idiv,
    Cmp,
    SetCc(Cond),
    Movzx,
}

/// How each instruction is written.
pub open spec fn instr_text(i: Instr) -> Seq<char> {
    match i {
        Instr::Add => "add rax, rdi"@,
        Instr::Sub => "sub rax, rdi"@,
        Instr::Imul => "imul rax, rdi"@,
        Instr::Cqo => "cqo"@,
        Instr::Idiv => "idiv rdi"@,
        Instr::Cmp => "cmp rax, rdi"@,
        Instr::SetCc(Cond::E) => "sete al"@,
        Instr::SetCc(Cond::NE) => "setne al"@,
        Instr::SetCc(Cond::L) => "setl al"@,
        Instr::SetCc(Cond::LE) => "setle al"@,
        Instr::SetCc(Cond::G) => "setg al"@,
        Instr::SetCc(Cond::GE) => "setge al"@,
        Instr::Movzx => "movzx rax, al"@,
    }
}

/// The lines of a sequence of instructions.
pub open spec fn instrs_text(s: Seq<Instr>) -> Seq<char>
    decreases s.len(),
{
    if s.len() == 0 {
        Seq::empty()
    } else {
        line(instr_text(s[0])) + instrs_text(s.drop_first())
    }
}

/// The registers the instructions use, and the operands of the last `cmp`.
pub struct Machine {
    pub rax: int,
    pub rdi: int,
    pub al: int,
    pub cmp_left: int,
    pub cmp_right: int,
}

/// Division rounded toward zero, as `idiv` (after `cqo`) divides.
pub open spec fn div_toward_zero(a: int, b: int) -> int {
    let q = (if a < 0 { -a } else { a }) / (if b < 0 { -b } else { b });
    if (a < 0) != (b < 0) {
        -q
    } else {
        q
    }
}

/// Whether a condition holds for the operands of a `cmp`, compared as signed numbers.
pub open spec fn cond_holds(c: Cond, a: int, b: int) -> bool {
    match c {
        Cond::E => a == b,
        Cond::NE => a != b,
        Cond::L => a < b,
        Cond::LE => a <= b,
        Cond::G => a > b,
        Cond::GE => a >= b,
    }
}

/// What one instruction does to the machine (values taken as mathematical integers).
pub open spec fn exec_instr(m: Machine, i: Instr) -> Machine {
    match i {
        Instr::Add => Machine { rax: m.rax + m.rdi, ..m },
        Instr::Sub => Machine { rax: m.rax - m.rdi, ..m },
        Instr::Imul => Machine { rax: m.rax * m.rdi, ..m },
        Instr::Cqo => m,
        Instr::Idiv => Machine { rax: div_toward_zero(m.rax, m.rdi), ..m },
        Instr::Cmp => Machine { cmp_left: m.rax, cmp_right: m.rdi, ..m },
        Instr::SetCc(c) => Machine {
            al: if cond_holds(c, m.cmp_left, m.cmp_right) {
                1
            } else {
                0
            },
            ..m
        },
        Instr::Movzx => Machine { rax: m.al, ..m },
    }
}

/// Runs instructions in order.
pub open spec fn run(m: Machine, s: Seq<Instr>) -> Machine
    decreases s.len(),
{
    if s.len() == 0 {
        m
    } else {
        run(exec_instr(m, s[0]), s.drop_first())
    }
}

/// The value that a binary operator gives on two integers: arithmetic (division
/// toward zero, as C divides), and comparisons as 1 for true and 0 for false.
pub open spec fn operator_value(op: BinaryOp, a: int, b: int) -> int {
    match op {
        BinaryOp::Add => a + b,
        BinaryOp::Sub => a - b,
        BinaryOp::Mul => a * b,
        BinaryOp::Div => div_toward_zero(a, b),
        BinaryOp::Equal => if a == b { 1 } else { 0 },
        BinaryOp::NotEqual => if a != b { 1 } else { 0 },
        BinaryOp::Less => if a < b { 1 } else { 0 },
        BinaryOp::LessEqual => if a <= b { 1 } else { 0 },
        BinaryOp::Greater => if a > b { 1 } else { 0 },
        BinaryOp::GreaterEqual => if a >= b { 1 } else { 0 },
    }
}

/// The instructions that the code of an operator is made of.
pub open spec fn operator_instrs(op: BinaryOp) -> Seq<Instr> {
    match op {
        BinaryOp::Add => seq![Instr::Add],
        BinaryOp::Sub => seq![Instr::Sub],
        BinaryOp::Mul => seq![Instr::Imul],
        BinaryOp::Div => seq![Instr::Cqo, Instr::Idiv],
        BinaryOp::Equal => seq![Instr::Cmp, Instr::SetCc(Cond::E), Instr::Movzx],
        BinaryOp::NotEqual => seq![Instr::Cmp, Instr::SetCc(Cond::NE), Instr::Movzx],
        BinaryOp::Less => seq![Instr::Cmp, Instr::SetCc(Cond::L), Instr::Movzx],
        BinaryOp::LessEqual => seq![Instr::Cmp, Instr::SetCc(Cond::LE), Instr::Movzx],
        BinaryOp::Greater => seq![Instr::Cmp, Instr::SetCc(Cond::G), Instr::Movzx],
        BinaryOp::GreaterEqual => seq![Instr::Cmp, Instr::SetCc(Cond::GE), Instr::Movzx],
    }
}

/// The code emitted for each binary operator computes that operator: it is the
/// text of instructions which, run with the left operand in `rax` and the right
/// one in `rdi`, leave the operator's value in `rax` (1 or 0 for a comparison,
/// with `>` strictly greater and `>=` greater or equal, both signed).
pub proof fn lemma_operator_code_computes(op: BinaryOp, m: Machine)
    requires
        op == BinaryOp::Div ==> m.rdi != 0,
    ensures
        op_code(op) == instrs_text(operator_instrs(op)),
        run(m, operator_instrs(op)).rax == operator_value(op, m.rax, m.rdi),
{
    let s = operator_instrs(op);
    reveal_with_fuel(instrs_text, 4);
    reveal_with_fuel(run, 4);
    assert(s.drop_first().len() == s.len() - 1);
    if s.len() >= 2 {
        assert(s.drop_first()[0] == s[1]);
        assert(s.drop_first().drop_first().len() == s.len() - 2);
        if s.len() == 3 {
            assert(s.drop_first().drop_first()[0] == s[2]);
            assert(s.drop_first().drop_first().drop_first() =~= Seq::<Instr>::empty());
            assert(instrs_text(s) =~= line(instr_text(s[0])) + line(instr_text(s[1])) + line(
                instr_text(s[2]),
            ));
        } else {
            assert(s.drop_first().drop_first() =~= Seq::<Instr>::empty());
            assert(instrs_text(s) =~= line(instr_text(s[0])) + line(instr_text(s[1])));
        }
    } else {
        assert(s.drop_first() =~= Seq::<Instr>::empty());
        assert(instrs_text(s) =~= line(instr_text(s[0])));
    }
}

/// The integer argument registers of the System V calling convention, in order.
pub open spec fn sysv_argument_registers() -> Seq<Seq<char>> {
    seq!["rdi"@, "rsi"@, "rdx"@, "rcx"@, "r8"@, "r9"@]
}

/// Register indices `m - 1` down to 0.
pub open spec fn countdown(m: nat) -> Seq<nat>
    decreases m,
{
    if m == 0 {
        Seq::empty()
    } else {
        seq![(m - 1) as nat] + countdown((m - 1) as nat)
    }
}

/// `pop` lines into the argument registers with the given indices, in order.
pub open spec fn pop_lines(s: Seq<nat>) -> Seq<char>
    decreases s.len(),
{
    if s.len() == 0 {
        Seq::empty()
    } else {
        line("pop "@ + sysv_argument_registers()[s[0] as int]) + pop_lines(s.drop_first())
    }
}

/// A stack of values (its top last) and the argument registers (by index).
pub struct PopState {
    pub stack: Seq<int>,
    pub regs: Map<nat, int>,
}

/// Pops the top of the stack into each register index in turn.
pub open spec fn run_pops(st: PopState, s: Seq<nat>) -> PopState
    decreases s.len(),
{
    if s.len() == 0 || st.stack.len() == 0 {
        st
    } else {
        run_pops(
            PopState {
                stack: st.stack.drop_last(),
                regs: st.regs.insert(s[0], st.stack.last()),
            },
            s.drop_first(),
        )
    }
}

proof fn lemma_pop_args_lines(m: nat)
    requires
        m <= 6,
    ensures
        pop_args(m) == pop_lines(countdown(m)),
    decreases m,
{
    if m > 0 {
        lemma_pop_args_lines((m - 1) as nat);
        let c = countdown(m);
        assert(c.drop_first() =~= countdown((m - 1) as nat));
        let k = (m - 1) as nat;
        assert(arg_register(k) == sysv_argument_registers()[k as int]);
    }
}

proof fn lemma_countdown(m: nat)
    ensures
        countdown(m).len() == m,
        forall|j: int| 0 <= j < m ==> #[trigger] countdown(m)[j] == m - 1 - j,
    decreases m,
{
    if m > 0 {
        lemma_countdown((m - 1) as nat);
        assert forall|j: int| 0 <= j < m implies #[trigger] countdown(m)[j] == m - 1 - j by {
            if j > 0 {
                assert(countdown(m)[j] == countdown((m - 1) as nat)[j - 1]);
            }
        }
    }
}

proof fn lemma_run_pops(st: PopState, m: nat)
    requires
        m <= st.stack.len(),
    ensures
        forall|i: int|
            0 <= i < m ==> #[trigger] run_pops(st, countdown(m)).regs[i as nat] == st.stack[st.stack.len()
                - m + i],
        run_pops(st, countdown(m)).stack == st.stack.take(st.stack.len() - m),
    decreases m,
{
    lemma_countdown(m);
    if m == 0 {
        assert(st.stack.take(st.stack.len() as int) =~= st.stack);
    } else {
        let c = countdown(m);
        let st1 = PopState {
            stack: st.stack.drop_last(),
            regs: st.regs.insert((m - 1) as nat, st.stack.last()),
        };
        assert(c.drop_first() =~= countdown((m - 1) as nat));
        lemma_run_pops(st1, (m - 1) as nat);
        assert(st1.stack.take(st1.stack.len() - (m - 1)) =~= st.stack.take(st.stack.len() - m));
        let fin = run_pops(st, c);
        assert forall|i: int| 0 <= i < m implies #[trigger] fin.regs[i as nat] == st.stack[st.stack.len()
            - m + i] by {
            if i < m - 1 {
                assert(st1.stack[st1.stack.len() - (m - 1) + i] == st.stack[st.stack.len() - m + i]);
            } else {
                lemma_run_pops_keeps(st1, (m - 1) as nat, (m - 1) as nat);
            }
        }
    }
}

proof fn lemma_run_pops_keeps(st: PopState, m: nat, r: nat)
    requires
        m <= st.stack.len(),
        r >= m,
    ensures
        run_pops(st, countdown(m)).regs.contains_key(r) == st.regs.contains_key(r),
        st.regs.contains_key(r) ==> run_pops(st, countdown(m)).regs[r] == st.regs[r],
    decreases m,
{
    if m > 0 {
        let st1 = PopState {
            stack: st.stack.drop_last(),
            regs: st.regs.insert((m - 1) as nat, st.stack.last()),
        };
        assert(countdown(m).drop_first() =~= countdown((m - 1) as nat));
        lemma_run_pops_keeps(st1, (m - 1) as nat, r);
    }
}

/// Arguments reach their registers in order: the code that pops the first `m`
/// arguments (at most six) pops into the System V argument registers, last
/// first, so that with the arguments pushed in order, argument `i` ends up in
/// the `i`-th argument register.
pub proof fn lemma_arguments_in_registers(m: nat, st: PopState)
    requires
        m <= 6,
        m <= st.stack.len(),
    ensures
        pop_args(m) == pop_lines(countdown(m)),
        forall|i: int|
            0 <= i < m ==> #[trigger] run_pops(st, countdown(m)).regs[i as nat] == st.stack[st.stack.len()
                - m + i],
{
    lemma_pop_args_lines(m);
    lemma_run_pops(st, m);
}

/// Moves into each parameter's slot, from index `i` on, the argument register
/// of the same index, for the parameters that come in registers.
pub open spec fn parameter_moves(slots: Slots, params: Seq<(Type, Seq<char>)>, i: nat) -> Seq<char>
    decreases params.len() - i,
{
    if i >= params.len() || i >= 6 {
        Seq::empty()
    } else {
        line("mov "@ + slot_operand(slots[params[i as int].1]) + ", "@
            + sysv_argument_registers()[i as int]) + parameter_moves(slots, params, i + 1)
    }
}

/// The prologue stores the `i`-th System V argument register into the slot of
/// the `i`-th parameter, for the first six parameters, in order.
pub proof fn lemma_parameters_from_registers(slots: Slots, params: Seq<(Type, Seq<char>)>, i: nat)
    ensures
        store_params(slots, params, i) == parameter_moves(slots, params, i),
    decreases params.len() - i,
{
    if i < params.len() && i < 6 {
        assert(arg_register(i) == sysv_argument_registers()[i as int]);
        lemma_parameters_from_registers(slots, params, i + 1);
    }
}

} // verus!
