//! x86-64 code generation (Intel syntax, System V calling convention).
use vstd::prelude::*;
use crate::ast::{
    expr_view, exprs_view, lemma_exprs_view_index, lemma_exprs_view_len, lemma_stmts_view_index,
    lemma_stmts_view_len, stmt_view, stmts_view, BinaryOp, Expression, FunctionDecl, Program,
    SpecExpr, SpecFunction, SpecProgram, SpecStmt, Statement, Type,
};
use crate::assoc::{entries_map, find_name, lemma_entries_map, names_distinct};
use crate::semantic_analyzer::{
    analyze_program, check_args, check_block, check_expr, check_function, check_functions,
    check_stmt, define, define_params, lemma_function_restores_scopes, lookup, register_functions,
    AnalyzerState, Scopes, Signatures,
};
use crate::text::{i32_signed_text, i32_text, int_text, nat_text, signed_text, usize_text};

verus! {

/// Where each variable lives: its offset from `rbp`.
pub type Slots = Map<Seq<char>, int>;

/// One instruction line: indented, newline-terminated.
pub open spec fn line(s: Seq<char>) -> Seq<char> {
    "  "@ + s + "\n"@
}

/// A label definition line.
pub open spec fn label_line(l: Seq<char>) -> Seq<char> {
    l + ":\n"@
}

/// The name of the `n`-th generated label.
pub open spec fn label_name(n: nat) -> Seq<char> {
    ".L"@ + nat_text(n)
}

/// A memory operand `[rbp ±off]`.
pub open spec fn slot_operand(off: int) -> Seq<char> {
    "[rbp "@ + signed_text(off) + "]"@
}

/// The registers that carry the first six arguments.
pub open spec fn arg_register(i: nat) -> Seq<char> {
    if i == 0 {
        "rdi"@
    } else if i == 1 {
        "rsi"@
    } else if i == 2 {
        "rdx"@
    } else if i == 3 {
        "rcx"@
    } else if i == 4 {
        "r8"@
    } else {
        "r9"@
    }
}

/// Whether a call made at this depth of temporaries needs 8 bytes of padding
/// to keep the stack 16-byte aligned.
pub open spec fn needs_padding(depth: nat) -> bool {
    depth % 16 != 0
}

/// A call, padded so that the stack is 16-byte aligned at the call.
pub open spec fn aligned_call(depth: nat, name: Seq<char>) -> Seq<char> {
    if needs_padding(depth) {
        line("sub rsp, 8"@) + line("call "@ + name) + line("add rsp, 8"@)
    } else {
        line("call "@ + name)
    }
}

/// The instructions that combine `rax` (left) and `rdi` (right) into `rax`.
pub open spec fn op_code(op: BinaryOp) -> Seq<char> {
    match op {
        BinaryOp::Add => line("add rax, rdi"@),
        BinaryOp::Sub => line("sub rax, rdi"@),
        BinaryOp::Mul => line("imul rax, rdi"@),
        BinaryOp::Div => line("cqo"@) + line("idiv rdi"@),
        BinaryOp::Equal => line("cmp rax, rdi"@) + line("sete al"@) + line("movzx rax, al"@),
        BinaryOp::NotEqual => line("cmp rax, rdi"@) + line("setne al"@) + line("movzx rax, al"@),
        BinaryOp::Less => line("cmp rax, rdi"@) + line("setl al"@) + line("movzx rax, al"@),
        BinaryOp::LessEqual => line("cmp rax, rdi"@) + line("setle al"@) + line("movzx rax, al"@),
        BinaryOp::Greater => line("cmp rax, rdi"@) + line("setg al"@) + line("movzx rax, al"@),
        BinaryOp::GreaterEqual => line("cmp rax, rdi"@) + line("setge al"@) + line(
            "movzx rax, al"@,
        ),
    }
}

/// Pops the first `m` arguments into their registers, the last one first.
pub open spec fn pop_args(m: nat) -> Seq<char>
    decreases m,
{
    if m == 0 {
        Seq::empty()
    } else {
        line("pop "@ + arg_register((m - 1) as nat)) + pop_args((m - 1) as nat)
    }
}

/// The code that leaves an expression's value in `rax`, and the depth of
/// temporaries (bytes pushed) afterwards.
pub open spec fn gen_expr(slots: Slots, depth: nat, e: SpecExpr) -> (Seq<char>, nat)
    decreases e, 0nat,
{
    match e {
        SpecExpr::IntLiteral(i) => (line("mov rax, "@ + int_text(i as int)), depth),
        SpecExpr::BoolLiteral(b) => (
            line("mov rax, "@ + if b {
                "1"@
            } else {
                "0"@
            }),
            depth,
        ),
        SpecExpr::Variable(n) => (line("mov rax, "@ + slot_operand(slots[n])), depth),
        SpecExpr::Binary(op, l, r) => {
            let (tl, dl) = gen_expr(slots, depth, *l);
            let (tr, dr) = gen_expr(slots, dl + 8, *r);
            (
                tl + line("push rax"@) + tr + line("mov rdi, rax"@) + line("pop "@ + "rax"@) + op_code(
                    op,
                ),
                (dr - 8) as nat,
            )
        },
        SpecExpr::Call(name, args) => {
            let (ta, da) = gen_args(slots, depth, args, 0);
            let m = if args.len() < 6 {
                args.len()
            } else {
                6
            };
            let dp = (da - 8 * m) as nat;
            (ta + pop_args(m) + aligned_call(dp, name), dp)
        },
    }
}

/// Evaluates and pushes the arguments from index `i` on.
pub open spec fn gen_args(slots: Slots, depth: nat, args: Seq<SpecExpr>, i: nat) -> (Seq<char>, nat)
    decreases args, args.len() - i,
{
    if i >= args.len() {
        (Seq::empty(), depth)
    } else {
        let (t, d) = gen_expr(slots, depth, args[i as int]);
        let (rest, dr) = gen_args(slots, d + 8, args, i + 1);
        (t + line("push rax"@) + rest, dr)
    }
}

/// The slots visible after a statement, in the scope the statement stands in.
/// A declaration takes the next 8 bytes of the frame (`used` bytes are already
/// given out), so a name declared again, in this scope or an inner one, gets a
/// slot of its own; a block's declarations end with the block.
pub open spec fn scope_after(slots: Slots, used: nat, s: SpecStmt) -> Slots
    decreases s, 0nat,
{
    match s {
        SpecStmt::VarDecl(_, name, _) => slots.insert(name, -(used + 8)),
        SpecStmt::If(_, th, el) => {
            let s1 = scope_after(slots, used, *th);
            match el {
                Some(e) => scope_after(s1, used + 8 * stmt_decls(*th), *e),
                None => s1,
            }
        },
        SpecStmt::While(_, body) => scope_after(slots, used, *body),
        _ => slots,
    }
}

/// The code of a statement, with the label counter and depth afterwards.
/// `slots` are the visible variables, `used` the bytes of the frame given out
/// so far, and `ret` the label of the function's epilogue.
pub open spec fn gen_stmt(
    slots: Slots,
    used: nat,
    ret: Seq<char>,
    labels: nat,
    depth: nat,
    s: SpecStmt,
) -> (Seq<char>, nat, nat)
    decreases s, 0nat,
{
    match s {
        SpecStmt::VarDecl(_, name, init) => match init {
            Some(e) => {
                let (t, d) = gen_expr(slots, depth, e);
                (t + line("mov "@ + slot_operand(-(used + 8)) + ", rax"@), labels, d)
            },
            None => (Seq::empty(), labels, depth),
        },
        SpecStmt::Assign(name, e) => {
            let (t, d) = gen_expr(slots, depth, e);
            (t + line("mov "@ + slot_operand(slots[name]) + ", rax"@), labels, d)
        },
        SpecStmt::Block(ss) => gen_block(slots, used, ret, labels, depth, ss, 0),
        SpecStmt::If(cond, th, el) => {
            let else_label = label_name(labels);
            let end_label = label_name(labels + 1);
            let (tc, dc) = gen_expr(slots, depth, cond);
            let (tt, lt, dt) = gen_stmt(slots, used, ret, labels + 2, dc, *th);
            let (te, le, de) = match el {
                Some(e) => gen_stmt(
                    scope_after(slots, used, *th),
                    used + 8 * stmt_decls(*th),
                    ret,
                    lt,
                    dt,
                    *e,
                ),
                None => (Seq::empty(), lt, dt),
            };
            (
                tc + line("cmp rax, 0"@) + line("je "@ + else_label) + tt + line(
                    "jmp "@ + end_label,
                ) + label_line(else_label) + te + label_line(end_label),
                le,
                de,
            )
        },
        SpecStmt::While(cond, body) => {
            let start_label = label_name(labels);
            let end_label = label_name(labels + 1);
            let (tc, dc) = gen_expr(slots, depth, cond);
            let (tb, lb, db) = gen_stmt(slots, used, ret, labels + 2, dc, *body);
            (
                label_line(start_label) + tc + line("cmp rax, 0"@) + line("je "@ + end_label) + tb
                    + line("jmp "@ + start_label) + label_line(end_label),
                lb,
                db,
            )
        },
        SpecStmt::Return(e) => match e {
            Some(e) => {
                let (t, d) = gen_expr(slots, depth, e);
                (t + line("jmp "@ + ret), labels, d)
            },
            None => (line("jmp "@ + ret), labels, depth),
        },
        SpecStmt::PrintInt(e) => {
            let (t, d) = gen_expr(slots, depth, e);
            (t + line("mov rdi, rax"@) + aligned_call(d, "printInt"@), labels, d)
        },
        SpecStmt::Expression(e) => {
            let (t, d) = gen_expr(slots, depth, e);
            (t, labels, d)
        },
    }
}

/// The code of the statements of a block from index `i` on; each statement
/// sees the declarations of the ones before it.
pub open spec fn gen_block(
    slots: Slots,
    used: nat,
    ret: Seq<char>,
    labels: nat,
    depth: nat,
    ss: Seq<SpecStmt>,
    i: nat,
) -> (Seq<char>, nat, nat)
    decreases ss, ss.len() - i,
{
    if i >= ss.len() {
        (Seq::empty(), labels, depth)
    } else {
        let (t, l, d) = gen_stmt(slots, used, ret, labels, depth, ss[i as int]);
        let (rest, lr, dr) = gen_block(
            scope_after(slots, used, ss[i as int]),
            used + 8 * stmt_decls(ss[i as int]),
            ret,
            l,
            d,
            ss,
            i + 1,
        );
        (t + rest, lr, dr)
    }
}

/// Gives each parameter from index `i` on the next 8-byte slot below `rbp`.
/// `used` is the number of bytes already given out.
pub open spec fn param_slots(slots: Slots, used: nat, params: Seq<(Type, Seq<char>)>, i: nat) -> (
    Slots,
    nat,
)
    decreases params.len() - i,
{
    if i >= params.len() {
        (slots, used)
    } else {
        param_slots(slots.insert(params[i as int].1, -(used + 8)), used + 8, params, i + 1)
    }
}

/// The slots of a function's parameters, and the bytes they take; its local
/// variables take the 8-byte units below them, one per declaration.
pub open spec fn frame(f: SpecFunction) -> (Slots, nat) {
    param_slots(Map::empty(), 0, f.params, 0)
}

/// The bytes of a function's frame: one 8-byte unit per parameter and per
/// declaration. When each name is declared once this is the frame of one slot
/// per name; a name declared again, in the same or in another block, takes a
/// further slot, so that a declaration never takes a slot that a visible
/// variable holds.
pub open spec fn frame_bytes(f: SpecFunction) -> nat {
    8 * (f.params.len() + stmt_decls(f.body))
}

/// `n` rounded up to a multiple of 16.
pub open spec fn round_up_16(n: nat) -> nat {
    ((n + 15) / 16 * 16) as nat
}

/// Moves the first (up to six) register arguments into their slots, from index `i` on.
pub open spec fn store_params(slots: Slots, params: Seq<(Type, Seq<char>)>, i: nat) -> Seq<
    char,
>
    decreases params.len() - i,
{
    if i >= params.len() || i >= 6 {
        Seq::empty()
    } else {
        line("mov "@ + slot_operand(slots[params[i as int].1]) + ", "@ + arg_register(i))
            + store_params(slots, params, i + 1)
    }
}

/// The code of a function, with the label counter and depth afterwards. The
/// function takes label number `labels` for its epilogue.
pub open spec fn gen_function(labels: nat, depth: nat, f: SpecFunction) -> (Seq<char>, nat, nat) {
    let ret = label_name(labels);
    let (slots, used) = frame(f);
    let size = round_up_16(frame_bytes(f));
    let prologue = label_line(f.name) + line("push rbp"@) + line("mov rbp, rsp"@) + if size > 0 {
        line("sub rsp, "@ + int_text(size as int))
    } else {
        Seq::empty()
    } + store_params(slots, f.params, 0);
    let (body, lb, db) = gen_stmt(slots, used, ret, labels + 1, depth, f.body);
    (
        prologue + body + label_line(ret) + line("mov rsp, rbp"@) + line("pop rbp"@) + line(
            "ret"@,
        ) + "\n"@,
        lb,
        db,
    )
}

/// The code of the functions from index `i` on.
pub open spec fn gen_functions(labels: nat, depth: nat, fs: Seq<SpecFunction>, i: nat) -> (
    Seq<char>,
    nat,
    nat,
)
    decreases fs.len() - i,
{
    if i >= fs.len() {
        (Seq::empty(), labels, depth)
    } else {
        let (t, l, d) = gen_function(labels, depth, fs[i as int]);
        let (rest, lr, dr) = gen_functions(l, d, fs, i + 1);
        (t + rest, lr, dr)
    }
}

/// The assembly header.
pub open spec fn preamble() -> Seq<char> {
    ".intel_syntax noprefix\n"@ + ".global main\n"@ + ".extern printInt\n\n"@
}

/// The assembly of a program, with the label counter and depth afterwards.
pub open spec fn gen_program(labels: nat, depth: nat, p: SpecProgram) -> (Seq<char>, nat, nat) {
    let (t, l, d) = gen_functions(labels, depth, p.functions, 0);
    (preamble() + t, l, d)
}

/// Pushes made while evaluating an expression (one per binary operation and
/// per call argument).
pub open spec fn expr_pushes(e: SpecExpr) -> nat
    decreases e, 0nat,
{
    match e {
        SpecExpr::Binary(_, l, r) => 1 + expr_pushes(*l) + expr_pushes(*r),
        SpecExpr::Call(_, args) => args.len() + args_pushes(args, 0),
        _ => 0,
    }
}

pub open spec fn args_pushes(args: Seq<SpecExpr>, i: nat) -> nat
    decreases args, args.len() - i,
{
    if i >= args.len() {
        0
    } else {
        expr_pushes(args[i as int]) + args_pushes(args, i + 1)
    }
}

pub open spec fn opt_expr_pushes(e: Option<SpecExpr>) -> nat {
    match e {
        Some(e) => expr_pushes(e),
        None => 0,
    }
}

/// Pushes made while running the code of a statement.
pub open spec fn stmt_pushes(s: SpecStmt) -> nat
    decreases s, 0nat,
{
    match s {
        SpecStmt::VarDecl(_, _, init) => opt_expr_pushes(init),
        SpecStmt::Assign(_, e) => expr_pushes(e),
        SpecStmt::Block(ss) => block_pushes(ss, 0),
        SpecStmt::If(c, th, el) => expr_pushes(c) + stmt_pushes(*th) + match el {
            Some(e) => stmt_pushes(*e),
            None => 0,
        },
        SpecStmt::While(c, body) => expr_pushes(c) + stmt_pushes(*body),
        SpecStmt::Return(e) => opt_expr_pushes(e),
        SpecStmt::PrintInt(e) => expr_pushes(e),
        SpecStmt::Expression(e) => expr_pushes(e),
    }
}

pub open spec fn block_pushes(ss: Seq<SpecStmt>, i: nat) -> nat
    decreases ss, ss.len() - i,
{
    if i >= ss.len() {
        0
    } else {
        stmt_pushes(ss[i as int]) + block_pushes(ss, i + 1)
    }
}

/// Labels that the code of a statement takes: two per `if` and per `while`.
pub open spec fn stmt_labels(s: SpecStmt) -> nat
    decreases s, 0nat,
{
    match s {
        SpecStmt::Block(ss) => block_labels(ss, 0),
        SpecStmt::If(_, th, el) => 2 + stmt_labels(*th) + match el {
            Some(e) => stmt_labels(*e),
            None => 0,
        },
        SpecStmt::While(_, body) => 2 + stmt_labels(*body),
        _ => 0,
    }
}

pub open spec fn block_labels(ss: Seq<SpecStmt>, i: nat) -> nat
    decreases ss, ss.len() - i,
{
    if i >= ss.len() {
        0
    } else {
        stmt_labels(ss[i as int]) + block_labels(ss, i + 1)
    }
}

/// Variable declarations in a statement.
pub open spec fn stmt_decls(s: SpecStmt) -> nat
    decreases s, 0nat,
{
    match s {
        SpecStmt::VarDecl(_, _, _) => 1,
        SpecStmt::Block(ss) => block_decls(ss, 0),
        SpecStmt::If(_, th, el) => stmt_decls(*th) + match el {
            Some(e) => stmt_decls(*e),
            None => 0,
        },
        SpecStmt::While(_, body) => stmt_decls(*body),
        _ => 0,
    }
}

pub open spec fn block_decls(ss: Seq<SpecStmt>, i: nat) -> nat
    decreases ss, ss.len() - i,
{
    if i >= ss.len() {
        0
    } else {
        stmt_decls(ss[i as int]) + block_decls(ss, i + 1)
    }
}

/// Every variable that an expression reads has a slot.
pub open spec fn expr_slots_ok(slots: Slots, e: SpecExpr) -> bool
    decreases e, 0nat,
{
    match e {
        SpecExpr::Variable(n) => slots.contains_key(n),
        SpecExpr::Binary(_, l, r) => expr_slots_ok(slots, *l) && expr_slots_ok(slots, *r),
        SpecExpr::Call(_, args) => args_slots_ok(slots, args, 0),
        _ => true,
    }
}

pub open spec fn args_slots_ok(slots: Slots, args: Seq<SpecExpr>, i: nat) -> bool
    decreases args, args.len() - i,
{
    i >= args.len() || (expr_slots_ok(slots, args[i as int]) && args_slots_ok(slots, args, i + 1))
}

pub open spec fn opt_expr_slots_ok(slots: Slots, e: Option<SpecExpr>) -> bool {
    match e {
        Some(e) => expr_slots_ok(slots, e),
        None => true,
    }
}

/// Every variable that the code of a statement reads or writes is visible;
/// each statement of a block sees the declarations before it.
pub open spec fn stmt_slots_ok(slots: Slots, used: nat, s: SpecStmt) -> bool
    decreases s, 0nat,
{
    match s {
        SpecStmt::VarDecl(_, _, init) => opt_expr_slots_ok(slots, init),
        SpecStmt::Assign(name, e) => slots.contains_key(name) && expr_slots_ok(slots, e),
        SpecStmt::Block(ss) => block_slots_ok(slots, used, ss, 0),
        SpecStmt::If(c, th, el) => expr_slots_ok(slots, c) && stmt_slots_ok(slots, used, *th)
            && match el {
            Some(e) => stmt_slots_ok(
                scope_after(slots, used, *th),
                used + 8 * stmt_decls(*th),
                *e,
            ),
            None => true,
        },
        SpecStmt::While(c, body) => expr_slots_ok(slots, c) && stmt_slots_ok(slots, used, *body),
        SpecStmt::Return(e) => opt_expr_slots_ok(slots, e),
        SpecStmt::PrintInt(e) => expr_slots_ok(slots, e),
        SpecStmt::Expression(e) => expr_slots_ok(slots, e),
    }
}

pub open spec fn block_slots_ok(slots: Slots, used: nat, ss: Seq<SpecStmt>, i: nat) -> bool
    decreases ss, ss.len() - i,
{
    i >= ss.len() || (stmt_slots_ok(slots, used, ss[i as int]) && block_slots_ok(
        scope_after(slots, used, ss[i as int]),
        used + 8 * stmt_decls(ss[i as int]),
        ss,
        i + 1,
    ))
}

/// A function whose variables are all visible where its code uses them, and
/// whose frame offsets fit in an `i32`.
pub open spec fn function_compilable(f: SpecFunction) -> bool {
    &&& stmt_slots_ok(frame(f).0, frame(f).1, f.body)
    &&& frame_bytes(f) + 15 <= i32::MAX
}

/// Labels and pushes of the functions from index `i` on.
pub open spec fn functions_labels(fs: Seq<SpecFunction>, i: nat) -> nat
    decreases fs.len() - i,
{
    if i >= fs.len() {
        0
    } else {
        1 + stmt_labels(fs[i as int].body) + functions_labels(fs, i + 1)
    }
}

pub open spec fn functions_pushes(fs: Seq<SpecFunction>, i: nat) -> nat
    decreases fs.len() - i,
{
    if i >= fs.len() {
        0
    } else {
        stmt_pushes(fs[i as int].body) + functions_pushes(fs, i + 1)
    }
}

/// A program that the generator can compile starting from the given label counter and
/// depth: every variable is used where a declaration of it (or a parameter) is
/// in scope, frames fit in `i32`, and labels and depths fit in `usize`. A use
/// before the declaration, or after the end of its block, has no slot; semantic
/// analysis rejects such programs (`lemma_analyzed_program_compilable`).
pub open spec fn program_compilable(labels: nat, depth: nat, p: SpecProgram) -> bool {
    &&& forall|i: int| 0 <= i < p.functions.len() ==> function_compilable(#[trigger] p.functions[i])
    &&& labels + functions_labels(p.functions, 0) <= usize::MAX
    &&& depth + 8 * functions_pushes(p.functions, 0) <= usize::MAX
}

/// The slots that a list of distinct (name, offset) entries stands for.
pub open spec fn slot_map(s: Seq<(String, i32)>) -> Slots {
    entries_map(s, |o: i32| o as int)
}

proof fn lemma_slot_map(s: Seq<(String, i32)>, k: Seq<char>)
    requires
        names_distinct(s),
    ensures
        slot_map(s).contains_key(k) <==> exists|i: int| 0 <= i < s.len() && s[i].0@ == k,
        forall|i: int| 0 <= i < s.len() && s[i].0@ == k ==> slot_map(s)[k] == s[i].1 as int,
{
    lemma_entries_map(s, |o: i32| o as int, k);
}

/// Two lists of distinct entries with the same entries by name stand for the same slots.
proof fn lemma_slot_map_ext(s: Seq<(String, i32)>, t: Seq<(String, i32)>, m: Slots)
    requires
        names_distinct(s),
        forall|k: Seq<char>|
            #![trigger m.contains_key(k)]
            (m.contains_key(k) <==> exists|i: int| 0 <= i < s.len() && s[i].0@ == k),
        forall|i: int| 0 <= i < s.len() ==> m[#[trigger] s[i].0@] == s[i].1 as int,
        t == s,
    ensures
        slot_map(t) == m,
{
    assert forall|k: Seq<char>| #[trigger] slot_map(s).contains_key(k) == m.contains_key(k) by {
        lemma_slot_map(s, k);
    }
    assert forall|k: Seq<char>| slot_map(s).contains_key(k) implies #[trigger] slot_map(s)[k]
        == m[k] by {
        lemma_slot_map(s, k);
        let i = choose|i: int| 0 <= i < s.len() && s[i].0@ == k;
    }
    assert(slot_map(s) =~= m);
}

/// Evaluating an expression leaves at least as many bytes pushed as before, and
/// at most eight per push it makes.
pub proof fn lemma_gen_expr_depth(slots: Slots, d: nat, e: SpecExpr)
    ensures
        d <= gen_expr(slots, d, e).1 <= d + 8 * expr_pushes(e),
    decreases e, 0nat,
{
    match e {
        SpecExpr::Binary(_, l, r) => {
            lemma_gen_expr_depth(slots, d, *l);
            let dl = gen_expr(slots, d, *l).1;
            lemma_gen_expr_depth(slots, dl + 8, *r);
        },
        SpecExpr::Call(_, args) => {
            lemma_gen_args_depth(slots, d, args, 0);
        },
        _ => {},
    }
}

pub proof fn lemma_gen_args_depth(slots: Slots, d: nat, args: Seq<SpecExpr>, i: nat)
    ensures
        i <= args.len() ==> d + 8 * (args.len() - i) <= gen_args(slots, d, args, i).1 <= d + 8 * (
        args.len() - i + args_pushes(args, i)),
    decreases args, args.len() - i,
{
    if i < args.len() {
        lemma_gen_expr_depth(slots, d, args[i as int]);
        let de = gen_expr(slots, d, args[i as int]).1;
        lemma_gen_args_depth(slots, de + 8, args, i + 1);
    }
}

/// A statement takes exactly `stmt_labels` labels, and its depth grows by at
/// most eight bytes per push.
pub proof fn lemma_gen_stmt_counts(
    slots: Slots,
    used: nat,
    ret: Seq<char>,
    l: nat,
    d: nat,
    s: SpecStmt,
)
    ensures
        gen_stmt(slots, used, ret, l, d, s).1 == l + stmt_labels(s),
        d <= gen_stmt(slots, used, ret, l, d, s).2 <= d + 8 * stmt_pushes(s),
    decreases s, 0nat,
{
    match s {
        SpecStmt::VarDecl(_, _, init) => match init {
            Some(e) => lemma_gen_expr_depth(slots, d, e),
            None => {},
        },
        SpecStmt::Assign(_, e) => lemma_gen_expr_depth(slots, d, e),
        SpecStmt::Block(ss) => lemma_gen_block_counts(slots, used, ret, l, d, ss, 0),
        SpecStmt::If(c, th, el) => {
            lemma_gen_expr_depth(slots, d, c);
            let dc = gen_expr(slots, d, c).1;
            lemma_gen_stmt_counts(slots, used, ret, l + 2, dc, *th);
            let (_, lt, dt) = gen_stmt(slots, used, ret, l + 2, dc, *th);
            match el {
                Some(e) => lemma_gen_stmt_counts(
                    scope_after(slots, used, *th),
                    used + 8 * stmt_decls(*th),
                    ret,
                    lt,
                    dt,
                    *e,
                ),
                None => {},
            }
        },
        SpecStmt::While(c, body) => {
            lemma_gen_expr_depth(slots, d, c);
            let dc = gen_expr(slots, d, c).1;
            lemma_gen_stmt_counts(slots, used, ret, l + 2, dc, *body);
        },
        SpecStmt::Return(e) => match e {
            Some(e) => lemma_gen_expr_depth(slots, d, e),
            None => {},
        },
        SpecStmt::PrintInt(e) => lemma_gen_expr_depth(slots, d, e),
        SpecStmt::Expression(e) => lemma_gen_expr_depth(slots, d, e),
    }
}

pub proof fn lemma_gen_block_counts(
    slots: Slots,
    used: nat,
    ret: Seq<char>,
    l: nat,
    d: nat,
    ss: Seq<SpecStmt>,
    i: nat,
)
    ensures
        gen_block(slots, used, ret, l, d, ss, i).1 == l + block_labels(ss, i),
        d <= gen_block(slots, used, ret, l, d, ss, i).2 <= d + 8 * block_pushes(ss, i),
    decreases ss, ss.len() - i,
{
    if i < ss.len() {
        lemma_gen_stmt_counts(slots, used, ret, l, d, ss[i as int]);
        let (_, l1, d1) = gen_stmt(slots, used, ret, l, d, ss[i as int]);
        lemma_gen_block_counts(
            scope_after(slots, used, ss[i as int]),
            used + 8 * stmt_decls(ss[i as int]),
            ret,
            l1,
            d1,
            ss,
            i + 1,
        );
    }
}

/// Laying out the parameters gives each the next 8 bytes, and every parameter a slot.
pub proof fn lemma_param_slots(slots: Slots, used: nat, params: Seq<(Type, Seq<char>)>, i: nat)
    requires
        i <= params.len(),
    ensures
        param_slots(slots, used, params, i).1 == used + 8 * (params.len() - i),
        slots.dom().subset_of(param_slots(slots, used, params, i).0.dom()),
        forall|j: int|
            i <= j < params.len() ==> param_slots(slots, used, params, i).0.contains_key(
                #[trigger] params[j].1,
            ),
    decreases params.len() - i,
{
    if i < params.len() {
        lemma_param_slots(
            slots.insert(params[i as int].1, -(used + 8)),
            used + 8,
            params,
            i + 1,
        );
    }
}

/// Rounding up with a mask is rounding up to a multiple of 16.
pub proof fn lemma_round_up_16(x: i32)
    requires
        0 <= x <= i32::MAX - 15,
    ensures
        (((x + 15) as i32) & !15i32) as int == round_up_16(x as nat) as int,
{
    assert((((x + 15) as i32) & !15i32) as int == ((x as int + 15) / 16) * 16) by (bit_vector)
        requires
            0 <= x <= i32::MAX - 15,
    ;
}

/// Every name that the scopes declare has a slot.
pub open spec fn scopes_within(scopes: Scopes, slots: Slots) -> bool {
    forall|j: int, k: Seq<char>|
        0 <= j < scopes.len() && #[trigger] scopes[j].contains_key(k) ==> slots.contains_key(k)
}

/// Adding slots keeps every declared name covered.
proof fn lemma_scopes_within_grow(scopes: Scopes, a: Slots, b: Slots)
    requires
        scopes_within(scopes, a),
        a.dom().subset_of(b.dom()),
    ensures
        scopes_within(scopes, b),
{
}

proof fn lemma_lookup_within(scopes: Scopes, slots: Slots, name: Seq<char>)
    requires
        scopes_within(scopes, slots),
        lookup(scopes, name) is Some,
    ensures
        slots.contains_key(name),
    decreases scopes.len(),
{
    if !scopes.last().contains_key(name) {
        assert(scopes_within(scopes.drop_last(), slots)) by {
            assert forall|j: int, k: Seq<char>|
                0 <= j < scopes.drop_last().len() && #[trigger] scopes.drop_last()[j].contains_key(
                    k,
                ) implies slots.contains_key(k) by {
                assert(scopes[j] == scopes.drop_last()[j]);
            }
        }
        lemma_lookup_within(scopes.drop_last(), slots, name);
    } else {
        assert(scopes[scopes.len() - 1].contains_key(name));
    }
}

proof fn lemma_checked_expr_has_slots(sigs: Signatures, scopes: Scopes, slots: Slots, e: SpecExpr)
    requires
        scopes_within(scopes, slots),
        check_expr(sigs, scopes, e) is Ok,
    ensures
        expr_slots_ok(slots, e),
    decreases e, 0nat,
{
    match e {
        SpecExpr::Variable(n) => lemma_lookup_within(scopes, slots, n),
        SpecExpr::Binary(_, l, r) => {
            lemma_checked_expr_has_slots(sigs, scopes, slots, *l);
            lemma_checked_expr_has_slots(sigs, scopes, slots, *r);
        },
        SpecExpr::Call(name, args) => {
            lemma_checked_args_have_slots(sigs, scopes, slots, args, sigs[name].1, 0);
        },
        _ => {},
    }
}

proof fn lemma_checked_args_have_slots(
    sigs: Signatures,
    scopes: Scopes,
    slots: Slots,
    args: Seq<SpecExpr>,
    params: Seq<Type>,
    i: nat,
)
    requires
        scopes_within(scopes, slots),
        args.len() == params.len(),
        check_args(sigs, scopes, args, params, i) is Ok,
    ensures
        args_slots_ok(slots, args, i),
    decreases args, args.len() - i,
{
    if i < args.len() {
        lemma_checked_expr_has_slots(sigs, scopes, slots, args[i as int]);
        lemma_checked_args_have_slots(sigs, scopes, slots, args, params, i + 1);
    }
}

proof fn lemma_define_within(scopes: Scopes, slots: Slots, name: Seq<char>, ty: Type)
    requires
        scopes.len() >= 1,
        scopes_within(scopes, slots),
        slots.contains_key(name),
    ensures
        scopes_within(define(scopes, name, ty).1, slots),
{
    let after = define(scopes, name, ty).1;
    assert forall|j: int, k: Seq<char>|
        0 <= j < after.len() && #[trigger] after[j].contains_key(k) implies slots.contains_key(
        k,
    ) by {
        if j < scopes.len() - 1 {
            assert(after[j] == scopes[j]);
        } else if k != name {
            assert(scopes[j].contains_key(k));
        }
    }
}

proof fn lemma_checked_stmt_has_slots(
    sigs: Signatures,
    ret: crate::semantic_analyzer::Target,
    scopes: Scopes,
    slots: Slots,
    used: nat,
    s: SpecStmt,
)
    requires
        scopes.len() >= 1,
        scopes_within(scopes, slots),
        check_stmt(sigs, ret, scopes, s).0 is Ok,
    ensures
        stmt_slots_ok(slots, used, s),
        scopes_within(check_stmt(sigs, ret, scopes, s).1, scope_after(slots, used, s)),
    decreases s, 0nat,
{
    crate::semantic_analyzer::lemma_check_stmt_frame(sigs, ret, scopes, s);
    match s {
        SpecStmt::VarDecl(ty, name, init) => {
            match init {
                Some(e) => lemma_checked_expr_has_slots(sigs, scopes, slots, e),
                None => {},
            }
            let s1 = slots.insert(name, -(used + 8));
            lemma_scopes_within_grow(scopes, slots, s1);
            lemma_define_within(scopes, s1, name, ty);
        },
        SpecStmt::Assign(name, e) => {
            lemma_lookup_within(scopes, slots, name);
            lemma_checked_expr_has_slots(sigs, scopes, slots, e);
        },
        SpecStmt::Block(ss) => {
            let inner = scopes.push(Map::empty());
            assert(scopes_within(inner, slots)) by {
                assert forall|j: int, k: Seq<char>|
                    0 <= j < inner.len() && #[trigger] inner[j].contains_key(k) implies slots.contains_key(
                    k,
                ) by {
                    if j < scopes.len() {
                        assert(inner[j] == scopes[j]);
                    }
                }
            }
            lemma_checked_block_has_slots(sigs, ret, inner, slots, used, ss, 0);
            let after = check_block(sigs, ret, inner, ss, 0).1;
            crate::semantic_analyzer::lemma_check_block_frame(sigs, ret, inner, ss, 0);
            assert(after.drop_last() =~= scopes) by {
                assert forall|j: int| 0 <= j < scopes.len() implies after.drop_last()[j]
                    == scopes[j] by {
                    assert(inner[j] == scopes[j]);
                }
            }
        },
        SpecStmt::If(c, th, el) => {
            lemma_checked_expr_has_slots(sigs, scopes, slots, c);
            lemma_checked_stmt_has_slots(sigs, ret, scopes, slots, used, *th);
            crate::semantic_analyzer::lemma_check_stmt_frame(sigs, ret, scopes, *th);
            let after = check_stmt(sigs, ret, scopes, *th).1;
            match el {
                Some(e) => lemma_checked_stmt_has_slots(
                    sigs,
                    ret,
                    after,
                    scope_after(slots, used, *th),
                    used + 8 * stmt_decls(*th),
                    *e,
                ),
                None => {},
            }
        },
        SpecStmt::While(c, body) => {
            lemma_checked_expr_has_slots(sigs, scopes, slots, c);
            lemma_checked_stmt_has_slots(sigs, ret, scopes, slots, used, *body);
        },
        SpecStmt::Return(e) => match e {
            Some(e) => lemma_checked_expr_has_slots(sigs, scopes, slots, e),
            None => {},
        },
        SpecStmt::PrintInt(e) => lemma_checked_expr_has_slots(sigs, scopes, slots, e),
        SpecStmt::Expression(e) => lemma_checked_expr_has_slots(sigs, scopes, slots, e),
    }
}

proof fn lemma_checked_block_has_slots(
    sigs: Signatures,
    ret: crate::semantic_analyzer::Target,
    scopes: Scopes,
    slots: Slots,
    used: nat,
    ss: Seq<SpecStmt>,
    i: nat,
)
    requires
        scopes.len() >= 1,
        scopes_within(scopes, slots),
        check_block(sigs, ret, scopes, ss, i).0 is Ok,
    ensures
        block_slots_ok(slots, used, ss, i),
    decreases ss, ss.len() - i,
{
    if i < ss.len() {
        lemma_checked_stmt_has_slots(sigs, ret, scopes, slots, used, ss[i as int]);
        crate::semantic_analyzer::lemma_check_stmt_frame(sigs, ret, scopes, ss[i as int]);
        let after = check_stmt(sigs, ret, scopes, ss[i as int]).1;
        lemma_checked_block_has_slots(
            sigs,
            ret,
            after,
            scope_after(slots, used, ss[i as int]),
            used + 8 * stmt_decls(ss[i as int]),
            ss,
            i + 1,
        );
    }
}

proof fn lemma_define_params_within(
    scopes: Scopes,
    slots: Slots,
    params: Seq<(Type, Seq<char>)>,
    i: nat,
)
    requires
        scopes.len() >= 1,
        scopes_within(scopes, slots),
        forall|j: int| 0 <= j < params.len() ==> slots.contains_key(#[trigger] params[j].1),
    ensures
        define_params(scopes, params, i).0 is Ok ==> scopes_within(
            define_params(scopes, params, i).1,
            slots,
        ),
        define_params(scopes, params, i).1.len() == scopes.len(),
    decreases params.len() - i,
{
    if i < params.len() {
        let (r, after) = define(scopes, params[i as int].1, params[i as int].0);
        lemma_define_within(scopes, slots, params[i as int].1, params[i as int].0);
        if r is Ok {
            lemma_define_params_within(after, slots, params, i + 1);
        }
    }
}

/// The variables that a function's code reads or writes all have slots in its
/// frame when the function checks in scopes that declare nothing yet.
proof fn lemma_checked_function_has_slots(sigs: Signatures, scopes: Scopes, f: SpecFunction)
    requires
        scopes.len() >= 1,
        forall|j: int| 0 <= j < scopes.len() ==> #[trigger] scopes[j] == Map::<Seq<char>, Type>::empty(),
        check_function(sigs, scopes, f).0 is Ok,
    ensures
        stmt_slots_ok(frame(f).0, frame(f).1, f.body),
{
    let slots = frame(f).0;
    lemma_param_slots(Map::empty(), 0, f.params, 0);
    let inner = scopes.push(Map::empty());
    assert(scopes_within(inner, slots)) by {
        assert forall|j: int, k: Seq<char>|
            0 <= j < inner.len() && #[trigger] inner[j].contains_key(k) implies slots.contains_key(
            k,
        ) by {
            if j < scopes.len() {
                assert(inner[j] == scopes[j]);
            }
        }
    }
    lemma_define_params_within(inner, slots, f.params, 0);
    let after_params = define_params(inner, f.params, 0).1;
    lemma_checked_stmt_has_slots(
        sigs,
        (f.name, f.return_type),
        after_params,
        slots,
        frame(f).1,
        f.body,
    );
}

proof fn lemma_checked_functions_have_slots(st: AnalyzerState, fs: Seq<SpecFunction>, i: nat)
    requires
        st.scopes.len() >= 1,
        forall|j: int| 0 <= j < st.scopes.len() ==> #[trigger] st.scopes[j] == Map::<Seq<char>, Type>::empty(),
        check_functions(st, fs, i).0 is Ok,
    ensures
        forall|j: int|
            i <= j < fs.len() ==> stmt_slots_ok(frame(#[trigger] fs[j]).0, frame(fs[j]).1, fs[j].body),
    decreases fs.len() - i,
{
    if i < fs.len() {
        lemma_checked_function_has_slots(st.functions, st.scopes, fs[i as int]);
        lemma_function_restores_scopes(st.functions, st.scopes, fs[i as int]);
        let (r, scopes) = check_function(st.functions, st.scopes, fs[i as int]);
        let st2 = AnalyzerState {
            scopes,
            functions: st.functions,
            current: Some((fs[i as int].name, fs[i as int].return_type)),
        };
        lemma_checked_functions_have_slots(st2, fs, i + 1);
    }
}

/// A program that passes semantic analysis (from scopes that declare nothing,
/// as a new analyzer has) has a slot in its frame for every variable that its
/// code reads or writes: code generation never looks up a missing variable.
pub proof fn lemma_analyzed_program_has_slots(st: AnalyzerState, p: SpecProgram)
    requires
        st.scopes.len() >= 1,
        forall|j: int| 0 <= j < st.scopes.len() ==> #[trigger] st.scopes[j] == Map::<Seq<char>, Type>::empty(),
        analyze_program(st, p).0 is Ok,
    ensures
        forall|i: int|
            0 <= i < p.functions.len() ==> stmt_slots_ok(
                frame(#[trigger] p.functions[i]).0,
                frame(p.functions[i]).1,
                p.functions[i].body,
            ),
{
    let (r, functions) = register_functions(st.functions, p.functions, 0);
    let st1 = AnalyzerState { scopes: st.scopes, functions, current: st.current };
    lemma_checked_functions_have_slots(st1, p.functions, 0);
}

/// Two lists with the same names and offsets, entry by entry, stand for the same slots.
proof fn lemma_slot_map_same(s: Seq<(String, i32)>, t: Seq<(String, i32)>)
    requires
        s.len() == t.len(),
        forall|i: int| 0 <= i < s.len() ==> s[i].0@ == t[i].0@ && s[i].1 == t[i].1,
    ensures
        slot_map(s) == slot_map(t),
        names_distinct(s) ==> names_distinct(t),
    decreases s.len(),
{
    if s.len() > 0 {
        lemma_slot_map_same(s.drop_last(), t.drop_last());
    }
}

/// A copy of a list of (name, offset) entries.
fn copy_entries(v: &Vec<(String, i32)>) -> (r: Vec<(String, i32)>)
    ensures
        r@.len() == v@.len(),
        forall|i: int| 0 <= i < v@.len() ==> r@[i].0@ == v@[i].0@ && r@[i].1 == v@[i].1,
        slot_map(r@) == slot_map(v@),
        names_distinct(v@) ==> names_distinct(r@),
{
    let mut r: Vec<(String, i32)> = Vec::new();
    let mut i: usize = 0;
    while i < v.len()
        invariant
            i <= v@.len(),
            r@.len() == i,
            forall|j: int| 0 <= j < i ==> r@[j].0@ == v@[j].0@ && r@[j].1 == v@[j].1,
        decreases v@.len() - i,
    {
        r.push((v[i].0.clone(), v[i].1));
        i = i + 1;
    }
    proof {
        lemma_slot_map_same(v@, r@);
    }
    r
}

/// A program that passes semantic analysis can be compiled, as long as its
/// frames fit in `i32` and its labels and pushes in `usize`.
pub proof fn lemma_analyzed_program_compilable(st: AnalyzerState, p: SpecProgram, labels: nat, depth: nat)
    requires
        st.scopes.len() >= 1,
        forall|j: int| 0 <= j < st.scopes.len() ==> #[trigger] st.scopes[j] == Map::<Seq<char>, Type>::empty(),
        analyze_program(st, p).0 is Ok,
        forall|i: int| 0 <= i < p.functions.len() ==> frame_bytes(#[trigger] p.functions[i]) + 15 <= i32::MAX,
        labels + functions_labels(p.functions, 0) <= usize::MAX,
        depth + 8 * functions_pushes(p.functions, 0) <= usize::MAX,
    ensures
        program_compilable(labels, depth, p),
{
    lemma_analyzed_program_has_slots(st, p);
}

/// `a` followed by `b`.
fn join(a: &str, b: &str) -> (s: String)
    ensures
        s@ == a@ + b@,
{
    let mut s = String::from_str(a);
    s.append(b);
    s
}

/// The operand `[rbp ±off]`.
fn slot_text(off: i32) -> (s: String)
    ensures
        s@ == slot_operand(off as int),
{
    let t = join("[rbp ", i32_signed_text(off).as_str());
    join(t.as_str(), "]")
}

fn register_name(i: usize) -> (r: &'static str)
    ensures
        r@ == arg_register(i as nat),
{
    if i == 0 {
        "rdi"
    } else if i == 1 {
        "rsi"
    } else if i == 2 {
        "rdx"
    } else if i == 3 {
        "rcx"
    } else if i == 4 {
        "r8"
    } else {
        "r9"
    }
}

/// The pushes that an expression makes, if at most `cap`.
fn expr_push_count(e: &Expression, cap: usize) -> (r: Option<usize>)
    ensures
        r == if expr_pushes(e@) <= cap {
            Some(expr_pushes(e@) as usize)
        } else {
            None::<usize>
        },
    decreases e, 1nat,
{
    match e {
        Expression::Binary(_, left, right) => {
            if cap == 0 {
                return None;
            }
            match expr_push_count(left, cap - 1) {
                None => None,
                Some(a) => match expr_push_count(right, cap - 1 - a) {
                    None => None,
                    Some(b) => Some(1 + a + b),
                },
            }
        },
        Expression::Call(_, args) => {
            proof {
                lemma_exprs_view_len(args@);
            }
            args_push_count(args, cap)
        },
        _ => Some(0),
    }
}

/// One push per argument plus the pushes that the arguments make, if at most `cap`.
fn args_push_count(args: &Vec<Expression>, cap: usize) -> (r: Option<usize>)
    ensures
        r == if args@.len() + args_pushes(exprs_view(args@), 0) <= cap {
            Some((args@.len() + args_pushes(exprs_view(args@), 0)) as usize)
        } else {
            None::<usize>
        },
    decreases args, 0nat,
{
    let ghost a = exprs_view(args@);
    proof {
        lemma_exprs_view_len(args@);
    }
    let mut acc: usize = 0;
    let mut i: usize = 0;
    while i < args.len()
        invariant
            a == exprs_view(args@),
            a.len() == args@.len(),
            i <= args@.len(),
            acc <= cap,
            acc + (a.len() - i) + args_pushes(a, i as nat) == a.len() + args_pushes(a, 0),
        decreases args@.len() - i,
    {
        proof {
            lemma_exprs_view_index(args@, i as int);
            assert(decreases_to!(args => args@[i as int]));
        }
        if acc == cap {
            return None;
        }
        match expr_push_count(&args[i], cap - acc - 1) {
            None => {
                return None;
            },
            Some(q) => {
                acc = acc + 1 + q;
            },
        }
        i = i + 1;
    }
    Some(acc)
}

/// The labels, pushes and declarations of a statement, if each is within its cap.
#[verifier::loop_isolation(false)]
fn stmt_counts(s: &Statement, cl: usize, cp: usize, cd: usize) -> (r: Option<(usize, usize, usize)>)
    ensures
        r == if stmt_labels(s@) <= cl && stmt_pushes(s@) <= cp && stmt_decls(s@) <= cd {
            Some((stmt_labels(s@) as usize, stmt_pushes(s@) as usize, stmt_decls(s@) as usize))
        } else {
            None::<(usize, usize, usize)>
        },
    decreases s,
{
    match s {
        Statement::VarDecl(_, _, init) => {
            if cd == 0 {
                return None;
            }
            let p = match init {
                Some(e) => expr_push_count(e, cp),
                None => Some(0),
            };
            match p {
                None => None,
                Some(p) => Some((0, p, 1)),
            }
        },
        Statement::Assign(_, e) => match expr_push_count(e, cp) {
            None => None,
            Some(p) => Some((0, p, 0)),
        },
        Statement::Block(stmts) => {
            let ghost ss = stmts_view(stmts@);
            proof {
                lemma_stmts_view_len(stmts@);
            }
            let mut al: usize = 0;
            let mut ap: usize = 0;
            let mut ad: usize = 0;
            let mut i: usize = 0;
            while i < stmts.len()
                invariant
                    ss == stmts_view(stmts@),
                    ss.len() == stmts@.len(),
                    i <= stmts@.len(),
                    al <= cl,
                    ap <= cp,
                    ad <= cd,
                    al + block_labels(ss, i as nat) == block_labels(ss, 0),
                    ap + block_pushes(ss, i as nat) == block_pushes(ss, 0),
                    ad + block_decls(ss, i as nat) == block_decls(ss, 0),
                decreases stmts@.len() - i,
            {
                proof {
                    lemma_stmts_view_index(stmts@, i as int);
                    assert(decreases_to!(*s => stmts@[i as int]));
                }
                match stmt_counts(&stmts[i], cl - al, cp - ap, cd - ad) {
                    None => {
                        return None;
                    },
                    Some((l, p, d)) => {
                        al = al + l;
                        ap = ap + p;
                        ad = ad + d;
                    },
                }
                i = i + 1;
            }
            Some((al, ap, ad))
        },
        Statement::If(c, th, el) => {
            if cl < 2 {
                return None;
            }
            let pc = match expr_push_count(c, cp) {
                None => {
                    return None;
                },
                Some(pc) => pc,
            };
            let (lt, pt, dt) = match stmt_counts(th, cl - 2, cp - pc, cd) {
                None => {
                    return None;
                },
                Some(t) => t,
            };
            match el {
                Some(e) => match stmt_counts(e, cl - 2 - lt, cp - pc - pt, cd - dt) {
                    None => None,
                    Some((le, pe, de)) => Some((2 + lt + le, pc + pt + pe, dt + de)),
                },
                None => Some((2 + lt, pc + pt, dt)),
            }
        },
        Statement::While(c, body) => {
            if cl < 2 {
                return None;
            }
            let pc = match expr_push_count(c, cp) {
                None => {
                    return None;
                },
                Some(pc) => pc,
            };
            match stmt_counts(body, cl - 2, cp - pc, cd) {
                None => None,
                Some((lb, pb, db)) => Some((2 + lb, pc + pb, db)),
            }
        },
        Statement::Return(e) => match e {
            Some(e) => match expr_push_count(e, cp) {
                None => None,
                Some(p) => Some((0, p, 0)),
            },
            None => Some((0, 0, 0)),
        },
        Statement::PrintInt(e) => match expr_push_count(e, cp) {
            None => None,
            Some(p) => Some((0, p, 0)),
        },
        Statement::Expression(e) => match expr_push_count(e, cp) {
            None => None,
            Some(p) => Some((0, p, 0)),
        },
    }
}

pub struct CodeGenerator {
    output: String,
    label_counter: usize,
    current_ret_label: String,
    var_map: Vec<(String, i32)>,
    stack_depth: usize,
}

impl CodeGenerator {
    /// The assembly text produced so far.
    pub closed spec fn text(&self) -> Seq<char> {
        self.output@
    }

    /// How many labels have been handed out.
    pub closed spec fn labels(&self) -> nat {
        self.label_counter as nat
    }

    /// Bytes of temporaries pushed on the stack at this point of the code.
    pub closed spec fn depth(&self) -> nat {
        self.stack_depth as nat
    }

    /// The slots of the function being generated.
    pub closed spec fn slots(&self) -> Slots {
        slot_map(self.var_map@)
    }

    /// The epilogue label of the function being generated.
    pub closed spec fn ret_label(&self) -> Seq<char> {
        self.current_ret_label@
    }

    pub closed spec fn wf(&self) -> bool {
        names_distinct(self.var_map@)
    }

    /// A generator with no output, no labels handed out, nothing pushed.
    pub fn new() -> (g: CodeGenerator)
        ensures
            g.wf(),
            g.text() == Seq::<char>::empty(),
            g.labels() == 0,
            g.depth() == 0,
            g.slots() == Map::<Seq<char>, int>::empty(),
            g.ret_label() == Seq::<char>::empty(),
    {
        CodeGenerator {
            output: String::new(),
            label_counter: 0,
            current_ret_label: String::new(),
            var_map: Vec::new(),
            stack_depth: 0,
        }
    }

    fn push_rax(&mut self)
        requires
            old(self).wf(),
            old(self).depth() + 8 <= usize::MAX,
        ensures
            final(self).wf(),
            final(self).text() == old(self).text() + line("push rax"@),
            final(self).depth() == old(self).depth() + 8,
            final(self).labels() == old(self).labels(),
            final(self).slots() == old(self).slots(),
            final(self).ret_label() == old(self).ret_label(),
    {
        self.emit("push rax");
        self.stack_depth = self.stack_depth + 8;
    }

    fn pop_reg(&mut self, reg: &str)
        requires
            old(self).wf(),
            old(self).depth() >= 8,
        ensures
            final(self).wf(),
            final(self).text() == old(self).text() + line("pop "@ + reg@),
            final(self).depth() == old(self).depth() - 8,
            final(self).labels() == old(self).labels(),
            final(self).slots() == old(self).slots(),
            final(self).ret_label() == old(self).ret_label(),
    {
        self.emit(join("pop ", reg).as_str());
        self.stack_depth = self.stack_depth - 8;
    }

    /// Calls `func` with the stack 16-byte aligned, as the System V ABI requires.
    fn call_aligned(&mut self, func: &str)
        requires
            old(self).wf(),
        ensures
            final(self).wf(),
            final(self).text() == old(self).text() + aligned_call(old(self).depth(), func@),
            final(self).depth() == old(self).depth(),
            final(self).labels() == old(self).labels(),
            final(self).slots() == old(self).slots(),
            final(self).ret_label() == old(self).ret_label(),
    {
        let needs_alignment = (self.stack_depth % 16) != 0;
        if needs_alignment {
            self.emit("sub rsp, 8");
        }
        self.emit(join("call ", func).as_str());
        if needs_alignment {
            self.emit("add rsp, 8");
        }
        assert(self.text() =~= old(self).text() + aligned_call(old(self).depth(), func@));
    }

    fn next_label(&mut self) -> (l: String)
        requires
            old(self).wf(),
            old(self).labels() < usize::MAX,
        ensures
            final(self).wf(),
            l@ == label_name(old(self).labels()),
            final(self).labels() == old(self).labels() + 1,
            final(self).text() == old(self).text(),
            final(self).depth() == old(self).depth(),
            final(self).slots() == old(self).slots(),
            final(self).ret_label() == old(self).ret_label(),
    {
        let label = join(".L", usize_text(self.label_counter).as_str());
        self.label_counter = self.label_counter + 1;
        label
    }

    fn emit(&mut self, s: &str)
        requires
            old(self).wf(),
        ensures
            final(self).wf(),
            final(self).text() == old(self).text() + line(s@),
            final(self).depth() == old(self).depth(),
            final(self).labels() == old(self).labels(),
            final(self).slots() == old(self).slots(),
            final(self).ret_label() == old(self).ret_label(),
    {
        self.output.append("  ");
        self.output.append(s);
        self.output.append("\n");
        assert(self.text() =~= old(self).text() + line(s@));
    }

    fn label(&mut self, label: &str)
        requires
            old(self).wf(),
        ensures
            final(self).wf(),
            final(self).text() == old(self).text() + label_line(label@),
            final(self).depth() == old(self).depth(),
            final(self).labels() == old(self).labels(),
            final(self).slots() == old(self).slots(),
            final(self).ret_label() == old(self).ret_label(),
    {
        self.output.append(label);
        self.output.append(":\n");
        assert(self.text() =~= old(self).text() + label_line(label@));
    }

    /// The slot of a variable.
    fn slot_of(&self, name: &String) -> (off: i32)
        requires
            self.wf(),
            self.slots().contains_key(name@),
        ensures
            off as int == self.slots()[name@],
    {
        proof {
            lemma_slot_map(self.var_map@, name@);
        }
        let j = find_name(&self.var_map, name).unwrap();
        self.var_map[j].1
    }

    /// Gives `name` the slot `off`, replacing any slot it had.
    fn set_slot(&mut self, name: String, off: i32)
        requires
            old(self).wf(),
        ensures
            final(self).wf(),
            final(self).slots() == old(self).slots().insert(name@, off as int),
            final(self).text() == old(self).text(),
            final(self).depth() == old(self).depth(),
            final(self).labels() == old(self).labels(),
            final(self).ret_label() == old(self).ret_label(),
    {
        let ghost key = name@;
        let ghost m = old(self).slots().insert(key, off as int);
        let ghost before = self.var_map@;
        match find_name(&self.var_map, &name) {
            Some(j) => {
                self.var_map.set(j, (name, off));
                proof {
                    assert forall|k: Seq<char>| #[trigger] m.contains_key(k) <==> exists|i: int|
                        0 <= i < self.var_map@.len() && self.var_map@[i].0@ == k by {
                        lemma_slot_map(before, k);
                        if exists|i: int| 0 <= i < before.len() && before[i].0@ == k {
                            let i = choose|i: int| 0 <= i < before.len() && before[i].0@ == k;
                            assert(self.var_map@[i].0@ == k);
                        }
                        if exists|i: int| 0 <= i < self.var_map@.len() && self.var_map@[i].0@ == k {
                            let i = choose|i: int|
                                0 <= i < self.var_map@.len() && self.var_map@[i].0@ == k;
                            if i != j {
                                assert(before[i].0@ == k);
                            }
                        }
                    }
                    assert forall|i: int| 0 <= i < self.var_map@.len() implies m[
                        #[trigger] self.var_map@[i].0@] == self.var_map@[i].1 as int by {
                        lemma_slot_map(before, self.var_map@[i].0@);
                        if i != j {
                            assert(before[i] == self.var_map@[i]);
                        }
                    }
                    lemma_slot_map_ext(self.var_map@, self.var_map@, m);
                }
            },
            None => {
                self.var_map.push((name, off));
                proof {
                    assert(self.var_map@.drop_last() =~= before);
                }
            },
        }
    }

    fn gen_expression(&mut self, expr: &Expression)
        requires
            old(self).wf(),
            expr_slots_ok(old(self).slots(), expr@),
            old(self).depth() + 8 * expr_pushes(expr@) <= usize::MAX,
        ensures
            final(self).wf(),
            final(self).slots() == old(self).slots(),
            final(self).ret_label() == old(self).ret_label(),
            final(self).labels() == old(self).labels(),
            final(self).text() == old(self).text() + gen_expr(
                old(self).slots(),
                old(self).depth(),
                expr@,
            ).0,
            final(self).depth() == gen_expr(old(self).slots(), old(self).depth(), expr@).1,
        decreases expr, 1nat,
    {
        let ghost slots = self.slots();
        let ghost o0 = self.text();
        let ghost d0 = self.depth();
        proof {
            lemma_gen_expr_depth(slots, d0, expr@);
        }
        match expr {
            Expression::IntLiteral(i) => {
                self.emit(join("mov rax, ", i32_text(*i).as_str()).as_str());
            },
            Expression::BoolLiteral(b) => {
                self.emit(
                    join(
                        "mov rax, ",
                        if *b {
                            "1"
                        } else {
                            "0"
                        },
                    ).as_str(),
                );
            },
            Expression::Variable(name) => {
                let off = self.slot_of(name);
                self.emit(join("mov rax, ", slot_text(off).as_str()).as_str());
            },
            Expression::Binary(op, left, right) => {
                proof {
                    lemma_gen_expr_depth(slots, d0, expr_view(**left));
                }
                self.gen_expression(left);
                let ghost o1 = self.text();
                let ghost dl = self.depth();
                self.push_rax();
                proof {
                    lemma_gen_expr_depth(slots, dl + 8, expr_view(**right));
                }
                self.gen_expression(right);
                let ghost o2 = self.text();
                self.emit("mov rdi, rax");
                self.pop_reg("rax");
                let ghost o3 = self.text();
                match op {
                    BinaryOp::Add => self.emit("add rax, rdi"),
                    BinaryOp::Sub => self.emit("sub rax, rdi"),
                    BinaryOp::Mul => self.emit("imul rax, rdi"),
                    BinaryOp::Div => {
                        self.emit("cqo");
                        self.emit("idiv rdi");
                    },
                    BinaryOp::Equal => {
                        self.emit("cmp rax, rdi");
                        self.emit("sete al");
                        self.emit("movzx rax, al");
                    },
                    BinaryOp::NotEqual => {
                        self.emit("cmp rax, rdi");
                        self.emit("setne al");
                        self.emit("movzx rax, al");
                    },
                    BinaryOp::Less => {
                        self.emit("cmp rax, rdi");
                        self.emit("setl al");
                        self.emit("movzx rax, al");
                    },
                    BinaryOp::LessEqual => {
                        self.emit("cmp rax, rdi");
                        self.emit("setle al");
                        self.emit("movzx rax, al");
                    },
                    BinaryOp::Greater => {
                        self.emit("cmp rax, rdi");
                        self.emit("setg al");
                        self.emit("movzx rax, al");
                    },
                    BinaryOp::GreaterEqual => {
                        self.emit("cmp rax, rdi");
                        self.emit("setge al");
                        self.emit("movzx rax, al");
                    },
                }
                assert(self.text() =~= o3 + op_code(*op));
                assert(self.text() =~= o0 + gen_expr(slots, d0, expr@).0);
            },
            Expression::Call(name, args) => {
                proof {
                    lemma_exprs_view_len(args@);
                }
                self.gen_call(name, args);
            },
        }
    }

    /// Evaluates the arguments, pushing each; pops the first six into their
    /// registers, last first; then makes the aligned call.
    fn gen_call(&mut self, name: &String, args: &Vec<Expression>)
        requires
            old(self).wf(),
            args_slots_ok(old(self).slots(), exprs_view(args@), 0),
            old(self).depth() + 8 * (args@.len() + args_pushes(exprs_view(args@), 0)) <= usize::MAX,
        ensures
            final(self).wf(),
            final(self).slots() == old(self).slots(),
            final(self).ret_label() == old(self).ret_label(),
            final(self).labels() == old(self).labels(),
            final(self).text() == old(self).text() + gen_expr(
                old(self).slots(),
                old(self).depth(),
                SpecExpr::Call(name@, exprs_view(args@)),
            ).0,
            final(self).depth() == gen_expr(
                old(self).slots(),
                old(self).depth(),
                SpecExpr::Call(name@, exprs_view(args@)),
            ).1,
        decreases args, 0nat,
    {
        let ghost slots = self.slots();
        let ghost o0 = self.text();
        let ghost d0 = self.depth();
        let ghost expr = SpecExpr::Call(name@, exprs_view(args@));
        let ghost a = exprs_view(args@);
        proof {
            lemma_exprs_view_len(args@);
            lemma_gen_args_depth(slots, d0, a, 0);
        }
        let ghost target = gen_args(slots, d0, a, 0);
        let mut i: usize = 0;
        while i < args.len()
            invariant
                self.wf(),
                self.slots() == slots,
                self.labels() == old(self).labels(),
                self.ret_label() == old(self).ret_label(),
                i <= args@.len(),
                a == exprs_view(args@),
                a.len() == args@.len(),
                args_slots_ok(slots, a, i as nat),
                self.text() + gen_args(slots, self.depth(), a, i as nat).0 == o0 + target.0,
                gen_args(slots, self.depth(), a, i as nat).1 == target.1,
                self.depth() + 8 * (a.len() - i + args_pushes(a, i as nat)) <= usize::MAX,
            decreases args@.len() - i,
        {
            proof {
                lemma_exprs_view_index(args@, i as int);
                assert(decreases_to!(args => args@[i as int]));
                lemma_gen_expr_depth(slots, self.depth(), a[i as int]);
            }
            let ghost oi = self.text();
            let ghost di = self.depth();
            self.gen_expression(&args[i]);
            self.push_rax();
            proof {
                let (t, d) = gen_expr(slots, di, a[i as int]);
                let (rest, _) = gen_args(slots, d + 8, a, (i + 1) as nat);
                assert(oi + (t + line("push rax"@) + rest) =~= self.text() + rest);
            }
            i = i + 1;
        }
        let m = if args.len() < 6 {
            args.len()
        } else {
            6
        };
        let ghost o1 = self.text();
        let ghost d1 = self.depth();
        assert(o1 =~= o0 + target.0);
        let mut k = m;
        while k > 0
            invariant
                self.wf(),
                self.slots() == slots,
                self.labels() == old(self).labels(),
                self.ret_label() == old(self).ret_label(),
                k <= m,
                m <= args@.len(),
                d1 == target.1,
                d1 >= d0 + 8 * args@.len(),
                self.depth() == d1 - 8 * (m - k),
                self.text() + pop_args(k as nat) == o1 + pop_args(m as nat),
            decreases k,
        {
            let ghost ok = self.text();
            k = k - 1;
            self.pop_reg(register_name(k));
            assert(ok + pop_args((k + 1) as nat) =~= self.text() + pop_args(k as nat));
        }
        let ghost o2 = self.text();
        assert(o2 =~= o1 + pop_args(m as nat));
        self.call_aligned(name.as_str());
        assert(self.text() =~= o0 + gen_expr(slots, d0, expr).0);
    }

    /// Whether a variable has a slot.
    fn has_slot(&self, name: &String) -> (b: bool)
        requires
            self.wf(),
        ensures
            b == self.slots().contains_key(name@),
    {
        proof {
            lemma_slot_map(self.var_map@, name@);
        }
        find_name(&self.var_map, name).is_some()
    }

    /// Generates a statement. `used` counts the bytes of the frame given out so
    /// far: each declaration takes the next 8 bytes, whatever its name.
    #[verifier::loop_isolation(false)]
    fn gen_statement(&mut self, stmt: &Statement, used: &mut i32)
        requires
            old(self).wf(),
            0 <= *old(used),
            *old(used) + 8 * stmt_decls(stmt@) <= i32::MAX,
            stmt_slots_ok(old(self).slots(), *old(used) as nat, stmt@),
            old(self).labels() + stmt_labels(stmt@) <= usize::MAX,
            old(self).depth() + 8 * stmt_pushes(stmt@) <= usize::MAX,
        ensures
            final(self).wf(),
            final(self).slots() == scope_after(old(self).slots(), *old(used) as nat, stmt@),
            *final(used) == *old(used) + 8 * stmt_decls(stmt@),
            final(self).ret_label() == old(self).ret_label(),
            final(self).text() == old(self).text() + gen_stmt(
                old(self).slots(),
                *old(used) as nat,
                old(self).ret_label(),
                old(self).labels(),
                old(self).depth(),
                stmt@,
            ).0,
            final(self).labels() == gen_stmt(
                old(self).slots(),
                *old(used) as nat,
                old(self).ret_label(),
                old(self).labels(),
                old(self).depth(),
                stmt@,
            ).1,
            final(self).depth() == gen_stmt(
                old(self).slots(),
                *old(used) as nat,
                old(self).ret_label(),
                old(self).labels(),
                old(self).depth(),
                stmt@,
            ).2,
        decreases stmt, 1nat,
    {
        let ghost slots = self.slots();
        let ghost u0 = *used as nat;
        let ghost ret = self.ret_label();
        let ghost o0 = self.text();
        let ghost l0 = self.labels();
        let ghost d0 = self.depth();
        let ghost target = gen_stmt(slots, u0, ret, l0, d0, stmt@);
        match stmt {
            Statement::VarDecl(_, name, init) => {
                match init {
                    Some(expr) => {
                        self.gen_expression(expr);
                        *used = *used + 8;
                        self.set_slot(name.clone(), -*used);
                        self.emit(
                            join(join("mov ", slot_text(-*used).as_str()).as_str(), ", rax").as_str(),
                        );
                    },
                    None => {
                        *used = *used + 8;
                        self.set_slot(name.clone(), -*used);
                    },
                }
            },
            Statement::Assign(name, expr) => {
                self.gen_expression(expr);
                let off = self.slot_of(name);
                self.emit(join(join("mov ", slot_text(off).as_str()).as_str(), ", rax").as_str());
            },
            Statement::Block(_) => {
                self.gen_block(stmt, used);
            },
            Statement::If(_, _, _) => {
                self.gen_if(stmt, used);
            },
            Statement::While(_, _) => {
                self.gen_while(stmt, used);
            },
            Statement::Return(expr_opt) => {
                match expr_opt {
                    Some(expr) => {
                        self.gen_expression(expr);
                    },
                    None => {},
                }
                let jump = join("jmp ", self.current_ret_label.as_str());
                self.emit(jump.as_str());
            },
            Statement::PrintInt(expr) => {
                self.gen_expression(expr);
                self.emit("mov rdi, rax");
                self.call_aligned("printInt");
                assert(self.text() =~= o0 + target.0);
            },
            Statement::Expression(expr) => {
                self.gen_expression(expr);
            },
        }
    }

    /// A block: its statements in order; the slots visible before it are
    /// visible again after it.
    #[verifier::loop_isolation(false)]
    fn gen_block(&mut self, stmt: &Statement, used: &mut i32)
        requires
            old(self).wf(),
            stmt is Block,
            0 <= *old(used),
            *old(used) + 8 * stmt_decls(stmt@) <= i32::MAX,
            stmt_slots_ok(old(self).slots(), *old(used) as nat, stmt@),
            old(self).labels() + stmt_labels(stmt@) <= usize::MAX,
            old(self).depth() + 8 * stmt_pushes(stmt@) <= usize::MAX,
        ensures
            final(self).wf(),
            final(self).slots() == scope_after(old(self).slots(), *old(used) as nat, stmt@),
            *final(used) == *old(used) + 8 * stmt_decls(stmt@),
            final(self).ret_label() == old(self).ret_label(),
            final(self).text() == old(self).text() + gen_stmt(
                old(self).slots(),
                *old(used) as nat,
                old(self).ret_label(),
                old(self).labels(),
                old(self).depth(),
                stmt@,
            ).0,
            final(self).labels() == gen_stmt(
                old(self).slots(),
                *old(used) as nat,
                old(self).ret_label(),
                old(self).labels(),
                old(self).depth(),
                stmt@,
            ).1,
            final(self).depth() == gen_stmt(
                old(self).slots(),
                *old(used) as nat,
                old(self).ret_label(),
                old(self).labels(),
                old(self).depth(),
                stmt@,
            ).2,
        decreases stmt, 0nat,
    {
        let ghost slots = self.slots();
        let ghost u0 = *used as nat;
        let ghost ret = self.ret_label();
        let ghost o0 = self.text();
        let ghost l0 = self.labels();
        let ghost d0 = self.depth();
        let ghost target = gen_stmt(slots, u0, ret, l0, d0, stmt@);
        match stmt {
            Statement::Block(stmts) => {
                let ghost ss = stmts_view(stmts@);
                proof {
                    lemma_stmts_view_len(stmts@);
                }
                let saved = copy_entries(&self.var_map);
                let mut i: usize = 0;
                while i < stmts.len()
                    invariant
                        self.wf(),
                        self.ret_label() == ret,
                        i <= stmts@.len(),
                        ss == stmts_view(stmts@),
                        ss.len() == stmts@.len(),
                        0 <= *used,
                        *used + 8 * block_decls(ss, i as nat) <= i32::MAX,
                        *used + 8 * block_decls(ss, i as nat) == u0 + 8 * block_decls(ss, 0),
                        block_slots_ok(self.slots(), *used as nat, ss, i as nat),
                        self.labels() + block_labels(ss, i as nat) <= usize::MAX,
                        self.depth() + 8 * block_pushes(ss, i as nat) <= usize::MAX,
                        self.text() + gen_block(
                            self.slots(),
                            *used as nat,
                            ret,
                            self.labels(),
                            self.depth(),
                            ss,
                            i as nat,
                        ).0 == o0 + target.0,
                        gen_block(
                            self.slots(),
                            *used as nat,
                            ret,
                            self.labels(),
                            self.depth(),
                            ss,
                            i as nat,
                        ).1 == target.1,
                        gen_block(
                            self.slots(),
                            *used as nat,
                            ret,
                            self.labels(),
                            self.depth(),
                            ss,
                            i as nat,
                        ).2 == target.2,
                    decreases stmts@.len() - i,
                {
                    proof {
                        lemma_stmts_view_index(stmts@, i as int);
                        assert(decreases_to!(*stmt => stmts@[i as int]));
                        lemma_gen_stmt_counts(
                            self.slots(),
                            *used as nat,
                            ret,
                            self.labels(),
                            self.depth(),
                            ss[i as int],
                        );
                    }
                    let ghost oi = self.text();
                    let ghost si = self.slots();
                    let ghost ui = *used as nat;
                    let ghost li = self.labels();
                    let ghost di = self.depth();
                    self.gen_statement(&stmts[i], used);
                    proof {
                        let (t, l, d) = gen_stmt(si, ui, ret, li, di, ss[i as int]);
                        let rest = gen_block(
                            scope_after(si, ui, ss[i as int]),
                            ui + 8 * stmt_decls(ss[i as int]),
                            ret,
                            l,
                            d,
                            ss,
                            (i + 1) as nat,
                        ).0;
                        assert(oi + (t + rest) =~= self.text() + rest);
                    }
                    i = i + 1;
                }
                self.var_map = saved;
                assert(self.text() =~= o0 + target.0);
            },
            _ => {},
        }
    }

    #[verifier::loop_isolation(false)]
    #[verifier::rlimit(80)]
    fn gen_if(&mut self, stmt: &Statement, used: &mut i32)
        requires
            old(self).wf(),
            stmt is If,
            0 <= *old(used),
            *old(used) + 8 * stmt_decls(stmt@) <= i32::MAX,
            stmt_slots_ok(old(self).slots(), *old(used) as nat, stmt@),
            old(self).labels() + stmt_labels(stmt@) <= usize::MAX,
            old(self).depth() + 8 * stmt_pushes(stmt@) <= usize::MAX,
        ensures
            final(self).wf(),
            final(self).slots() == scope_after(old(self).slots(), *old(used) as nat, stmt@),
            *final(used) == *old(used) + 8 * stmt_decls(stmt@),
            final(self).ret_label() == old(self).ret_label(),
            final(self).text() == old(self).text() + gen_stmt(
                old(self).slots(),
                *old(used) as nat,
                old(self).ret_label(),
                old(self).labels(),
                old(self).depth(),
                stmt@,
            ).0,
            final(self).labels() == gen_stmt(
                old(self).slots(),
                *old(used) as nat,
                old(self).ret_label(),
                old(self).labels(),
                old(self).depth(),
                stmt@,
            ).1,
            final(self).depth() == gen_stmt(
                old(self).slots(),
                *old(used) as nat,
                old(self).ret_label(),
                old(self).labels(),
                old(self).depth(),
                stmt@,
            ).2,
        decreases stmt, 0nat,
    {
        let ghost slots = self.slots();
        let ghost u0 = *used as nat;
        let ghost ret = self.ret_label();
        let ghost o0 = self.text();
        let ghost l0 = self.labels();
        let ghost d0 = self.depth();
        let ghost target = gen_stmt(slots, u0, ret, l0, d0, stmt@);
        match stmt {
            Statement::If(cond, then, els) => {
                let ghost c = expr_view(*cond);
                let ghost th = stmt_view(**then);
                let ghost el: Option<Box<SpecStmt>> = match els {
                    Some(e) => Some(Box::new(stmt_view(**e))),
                    None => None,
                };
                assert(stmt@ == SpecStmt::If(c, Box::new(th), el));
                let ghost else_l = label_name(l0);
                let ghost end_l = label_name(l0 + 1);
                let ghost gc = gen_expr(slots, d0, c);
                let ghost gt = gen_stmt(slots, u0, ret, l0 + 2, gc.1, th);
                let ghost s1 = scope_after(slots, u0, th);
                let ghost u1 = u0 + 8 * stmt_decls(th);
                let ghost ge = match el {
                    Some(e) => gen_stmt(s1, u1, ret, gt.1, gt.2, *e),
                    None => (Seq::<char>::empty(), gt.1, gt.2),
                };
                assert(target == (
                    gc.0 + line("cmp rax, 0"@) + line("je "@ + else_l) + gt.0 + line("jmp "@ + end_l)
                        + label_line(else_l) + ge.0 + label_line(end_l),
                    ge.1,
                    ge.2,
                ));
                let else_label = self.next_label();
                let end_label = self.next_label();
                proof {
                    lemma_gen_expr_depth(slots, d0, c);
                }
                self.gen_expression(cond);
                self.emit("cmp rax, 0");
                self.emit(join("je ", else_label.as_str()).as_str());
                let ghost acc1 = gc.0 + line("cmp rax, 0"@) + line("je "@ + else_l);
                assert(self.text() =~= o0 + acc1);
                proof {
                    lemma_gen_stmt_counts(slots, u0, ret, self.labels(), self.depth(), th);
                }
                self.gen_statement(then, used);
                let ghost acc2 = acc1 + gt.0;
                assert(self.text() =~= o0 + acc2);
                self.emit(join("jmp ", end_label.as_str()).as_str());
                self.label(else_label.as_str());
                let ghost acc3 = acc2 + line("jmp "@ + end_l) + label_line(else_l);
                assert(self.text() =~= o0 + acc3);
                match els {
                    Some(e) => {
                        proof {
                            lemma_gen_stmt_counts(
                                s1,
                                u1,
                                ret,
                                self.labels(),
                                self.depth(),
                                stmt_view(**e),
                            );
                        }
                        self.gen_statement(e, used);
                    },
                    None => {},
                }
                let ghost acc4 = acc3 + ge.0;
                assert(self.text() =~= o0 + acc4);
                self.label(end_label.as_str());
                assert(self.text() =~= o0 + (acc4 + label_line(end_l)));
            },
            _ => {},
        }
    }

    #[verifier::loop_isolation(false)]
    #[verifier::rlimit(40)]
    fn gen_while(&mut self, stmt: &Statement, used: &mut i32)
        requires
            old(self).wf(),
            stmt is While,
            0 <= *old(used),
            *old(used) + 8 * stmt_decls(stmt@) <= i32::MAX,
            stmt_slots_ok(old(self).slots(), *old(used) as nat, stmt@),
            old(self).labels() + stmt_labels(stmt@) <= usize::MAX,
            old(self).depth() + 8 * stmt_pushes(stmt@) <= usize::MAX,
        ensures
            final(self).wf(),
            final(self).slots() == scope_after(old(self).slots(), *old(used) as nat, stmt@),
            *final(used) == *old(used) + 8 * stmt_decls(stmt@),
            final(self).ret_label() == old(self).ret_label(),
            final(self).text() == old(self).text() + gen_stmt(
                old(self).slots(),
                *old(used) as nat,
                old(self).ret_label(),
                old(self).labels(),
                old(self).depth(),
                stmt@,
            ).0,
            final(self).labels() == gen_stmt(
                old(self).slots(),
                *old(used) as nat,
                old(self).ret_label(),
                old(self).labels(),
                old(self).depth(),
                stmt@,
            ).1,
            final(self).depth() == gen_stmt(
                old(self).slots(),
                *old(used) as nat,
                old(self).ret_label(),
                old(self).labels(),
                old(self).depth(),
                stmt@,
            ).2,
        decreases stmt, 0nat,
    {
        let ghost slots = self.slots();
        let ghost u0 = *used as nat;
        let ghost ret = self.ret_label();
        let ghost o0 = self.text();
        let ghost l0 = self.labels();
        let ghost d0 = self.depth();
        let ghost target = gen_stmt(slots, u0, ret, l0, d0, stmt@);
        match stmt {
            Statement::While(cond, body) => {
                let ghost c = expr_view(*cond);
                let ghost b = stmt_view(**body);
                assert(stmt@ == SpecStmt::While(c, Box::new(b)));
                let ghost start_l = label_name(l0);
                let ghost end_l = label_name(l0 + 1);
                let ghost gc = gen_expr(slots, d0, c);
                let ghost gb = gen_stmt(slots, u0, ret, l0 + 2, gc.1, b);
                assert(target == (
                    label_line(start_l) + gc.0 + line("cmp rax, 0"@) + line("je "@ + end_l) + gb.0
                        + line("jmp "@ + start_l) + label_line(end_l),
                    gb.1,
                    gb.2,
                ));
                let start_label = self.next_label();
                let end_label = self.next_label();
                self.label(start_label.as_str());
                proof {
                    lemma_gen_expr_depth(slots, d0, c);
                }
                self.gen_expression(cond);
                self.emit("cmp rax, 0");
                self.emit(join("je ", end_label.as_str()).as_str());
                let ghost acc1 = label_line(start_l) + gc.0 + line("cmp rax, 0"@) + line("je "@ + end_l);
                assert(self.text() =~= o0 + acc1);
                self.gen_statement(body, used);
                let ghost acc2 = acc1 + gb.0;
                assert(self.text() =~= o0 + acc2);
                self.emit(join("jmp ", start_label.as_str()).as_str());
                self.label(end_label.as_str());
                assert(self.text() =~= o0 + (acc2 + line("jmp "@ + start_l) + label_line(end_l)));
            },
            _ => {},
        }
    }

    /// Counts the frame bytes of the variables that `stmt` declares: 8 per
    /// declaration, so that every declaration has a slot of its own.
    #[verifier::loop_isolation(false)]
    fn collect_locals(&self, stmt: &Statement, offset: &mut i32)
        requires
            0 <= *old(offset),
            *old(offset) + 8 * stmt_decls(stmt@) <= i32::MAX,
        ensures
            *final(offset) == *old(offset) + 8 * stmt_decls(stmt@),
        decreases stmt,
    {
        match stmt {
            Statement::VarDecl(_, _, _) => {
                *offset = *offset + 8;
            },
            Statement::Block(stmts) => {
                let ghost ss = stmts_view(stmts@);
                let ghost u0 = *offset;
                proof {
                    lemma_stmts_view_len(stmts@);
                }
                let mut i: usize = 0;
                while i < stmts.len()
                    invariant
                        i <= stmts@.len(),
                        ss == stmts_view(stmts@),
                        ss.len() == stmts@.len(),
                        0 <= *offset,
                        *offset + 8 * block_decls(ss, i as nat) == u0 + 8 * block_decls(ss, 0),
                        u0 + 8 * block_decls(ss, 0) <= i32::MAX,
                    decreases stmts@.len() - i,
                {
                    proof {
                        lemma_stmts_view_index(stmts@, i as int);
                        assert(decreases_to!(*stmt => stmts@[i as int]));
                    }
                    self.collect_locals(&stmts[i], offset);
                    i = i + 1;
                }
            },
            Statement::If(_, then, els) => {
                self.collect_locals(then, offset);
                match els {
                    Some(e) => {
                        self.collect_locals(e, offset);
                    },
                    None => {},
                }
            },
            Statement::While(_, body) => {
                self.collect_locals(body, offset);
            },
            _ => {},
        }
    }

    /// Lays out the frame of `func`: each parameter takes the next 8 bytes below
    /// `rbp`. Returns the bytes of the parameters and of the whole frame, which
    /// also holds one slot per declaration of the body.
    fn lay_out_frame(&mut self, func: &FunctionDecl) -> (sizes: (i32, i32))
        requires
            old(self).wf(),
            frame_bytes(func@) + 15 <= i32::MAX,
        ensures
            final(self).wf(),
            final(self).slots() == frame(func@).0,
            sizes.0 as nat == frame(func@).1,
            sizes.1 as nat == frame_bytes(func@),
            0 <= sizes.0 <= sizes.1 <= i32::MAX - 15,
            final(self).text() == old(self).text(),
            final(self).labels() == old(self).labels(),
            final(self).depth() == old(self).depth(),
            final(self).ret_label() == old(self).ret_label(),
    {
        let ghost f = func@;
        let ghost ps = f.params;
        self.var_map.clear();
        assert(self.slots() =~= Map::<Seq<char>, int>::empty());
        let mut offset: i32 = 0;
        proof {
            lemma_param_slots(Map::empty(), 0, ps, 0);
        }
        let mut i: usize = 0;
        while i < func.params.len()
            invariant
                self.wf(),
                self.text() == old(self).text(),
                self.labels() == old(self).labels(),
                self.depth() == old(self).depth(),
                self.ret_label() == old(self).ret_label(),
                ps == f.params,
                f == func@,
                ps.len() == func.params@.len(),
                i <= func.params@.len(),
                offset == 8 * i,
                8 * (ps.len() + stmt_decls(f.body)) + 15 <= i32::MAX,
                param_slots(Map::empty(), 0, ps, 0) == param_slots(
                    self.slots(),
                    offset as nat,
                    ps,
                    i as nat,
                ),
            decreases func.params@.len() - i,
        {
            offset = offset + 8;
            self.set_slot(func.params[i].1.clone(), -offset);
            i = i + 1;
        }
        let params_bytes = offset;
        self.collect_locals(&func.body, &mut offset);
        (params_bytes, offset)
    }

    #[verifier::rlimit(50)]
    fn gen_function(&mut self, func: &FunctionDecl)
        requires
            old(self).wf(),
            function_compilable(func@),
            old(self).labels() + 1 + stmt_labels(func@.body) <= usize::MAX,
            old(self).depth() + 8 * stmt_pushes(func@.body) <= usize::MAX,
        ensures
            final(self).wf(),
            final(self).text() == old(self).text() + gen_function(
                old(self).labels(),
                old(self).depth(),
                func@,
            ).0,
            final(self).labels() == gen_function(old(self).labels(), old(self).depth(), func@).1,
            final(self).depth() == gen_function(old(self).labels(), old(self).depth(), func@).2,
            final(self).slots() == scope_after(frame(func@).0, frame(func@).1, func@.body),
            final(self).ret_label() == label_name(old(self).labels()),
    {
        let ghost f = func@;
        let ghost o0 = self.text();
        let ghost l0 = self.labels();
        let ghost d0 = self.depth();
        let ghost ps = f.params;
        self.label(func.name.as_str());
        let ret_label = self.next_label();
        self.current_ret_label = ret_label.clone();
        self.emit("push rbp");
        self.emit("mov rbp, rsp");
        let ghost acc1 = label_line(f.name) + line("push rbp"@) + line("mov rbp, rsp"@);
        assert(self.text() =~= o0 + acc1);

        // Parameters first, then one slot per declaration.
        let (params_bytes, frame_size) = self.lay_out_frame(func);
        assert(self.text() == o0 + acc1);

        // Keep the frame 16-byte aligned.
        proof {
            lemma_round_up_16(frame_size);
        }
        let stack_size = (frame_size + 15) & !15;
        if stack_size > 0 {
            self.emit(join("sub rsp, ", i32_text(stack_size).as_str()).as_str());
        }
        let ghost size = round_up_16(frame_bytes(f));
        let ghost acc2 = acc1 + if size > 0 {
            line("sub rsp, "@ + int_text(size as int))
        } else {
            Seq::<char>::empty()
        };
        assert(self.text() =~= o0 + acc2);

        // Move the register arguments into their slots.
        let ghost slots = self.slots();
        proof {
            lemma_param_slots(Map::empty(), 0, ps, 0);
        }
        let mut k: usize = 0;
        while k < func.params.len()
            invariant
                self.wf(),
                self.slots() == slots,
                slots == frame(f).0,
                f == func@,
                ps == f.params,
                ps.len() == func.params@.len(),
                self.labels() == l0 + 1,
                self.depth() == d0,
                self.ret_label() == label_name(l0),
                params_bytes as nat == frame(f).1,
                frame_size as nat == frame_bytes(f),
                0 <= params_bytes <= frame_size <= i32::MAX - 15,
                k <= func.params@.len(),
                forall|j: int| 0 <= j < ps.len() ==> slots.contains_key(#[trigger] ps[j].1),
                self.text() + store_params(slots, ps, k as nat) == o0 + acc2 + store_params(
                    slots,
                    ps,
                    0,
                ),
            decreases func.params@.len() - k,
        {
            let ghost ok = self.text();
            if k < 6 {
                assert(ps[k as int].1 == func.params@[k as int].1@);
                let off = self.slot_of(&func.params[k].1);
                let moved = join(join("mov ", slot_text(off).as_str()).as_str(), ", ");
                self.emit(join(moved.as_str(), register_name(k)).as_str());
                assert(ok + store_params(slots, ps, k as nat) =~= self.text() + store_params(
                    slots,
                    ps,
                    (k + 1) as nat,
                ));
            }
            k = k + 1;
        }
        let ghost acc3 = acc2 + store_params(slots, ps, 0);
        assert(self.text() =~= o0 + acc3);

        proof {
            lemma_gen_stmt_counts(slots, params_bytes as nat, label_name(l0), l0 + 1, d0, f.body);
        }
        let mut used = params_bytes;
        self.gen_statement(&func.body, &mut used);
        let ghost gb = gen_stmt(slots, params_bytes as nat, label_name(l0), l0 + 1, d0, f.body);
        let ghost acc4 = acc3 + gb.0;
        assert(self.text() =~= o0 + acc4);

        // Epilogue
        self.label(ret_label.as_str());
        self.emit("mov rsp, rbp");
        self.emit("pop rbp");
        self.emit("ret");
        self.output.append("\n");
        assert(self.text() =~= o0 + (acc4 + label_line(label_name(l0)) + line("mov rsp, rbp"@)
            + line("pop rbp"@) + line("ret"@) + "\n"@));
    }

    /// Whether every variable that an expression reads has a slot.
    fn expr_has_slots(&self, e: &Expression) -> (b: bool)
        requires
            self.wf(),
        ensures
            b == expr_slots_ok(self.slots(), e@),
        decreases e, 1nat,
    {
        match e {
            Expression::Variable(n) => self.has_slot(n),
            Expression::Binary(_, left, right) => self.expr_has_slots(left) && self.expr_has_slots(
                right,
            ),
            Expression::Call(_, args) => self.args_have_slots(args),
            _ => true,
        }
    }

    fn args_have_slots(&self, args: &Vec<Expression>) -> (b: bool)
        requires
            self.wf(),
        ensures
            b == args_slots_ok(self.slots(), exprs_view(args@), 0),
        decreases args, 0nat,
    {
        let ghost a = exprs_view(args@);
        proof {
            lemma_exprs_view_len(args@);
        }
        let mut i: usize = 0;
        while i < args.len()
            invariant
                self.wf(),
                a == exprs_view(args@),
                a.len() == args@.len(),
                i <= args@.len(),
                args_slots_ok(self.slots(), a, 0) == args_slots_ok(self.slots(), a, i as nat),
            decreases args@.len() - i,
        {
            proof {
                lemma_exprs_view_index(args@, i as int);
                assert(decreases_to!(args => args@[i as int]));
            }
            if !self.expr_has_slots(&args[i]) {
                return false;
            }
            i = i + 1;
        }
        true
    }

    /// Whether every variable that a statement reads or writes is visible where
    /// it is used. Declarations take slots as in code generation, so that a
    /// later statement sees them.
    #[verifier::loop_isolation(false)]
    fn stmt_has_slots(&mut self, s: &Statement, used: &mut i32) -> (b: bool)
        requires
            old(self).wf(),
            0 <= *old(used),
            *old(used) + 8 * stmt_decls(s@) <= i32::MAX,
        ensures
            final(self).wf(),
            b == stmt_slots_ok(old(self).slots(), *old(used) as nat, s@),
            b ==> final(self).slots() == scope_after(old(self).slots(), *old(used) as nat, s@),
            b ==> *final(used) == *old(used) + 8 * stmt_decls(s@),
        decreases s,
    {
        match s {
            Statement::VarDecl(_, name, init) => {
                let ok = match init {
                    Some(e) => self.expr_has_slots(e),
                    None => true,
                };
                if ok {
                    *used = *used + 8;
                    self.set_slot(name.clone(), -*used);
                }
                ok
            },
            Statement::Assign(name, e) => self.has_slot(name) && self.expr_has_slots(e),
            Statement::Block(stmts) => {
                let ghost ss = stmts_view(stmts@);
                let ghost s0 = self.slots();
                let ghost u0 = *used as nat;
                proof {
                    lemma_stmts_view_len(stmts@);
                }
                let saved = copy_entries(&self.var_map);
                let mut i: usize = 0;
                while i < stmts.len()
                    invariant
                        self.wf(),
                        i <= stmts@.len(),
                        ss == stmts_view(stmts@),
                        ss.len() == stmts@.len(),
                        0 <= *used,
                        *used + 8 * block_decls(ss, i as nat) == u0 + 8 * block_decls(ss, 0),
                        u0 + 8 * block_decls(ss, 0) <= i32::MAX,
                        block_slots_ok(s0, u0, ss, 0) == block_slots_ok(
                            self.slots(),
                            *used as nat,
                            ss,
                            i as nat,
                        ),
                    decreases stmts@.len() - i,
                {
                    proof {
                        lemma_stmts_view_index(stmts@, i as int);
                        assert(decreases_to!(*s => stmts@[i as int]));
                    }
                    if !self.stmt_has_slots(&stmts[i], used) {
                        return false;
                    }
                    i = i + 1;
                }
                self.var_map = saved;
                true
            },
            Statement::If(c, th, el) => {
                if !self.expr_has_slots(c) {
                    return false;
                }
                if !self.stmt_has_slots(th, used) {
                    return false;
                }
                match el {
                    Some(e) => self.stmt_has_slots(e, used),
                    None => true,
                }
            },
            Statement::While(c, body) => {
                if !self.expr_has_slots(c) {
                    return false;
                }
                self.stmt_has_slots(body, used)
            },
            Statement::Return(e) => match e {
                Some(e) => self.expr_has_slots(e),
                None => true,
            },
            Statement::PrintInt(e) => self.expr_has_slots(e),
            Statement::Expression(e) => self.expr_has_slots(e),
        }
    }

    /// Whether `generate` can compile `program` from this generator's state:
    /// every variable that the code uses has a slot, each frame fits in `i32`,
    /// and the label counter and the depth of temporaries stay within `usize`.
    pub fn can_generate(&self, program: &Program) -> (b: bool)
        ensures
            b == program_compilable(self.labels(), self.depth(), program@),
    {
        let ghost fs = program@.functions;
        let cap_l: usize = usize::MAX - self.label_counter;
        let cap_p: usize = (usize::MAX - self.stack_depth) / 8;
        proof {
            let m = (usize::MAX - self.stack_depth) as int;
            assert(8 * (m / 8) <= m < 8 * (m / 8) + 8) by (nonlinear_arith);
        }
        let mut g = CodeGenerator::new();
        let mut acc_l: usize = 0;
        let mut acc_p: usize = 0;
        let mut i: usize = 0;
        while i < program.functions.len()
            invariant
                g.wf(),
                fs == program@.functions,
                fs.len() == program.functions@.len(),
                i <= fs.len(),
                cap_l == usize::MAX - self.labels(),
                8 * cap_p <= usize::MAX - self.depth() < 8 * cap_p + 8,
                acc_l <= cap_l,
                acc_p <= cap_p,
                acc_l + functions_labels(fs, i as nat) == functions_labels(fs, 0),
                acc_p + functions_pushes(fs, i as nat) == functions_pushes(fs, 0),
                forall|j: int| 0 <= j < i ==> function_compilable(#[trigger] fs[j]),
            decreases fs.len() - i,
        {
            let func = &program.functions[i];
            let ghost f = fs[i as int];
            assert(f == func@);
            assert(f.params.len() == func.params@.len());
            let n = func.params.len();
            if n > 268435454 || acc_l == cap_l {
                assert(!function_compilable(program@.functions[i as int]) || functions_labels(fs, 0)
                    > cap_l);
                return false;
            }
            match stmt_counts(&func.body, cap_l - acc_l - 1, cap_p - acc_p, 268435454 - n) {
                None => {
                    assert(!function_compilable(program@.functions[i as int]) || functions_labels(
                        fs,
                        0,
                    ) > cap_l || functions_pushes(fs, 0) > cap_p);
                    return false;
                },
                Some((l, p, d)) => {
                    acc_l = acc_l + 1 + l;
                    acc_p = acc_p + p;
                },
            }
            let (params_bytes, _) = g.lay_out_frame(func);
            proof {
                lemma_param_slots(Map::empty(), 0, f.params, 0);
            }
            let mut used = params_bytes;
            if !g.stmt_has_slots(&func.body, &mut used) {
                assert(!function_compilable(program@.functions[i as int]));
                return false;
            }
            i = i + 1;
        }
        true
    }

    /// The assembly of a whole program. Labels continue from earlier calls. The
    /// program must be one `can_generate` accepts; every program that passes
    /// semantic analysis is, within the machine's limits.
    pub fn generate(&mut self, program: &Program) -> (assembly: String)
        requires
            old(self).wf(),
            program_compilable(old(self).labels(), old(self).depth(), program@),
        ensures
            final(self).wf(),
            assembly@ == gen_program(old(self).labels(), old(self).depth(), program@).0,
            final(self).text() == assembly@,
            final(self).labels() == gen_program(old(self).labels(), old(self).depth(), program@).1,
            final(self).depth() == gen_program(old(self).labels(), old(self).depth(), program@).2,
            program@.functions.len() == 0 ==> final(self).slots() == old(self).slots()
                && final(self).ret_label() == old(self).ret_label(),
            program@.functions.len() > 0 ==> final(self).slots() == scope_after(
                frame(program@.functions.last()).0,
                frame(program@.functions.last()).1,
                program@.functions.last().body,
            ) && final(self).ret_label() == label_name(
                (old(self).labels() + functions_labels(program@.functions, 0) - functions_labels(
                    program@.functions,
                    (program@.functions.len() - 1) as nat,
                )) as nat,
            ),
    {
        let ghost fs = program@.functions;
        let ghost l0 = self.labels();
        let ghost d0 = self.depth();
        let ghost target = gen_functions(l0, d0, fs, 0);
        self.output = String::new();
        self.output.append(".intel_syntax noprefix\n");
        self.output.append(".global main\n");
        self.output.append(".extern printInt\n\n");
        let ghost o0 = self.text();
        assert(o0 =~= preamble());
        let mut i: usize = 0;
        while i < program.functions.len()
            invariant
                self.wf(),
                fs == program@.functions,
                fs == crate::ast::functions_view(program.functions@),
                fs.len() == program.functions@.len(),
                i <= fs.len(),
                forall|j: int| 0 <= j < fs.len() ==> function_compilable(#[trigger] fs[j]),
                self.labels() + functions_labels(fs, i as nat) <= usize::MAX,
                self.depth() + 8 * functions_pushes(fs, i as nat) <= usize::MAX,
                self.text() + gen_functions(self.labels(), self.depth(), fs, i as nat).0 == o0
                    + target.0,
                gen_functions(self.labels(), self.depth(), fs, i as nat).1 == target.1,
                gen_functions(self.labels(), self.depth(), fs, i as nat).2 == target.2,
                self.labels() + functions_labels(fs, i as nat) == l0 + functions_labels(fs, 0),
                i == 0 ==> self.slots() == old(self).slots() && self.ret_label() == old(
                    self,
                ).ret_label(),
                i > 0 ==> self.slots() == scope_after(
                    frame(fs[i - 1]).0,
                    frame(fs[i - 1]).1,
                    fs[i - 1].body,
                ) && self.ret_label() == label_name(
                    (l0 + functions_labels(fs, 0) - functions_labels(fs, (i - 1) as nat)) as nat,
                ),
            decreases fs.len() - i,
        {
            let ghost oi = self.text();
            let ghost li = self.labels();
            let ghost di = self.depth();
            let ghost f = fs[i as int];
            assert(f == program.functions@[i as int]@);
            proof {
                lemma_gen_stmt_counts(frame(f).0, frame(f).1, label_name(li), li + 1, di, f.body);
            }
            self.gen_function(&program.functions[i]);
            proof {
                let (t, l, d) = gen_function(li, di, f);
                let rest = gen_functions(l, d, fs, (i + 1) as nat).0;
                assert(oi + (t + rest) =~= self.text() + rest);
            }
            i = i + 1;
        }
        assert(self.text() =~= preamble() + target.0);
        self.output.clone()
    }
}

} // verus!
