//! Code generator - emits x86-64 assembly (Linux System V ABI, Intel syntax).
//!
//! The emitted text is stated by the spec functions `expr_code`,
//! `stmt_code`, `fn_code` and `program_code`, which follow the emitter in the
//! order in which it writes: each line ends with a newline, and labels are
//! numbered by a counter that only grows. Each register parameter and each
//! local declared anywhere in a function has its own slot below `rbp`
//! (`lemma_function_slots`); a declaration reserves the stack down to its
//! slot where it stands, and the register parameters' slots are reserved on
//! entry when the body pushes. Parameters after the sixth are read from the
//! caller's frame.

use vstd::prelude::*;
use vstd::string::*;
use crate::ast::{BinOp, UnaryOp, SExpr, SStatement, SFunction, SProgram, Expr, Statement, Function, Program, expr_view, exprs_view, stmt_view, stmts_view, lemma_exprs_view, lemma_stmts_view, names_view, opt_expr_view};
use crate::text::{digit_char, dec_int, dec_nat, push_char, append_i64, append_u64, append_u128};

verus! {

/// The variables in scope, in the order they were declared, with their stack
/// offsets; a later entry for the same name hides an earlier one.
pub type Vars = Seq<(Seq<char>, int)>;

/// The emitter's state between statements.
pub struct Env {
    pub vars: Vars,
    /// Offset that the next declared local gets.
    pub offset: int,
    /// How far below `rbp` the stack is reserved, whichever way control
    /// came here.
    pub reserved: int,
    /// Labels numbered so far.
    pub labels: nat,
}

/// Text emitted for an expression, the label count after it, and whether it
/// can be emitted at all (every variable it names is in scope and the label
/// counter does not overflow).
pub struct Code {
    pub text: Seq<char>,
    pub labels: nat,
    pub ok: bool,
}

/// Text emitted for a statement or a sequence of them, the state after it,
/// and whether it can be emitted at all.
pub struct StmtCode {
    pub text: Seq<char>,
    pub env: Env,
    pub ok: bool,
}

/// The offset recorded for `name`: that of its latest declaration.
pub open spec fn lookup(vars: Vars, name: Seq<char>) -> Option<int>
    decreases vars.len(),
{
    if vars.len() == 0 {
        None
    } else if vars.last().0 == name {
        Some(vars.last().1)
    } else {
        lookup(vars.drop_last(), name)
    }
}

/// One line of output.
pub open spec fn line(s: Seq<char>) -> Seq<char> {
    s.push('\n')
}

/// The label numbered `n` with the given prefix: `prefix.n`.
pub open spec fn label(prefix: Seq<char>, n: nat) -> Seq<char> {
    prefix + seq!['.'] + dec_nat(n)
}

/// The register that carries argument `k` (for `k < 6`).
pub open spec fn arg_reg(k: int) -> Seq<char> {
    if k == 0 {
        "rdi"@
    } else if k == 1 {
        "rsi"@
    } else if k == 2 {
        "rdx"@
    } else if k == 3 {
        "rcx"@
    } else if k == 4 {
        "r8"@
    } else {
        "r9"@
    }
}

/// The memory operand of the stack slot at displacement `d` from `rbp`.
pub open spec fn slot(d: int) -> Seq<char> {
    if d < 0 {
        "[rbp-"@ + dec_int(-d) + "]"@
    } else {
        "[rbp+"@ + dec_int(d) + "]"@
    }
}

pub open spec fn compare_code(set: Seq<char>) -> Seq<char> {
    line("  cmp eax, ecx"@) + line(set) + line("  movzx eax, al"@)
}

/// `&&` and `||`: they evaluate their right operand only when the left one
/// does not decide the result.
pub open spec fn is_logical(op: BinOp) -> bool {
    op is AndAnd || op is OrOr
}

/// The code that combines the left operand (in `eax`) with the right one (in
/// `ecx`) for an arithmetic or comparison operator. The logical operators
/// have none: `expr_code` emits their jumps itself.
pub open spec fn binop_code(op: BinOp) -> Seq<char> {
    match op {
        BinOp::Add => line("  add eax, ecx"@),
        BinOp::Sub => line("  sub eax, ecx"@),
        BinOp::Mul => line("  imul eax, ecx"@),
        BinOp::Div => line("  cdq"@) + line("  idiv ecx"@),
        BinOp::Mod => line("  cdq"@) + line("  idiv ecx"@) + line("  mov eax, edx"@),
        BinOp::Eq => compare_code("  sete al"@),
        BinOp::Ne => compare_code("  setne al"@),
        BinOp::Lt => compare_code("  setl al"@),
        BinOp::Le => compare_code("  setle al"@),
        BinOp::Gt => compare_code("  setg al"@),
        BinOp::Ge => compare_code("  setge al"@),
        BinOp::AndAnd => Seq::empty(),
        BinOp::OrOr => Seq::empty(),
    }
}

/// Turns `eax` into 1 when it is nonzero and 0 otherwise; the flags stay
/// those of the comparison of the old value with 0 (`setne` and `movzx` do
/// not change them).
pub open spec fn truth_code() -> Seq<char> {
    line("  cmp eax, 0"@) + line("  setne al"@) + line("  movzx eax, al"@)
}

/// The prefix of the label that ends a logical operator's code.
pub open spec fn skip_prefix(op: BinOp) -> Seq<char> {
    if op is AndAnd {
        "and_skip"@
    } else {
        "or_skip"@
    }
}

/// The jump that skips the right operand of a logical operator: `&&` skips it
/// when the left operand is 0, `||` when it is not.
pub open spec fn skip_jump(op: BinOp) -> Seq<char> {
    if op is AndAnd {
        "  je "@
    } else {
        "  jne "@
    }
}

/// The code for an expression: it leaves the value in `eax`. Operands of an
/// arithmetic or comparison operator are evaluated right first (pushed), then
/// left; those of `&&` and `||` left first, the right one only when needed,
/// and the result is 0 or 1.
pub open spec fn expr_code(e: SExpr, vars: Vars, lc: nat) -> Code
    decreases e,
{
    match e {
        SExpr::Number(n) => Code { text: line("  mov eax, "@ + dec_int(n as int)), labels: lc, ok: true },
        SExpr::Ident(name) => match lookup(vars, name) {
            Some(d) => Code { text: line("  mov eax, "@ + slot(d)), labels: lc, ok: true },
            None => Code { text: Seq::empty(), labels: lc, ok: false },
        },
        SExpr::BinOp { op, left, right } => if is_logical(op) {
            let skip = label(skip_prefix(op), lc + 1);
            let cl = expr_code(*left, vars, lc + 1);
            let cr = expr_code(*right, vars, cl.labels);
            Code {
                text: cl.text + truth_code() + line(skip_jump(op) + skip) + cr.text + truth_code() + line(
                    skip + ":"@,
                ),
                labels: cr.labels,
                ok: lc + 1 <= u32::MAX && cl.ok && cr.ok,
            }
        } else {
            let cr = expr_code(*right, vars, lc);
            let cl = expr_code(*left, vars, cr.labels);
            Code {
                text: cr.text + line("  push rax"@) + cl.text + line("  pop rcx"@) + binop_code(op),
                labels: cl.labels,
                ok: cr.ok && cl.ok,
            }
        },
        SExpr::UnaryOp { op, operand } => {
            let c = expr_code(*operand, vars, lc);
            let tail = match op {
                UnaryOp::Neg => line("  neg eax"@),
                UnaryOp::Not => line("  cmp eax, 0"@) + line("  sete al"@) + line("  movzx eax, al"@),
            };
            Code { text: c.text + tail, labels: c.labels, ok: c.ok }
        },
        SExpr::Assign { name, value } => {
            let c = expr_code(*value, vars, lc);
            match lookup(vars, name) {
                Some(d) => Code {
                    text: c.text + line("  mov "@ + slot(d) + ", eax"@),
                    labels: c.labels,
                    ok: c.ok,
                },
                None => Code { text: c.text, labels: c.labels, ok: false },
            }
        },
        SExpr::Call { name, args } => {
            let ca = args_code(args, vars, lc);
            let cleanup = if args.len() > 6 {
                line("  add rsp, "@ + dec_nat(((args.len() - 6) * 8) as nat))
            } else {
                Seq::empty()
            };
            Code {
                text: ca.text + pops(min6(args.len())) + line("  call "@ + name) + cleanup,
                labels: ca.labels,
                ok: ca.ok,
            }
        },
    }
}

/// The code that evaluates call arguments, last first, pushing each value:
/// the first argument ends on top of the stack, and those after the sixth lie
/// in the order in which the callee finds them.
pub open spec fn args_code(args: Seq<SExpr>, vars: Vars, lc: nat) -> Code
    decreases args,
{
    if args.len() == 0 {
        Code { text: Seq::empty(), labels: lc, ok: true }
    } else {
        let c0 = args_code(args.drop_first(), vars, lc);
        let c1 = expr_code(args[0], vars, c0.labels);
        Code { text: c0.text + c1.text + line("  push rax"@), labels: c1.labels, ok: c0.ok && c1.ok }
    }
}

/// The pops of the first `k` pushed arguments into their registers.
pub open spec fn pops(k: nat) -> Seq<char>
    decreases k,
{
    if k == 0 {
        Seq::empty()
    } else {
        pops((k - 1) as nat) + line("  pop "@ + arg_reg(k - 1))
    }
}

pub open spec fn with_labels(env: Env, labels: nat) -> Env {
    Env { vars: env.vars, offset: env.offset, reserved: env.reserved, labels }
}

pub open spec fn with_reserved(env: Env, reserved: int) -> Env {
    Env { vars: env.vars, offset: env.offset, reserved, labels: env.labels }
}

/// A declaration reserves the stack down to the new local's slot, right
/// where it is declared.
pub open spec fn declare_line(name: Seq<char>, env: Env, note: Seq<char>) -> Seq<char> {
    line("  sub rsp, "@ + dec_int(env.offset - env.reserved) + "  # "@ + name + note)
}

/// The state after declaring `name`: its slot is the next one down, and the
/// stack is reserved down to it.
pub open spec fn declared(name: Seq<char>, env: Env) -> Env {
    Env {
        vars: env.vars.push((name, -env.offset)),
        offset: env.offset + 8,
        reserved: env.offset,
        labels: env.labels,
    }
}

pub open spec fn min_int(a: int, b: int) -> int {
    if a <= b {
        a
    } else {
        b
    }
}

pub open spec fn epilogue() -> Seq<char> {
    line("  mov rsp, rbp"@) + line("  pop rbp"@) + line("  ret"@)
}

/// The code for a statement, from the emitter's state before it. A branch or
/// loop body may be skipped, so after it the stack is taken to be reserved
/// only as far as on every way through.
pub open spec fn stmt_code(s: SStatement, env: Env) -> StmtCode
    decreases s,
{
    match s {
        SStatement::Decl { name } => StmtCode {
            text: declare_line(name, env, " (uninitialized)"@),
            env: declared(name, env),
            ok: env.offset + 8 <= i32::MAX,
        },
        SStatement::DeclInit { name, init } => {
            let e1 = declared(name, env);
            let c = expr_code(init, e1.vars, env.labels);
            StmtCode {
                text: declare_line(name, env, ""@) + c.text + line("  mov "@ + slot(-env.offset) + ", eax"@),
                env: with_labels(e1, c.labels),
                ok: env.offset + 8 <= i32::MAX && c.ok,
            }
        },
        SStatement::Expr(e) => {
            let c = expr_code(e, env.vars, env.labels);
            StmtCode { text: c.text, env: with_labels(env, c.labels), ok: c.ok }
        },
        SStatement::Return(value) => match value {
            Some(e) => {
                let c = expr_code(e, env.vars, env.labels);
                StmtCode { text: c.text + epilogue(), env: with_labels(env, c.labels), ok: c.ok }
            },
            None => StmtCode { text: line("  xor eax, eax"@) + epilogue(), env, ok: true },
        },
        SStatement::If { cond, then_body, else_body } => {
            let else_label = label("else"@, env.labels + 1);
            let end_label = label("endif"@, env.labels + 2);
            let cc = expr_code(cond, env.vars, env.labels + 2);
            let jump = if else_body is Some {
                line("  je "@ + else_label)
            } else {
                line("  je "@ + end_label)
            };
            let tb = block_code(then_body, with_labels(env, cc.labels));
            let head = cc.text + line("  cmp eax, 0"@) + jump + tb.text;
            match else_body {
                Some(eb) => {
                    let ec = block_code(eb, with_reserved(tb.env, env.reserved));
                    StmtCode {
                        text: head + line("  jmp "@ + end_label) + line(else_label + ":"@) + ec.text
                            + line(end_label + ":"@),
                        env: with_reserved(ec.env, min_int(tb.env.reserved, ec.env.reserved)),
                        ok: env.labels + 2 <= u32::MAX && cc.ok && tb.ok && ec.ok,
                    }
                },
                None => StmtCode {
                    text: head + line(end_label + ":"@),
                    env: with_reserved(tb.env, env.reserved),
                    ok: env.labels + 2 <= u32::MAX && cc.ok && tb.ok,
                },
            }
        },
        SStatement::While { cond, body } => {
            let cond_label = label("while_cond"@, env.labels + 1);
            let body_label = label("while_body"@, env.labels + 2);
            let bc = block_code(body, with_labels(env, env.labels + 2));
            let cc = expr_code(cond, bc.env.vars, bc.env.labels);
            StmtCode {
                text: line("  jmp "@ + cond_label) + line(body_label + ":"@) + bc.text + line(
                    cond_label + ":"@,
                ) + cc.text + line("  cmp eax, 0"@) + line("  jne "@ + body_label),
                env: with_reserved(with_labels(bc.env, cc.labels), env.reserved),
                ok: env.labels + 2 <= u32::MAX && bc.ok && cc.ok,
            }
        },
        SStatement::For { init, cond, step, body } => {
            let ic = match init {
                Some(i) => stmt_code(*i, env),
                None => StmtCode { text: Seq::empty(), env, ok: true },
            };
            let cond_label = label("for_cond"@, ic.env.labels + 1);
            let body_label = label("for_body"@, ic.env.labels + 2);
            let bc = block_code(body, with_labels(ic.env, ic.env.labels + 2));
            let sc = match step {
                Some(e) => expr_code(e, bc.env.vars, bc.env.labels),
                None => Code { text: Seq::empty(), labels: bc.env.labels, ok: true },
            };
            let tail = match cond {
                Some(c) => {
                    let cc = expr_code(c, bc.env.vars, sc.labels);
                    Code {
                        text: cc.text + line("  cmp eax, 0"@) + line("  jne "@ + body_label),
                        labels: cc.labels,
                        ok: cc.ok,
                    }
                },
                None => Code { text: line("  jmp "@ + body_label), labels: sc.labels, ok: true },
            };
            StmtCode {
                text: ic.text + line("  jmp "@ + cond_label) + line(body_label + ":"@) + bc.text
                    + sc.text + line(cond_label + ":"@) + tail.text,
                env: with_reserved(with_labels(bc.env, tail.labels), ic.env.reserved),
                ok: ic.ok && ic.env.labels + 2 <= u32::MAX && bc.ok && sc.ok && tail.ok,
            }
        },
    }
}

/// The code for a sequence of statements, one after another.
pub open spec fn block_code(ss: Seq<SStatement>, env: Env) -> StmtCode
    decreases ss,
{
    if ss.len() == 0 {
        StmtCode { text: Seq::empty(), env, ok: true }
    } else {
        let b = block_code(ss.drop_last(), env);
        let c = stmt_code(ss.last(), b.env);
        StmtCode { text: b.text + c.text, env: c.env, ok: b.ok && c.ok }
    }
}

/// The displacement from `rbp` of the slot of parameter `i`: the first six
/// are stored below `rbp`, the rest are read from the caller's frame above
/// the return address.
pub open spec fn param_disp(i: int) -> int {
    if i < 6 {
        -8 * (i + 1)
    } else {
        16 + (i - 6) * 8
    }
}

/// The variables in scope at the start of a function body: its parameters.
pub open spec fn param_vars(params: Seq<Seq<char>>) -> Vars {
    Seq::new(params.len(), |i: int| (params[i], param_disp(i)))
}

pub open spec fn min6(n: nat) -> nat {
    if n < 6 {
        n
    } else {
        6
    }
}

/// The depth below `rbp` of the first local of a function with `n`
/// parameters: right under the slots of its register parameters.
pub open spec fn first_offset(n: nat) -> int {
    (8 * min6(n) + 8) as int
}

/// The stores of the first `k` register parameters into their slots.
pub open spec fn param_stores(k: nat) -> Seq<char>
    decreases k,
{
    if k == 0 {
        Seq::empty()
    } else {
        param_stores((k - 1) as nat) + line("  mov "@ + slot(param_disp(k - 1)) + ", "@ + arg_reg(k - 1))
    }
}

/// The number of locals that a statement declares, in all its branches.
pub open spec fn stmt_decls(s: SStatement) -> nat
    decreases s,
{
    match s {
        SStatement::Decl { name } => 1,
        SStatement::DeclInit { name, init } => 1,
        SStatement::If { cond, then_body, else_body } => {
            let e: nat = match else_body {
                Some(eb) => block_decls(eb),
                None => 0,
            };
            block_decls(then_body) + e
        },
        SStatement::While { cond, body } => block_decls(body),
        SStatement::For { init, cond, step, body } => {
            let i: nat = match init {
                Some(i) => stmt_decls(*i),
                None => 0,
            };
            i + block_decls(body)
        },
        _ => 0,
    }
}

/// The number of locals that a sequence of statements declares.
pub open spec fn block_decls(ss: Seq<SStatement>) -> nat
    decreases ss,
{
    if ss.len() == 0 {
        0
    } else {
        block_decls(ss.drop_last()) + stmt_decls(ss.last())
    }
}

/// The code for `e` pushes onto the stack or calls.
pub open spec fn expr_pushes(e: SExpr) -> bool
    decreases e,
{
    match e {
        SExpr::BinOp { op, left, right } => !is_logical(op) || expr_pushes(*left) || expr_pushes(*right),
        SExpr::UnaryOp { op, operand } => expr_pushes(*operand),
        SExpr::Assign { name, value } => expr_pushes(*value),
        SExpr::Call { name, args } => true,
        _ => false,
    }
}

pub open spec fn opt_pushes(e: Option<SExpr>) -> bool {
    match e {
        Some(x) => expr_pushes(x),
        None => false,
    }
}

/// The code for `s` pushes onto the stack or calls.
pub open spec fn stmt_pushes(s: SStatement) -> bool
    decreases s,
{
    match s {
        SStatement::Decl { name } => false,
        SStatement::DeclInit { name, init } => expr_pushes(init),
        SStatement::Expr(e) => expr_pushes(e),
        SStatement::Return(v) => opt_pushes(v),
        SStatement::If { cond, then_body, else_body } => expr_pushes(cond) || block_pushes(then_body) || match else_body {
            Some(eb) => block_pushes(eb),
            None => false,
        },
        SStatement::While { cond, body } => expr_pushes(cond) || block_pushes(body),
        SStatement::For { init, cond, step, body } => {
            let i = match init {
                Some(i) => stmt_pushes(*i),
                None => false,
            };
            i || opt_pushes(cond) || opt_pushes(step) || block_pushes(body)
        },
    }
}

/// The code for `ss` pushes onto the stack or calls.
pub open spec fn block_pushes(ss: Seq<SStatement>) -> bool
    decreases ss,
{
    if ss.len() == 0 {
        false
    } else {
        block_pushes(ss.drop_last()) || stmt_pushes(ss.last())
    }
}

/// The bytes below `rbp` that a function's slots take: one for each register
/// parameter and for each local it declares.
pub open spec fn frame_size(f: SFunction) -> nat {
    8 * (min6(f.params.len()) + block_decls(f.body))
}

/// A function reserves the slots of its register parameters on entry when
/// it has some and its body pushes or calls, which would otherwise write over
/// them. Without pushes they lie within the 128 bytes below `rsp` that System
/// V keeps for a function that calls nothing, and a declaration reserves
/// them along with its own slot.
pub open spec fn reserves_params(f: SFunction) -> bool {
    min6(f.params.len()) > 0 && block_pushes(f.body)
}

/// The state in which a function's body is emitted.
pub open spec fn body_env(f: SFunction, lc: nat) -> Env {
    Env {
        vars: param_vars(f.params),
        offset: first_offset(f.params.len()),
        reserved: if reserves_params(f) {
            (8 * min6(f.params.len())) as int
        } else {
            0
        },
        labels: lc,
    }
}

/// The prologue: label, frame pointer, the parameters' slots where they are
/// reserved on entry, the parameter stores.
pub open spec fn prologue(f: SFunction) -> Seq<char> {
    let reserve = if reserves_params(f) {
        line("  sub rsp, "@ + dec_nat(8 * min6(f.params.len())))
    } else {
        Seq::empty()
    };
    line(f.name + ":"@) + line("  push rbp"@) + line("  mov rbp, rsp"@) + reserve + param_stores(
        min6(f.params.len()),
    )
}

/// The code for a function: prologue, body, and an implicit `return 0` when
/// control falls off the end. It can be emitted when every displacement fits
/// in an `i32` and the body can be emitted.
pub open spec fn fn_code(f: SFunction, lc: nat) -> Code {
    let n = f.params.len();
    let bc = block_code(f.body, body_env(f, lc));
    Code {
        text: prologue(f) + bc.text + line("  xor eax, eax"@) + epilogue() + line(""@),
        labels: bc.env.labels,
        ok: param_disp(n - 1) <= i32::MAX && bc.ok,
    }
}

/// The code for a sequence of functions, one after another.
pub open spec fn functions_code(fs: Seq<SFunction>, lc: nat) -> Code
    decreases fs.len(),
{
    if fs.len() == 0 {
        Code { text: Seq::empty(), labels: lc, ok: true }
    } else {
        let c0 = functions_code(fs.drop_last(), lc);
        let c1 = fn_code(fs.last(), c0.labels);
        Code { text: c0.text + c1.text, labels: c1.labels, ok: c0.ok && c1.ok }
    }
}

pub open spec fn header() -> Seq<char> {
    line(".intel_syntax noprefix"@) + line(".globl main"@) + line(""@)
}

/// The assembly for a whole program, with labels numbered after `lc`.
pub open spec fn program_code(p: SProgram, lc: nat) -> Code {
    let c = functions_code(p.functions, lc);
    Code { text: header() + c.text, labels: c.labels, ok: c.ok }
}

pub proof fn lemma_block_prefix_ok(ss: Seq<SStatement>, env: Env, i: int)
    requires
        0 <= i <= ss.len(),
        block_code(ss, env).ok,
    ensures
        block_code(ss.take(i), env).ok,
    decreases ss.len(),
{
    if i < ss.len() {
        lemma_block_prefix_ok(ss.drop_last(), env, i);
        assert(ss.drop_last().take(i) == ss.take(i));
    } else {
        assert(ss.take(i) == ss);
    }
}

pub proof fn lemma_args_suffix_ok(args: Seq<SExpr>, vars: Vars, lc: nat, i: int)
    requires
        0 <= i <= args.len(),
        args_code(args, vars, lc).ok,
    ensures
        args_code(args.skip(i), vars, lc).ok,
    decreases args.len(),
{
    if i > 0 {
        lemma_args_suffix_ok(args.drop_first(), vars, lc, i - 1);
        assert(args.drop_first().skip(i - 1) == args.skip(i));
    } else {
        assert(args.skip(i) == args);
    }
}

pub proof fn lemma_functions_prefix_ok(fs: Seq<SFunction>, lc: nat, i: int)
    requires
        0 <= i <= fs.len(),
        functions_code(fs, lc).ok,
    ensures
        functions_code(fs.take(i), lc).ok,
    decreases fs.len(),
{
    if i < fs.len() {
        lemma_functions_prefix_ok(fs.drop_last(), lc, i);
        assert(fs.drop_last().take(i) == fs.take(i));
    } else {
        assert(fs.take(i) == fs);
    }
}

pub open spec fn vars_view(v: Seq<(String, i32)>) -> Vars {
    v.map_values(|p: (String, i32)| (p.0@, p.1 as int))
}

/// The assembly emitter.
pub struct CodeGen {
    output: String,
    /// Stack offset for local variables (negative from rbp)
    var_offset: i32,
    /// How far below rbp the stack is reserved on every way to this point
    reserved: i32,
    /// Variable name -> stack offset; the latest entry for a name counts
    vars: Vec<(String, i32)>,
    /// Unique label counter
    label_counter: u32,
}

/// What a `CodeGen` holds between compilations: text written and not yet
/// handed out, and the number of labels numbered so far.
pub struct CodeGenState {
    pub pending: Seq<char>,
    pub labels: nat,
}

impl View for CodeGen {
    type V = CodeGenState;

    closed spec fn view(&self) -> CodeGenState {
        CodeGenState { pending: self.output@, labels: self.label_counter as nat }
    }
}

fn arg_register(k: usize) -> (r: &'static str)
    requires
        k < 6,
    ensures
        r@ == arg_reg(k as int),
{
    if k == 0 {
        "rdi"
    } else if k == 1 {
        "rsi"
    } else if k == 2 {
        "rdx"
    } else if k == 3 {
        "rcx"
    } else if k == 4 {
        "r8"
    } else {
        "r9"
    }
}

impl CodeGen {
    /// `self` and `other` differ at most in their label counters.
    pub closed spec fn same_but_labels(self, other: Self) -> bool {
        &&& self.output == other.output
        &&& self.vars == other.vars
        &&& self.var_offset == other.var_offset
        &&& self.reserved == other.reserved
    }

    pub closed spec fn env(&self) -> Env {
        Env {
            vars: vars_view(self.vars@),
            offset: self.var_offset as int,
            reserved: self.reserved as int,
            labels: self.label_counter as nat,
        }
    }

    /// A fresh emitter: nothing written, no label numbered.
    pub fn new() -> (g: Self)
        ensures
            g@.pending == Seq::<char>::empty(),
            g@.labels == 0,
    {
        CodeGen { output: String::new(), var_offset: 0, reserved: 0, vars: Vec::new(), label_counter: 0 }
    }

    fn emit(&mut self, s: &str)
        ensures
            final(self).output@ == old(self).output@ + line(s@),
            final(self).vars == old(self).vars,
            final(self).var_offset == old(self).var_offset,
            final(self).reserved == old(self).reserved,
            final(self).label_counter == old(self).label_counter,
    {
        self.output.append(s);
        push_char(&mut self.output, '\n');
    }

    /// Takes the next label number and gives the label `prefix.number`;
    /// nothing else changes.
    pub fn fresh_label(&mut self, prefix: &str) -> (l: String)
        requires
            old(self)@.labels < u32::MAX,
        ensures
            l@ == label(prefix@, old(self)@.labels + 1),
            final(self)@.labels == old(self)@.labels + 1,
            final(self)@.pending == old(self)@.pending,
            final(self).same_but_labels(*old(self)),
    {
        self.label_counter = self.label_counter + 1;
        let mut l = String::from_str(prefix);
        push_char(&mut l, '.');
        append_u64(&mut l, self.label_counter as u64);
        l
    }

    fn lookup_var(&self, name: &String) -> (r: Option<i32>)
        ensures
            match r {
                Some(o) => lookup(vars_view(self.vars@), name@) == Some(o as int),
                None => lookup(vars_view(self.vars@), name@) is None,
            },
    {
        let ghost vw = vars_view(self.vars@);
        let mut k = self.vars.len();
        assert(vw.take(k as int) == vw);
        while k > 0
            invariant
                k <= self.vars.len(),
                vw == vars_view(self.vars@),
                lookup(vw.take(k as int), name@) == lookup(vw, name@),
            decreases k,
        {
            let entry = &self.vars[k - 1];
            assert(vw.take(k as int).drop_last() == vw.take(k - 1));
            assert(vw.take(k as int).last() == vw[k - 1]);
            if entry.0 == *name {
                return Some(entry.1);
            }
            k = k - 1;
        }
        None
    }
}

impl CodeGen {
    fn emit_compare(&mut self, set: &str)
        ensures
            final(self).output@ == old(self).output@ + compare_code(set@),
            final(self).vars == old(self).vars,
            final(self).var_offset == old(self).var_offset,
            final(self).reserved == old(self).reserved,
            final(self).label_counter == old(self).label_counter,
    {
        self.emit("  cmp eax, ecx");
        self.emit(set);
        self.emit("  movzx eax, al");
    }

    fn emit_truth(&mut self)
        ensures
            final(self).output@ == old(self).output@ + truth_code(),
            final(self).vars == old(self).vars,
            final(self).var_offset == old(self).var_offset,
            final(self).reserved == old(self).reserved,
            final(self).label_counter == old(self).label_counter,
    {
        self.emit("  cmp eax, 0");
        self.emit("  setne al");
        self.emit("  movzx eax, al");
    }

    /// Emits a line made of `a` followed by `b`.
    fn emit2(&mut self, a: &str, b: &str)
        ensures
            final(self).output@ == old(self).output@ + line(a@ + b@),
            final(self).vars == old(self).vars,
            final(self).var_offset == old(self).var_offset,
            final(self).reserved == old(self).reserved,
            final(self).label_counter == old(self).label_counter,
    {
        let mut l = String::from_str(a);
        l.append(b);
        self.emit(l.as_str());
    }

    /// Emits a line made of `a`, the decimal rendering of `n`, and `b`.
    fn emit_num(&mut self, a: &str, n: i64, b: &str)
        ensures
            final(self).output@ == old(self).output@ + line(a@ + dec_int(n as int) + b@),
            final(self).vars == old(self).vars,
            final(self).var_offset == old(self).var_offset,
            final(self).reserved == old(self).reserved,
            final(self).label_counter == old(self).label_counter,
    {
        let mut l = String::from_str(a);
        append_i64(&mut l, n);
        l.append(b);
        self.emit(l.as_str());
    }

    /// Emits a line made of `a`, the slot at displacement `d`, and `b`.
    fn emit_slot(&mut self, a: &str, d: i32, b: &str)
        ensures
            final(self).output@ == old(self).output@ + line(a@ + slot(d as int) + b@),
            final(self).vars == old(self).vars,
            final(self).var_offset == old(self).var_offset,
            final(self).reserved == old(self).reserved,
            final(self).label_counter == old(self).label_counter,
    {
        let mut l = String::from_str(a);
        if d < 0 {
            l.append("[rbp-");
            append_i64(&mut l, -(d as i64));
        } else {
            l.append("[rbp+");
            append_i64(&mut l, d as i64);
        }
        l.append("]");
        l.append(b);
        proof {
            if d < 0 {
                assert(l@ =~= a@ + slot(d as int) + b@);
            } else {
                assert(l@ =~= a@ + slot(d as int) + b@);
            }
        }
        self.emit(l.as_str());
    }

    fn compile_binop(&mut self, op: BinOp)
        requires
            !is_logical(op),
        ensures
            final(self).output@ == old(self).output@ + binop_code(op),
            final(self).vars == old(self).vars,
            final(self).var_offset == old(self).var_offset,
            final(self).reserved == old(self).reserved,
            final(self).label_counter == old(self).label_counter,
    {
        match op {
            BinOp::Add => self.emit("  add eax, ecx"),
            BinOp::Sub => {
                self.emit("  sub eax, ecx");
            },
            BinOp::Mul => self.emit("  imul eax, ecx"),
            BinOp::Div => {
                self.emit("  cdq");
                self.emit("  idiv ecx");
            },
            BinOp::Mod => {
                self.emit("  cdq");
                self.emit("  idiv ecx");
                self.emit("  mov eax, edx");
            },
            BinOp::Eq => self.emit_compare("  sete al"),
            BinOp::Ne => self.emit_compare("  setne al"),
            BinOp::Lt => self.emit_compare("  setl al"),
            BinOp::Le => self.emit_compare("  setle al"),
            BinOp::Gt => self.emit_compare("  setg al"),
            BinOp::Ge => self.emit_compare("  setge al"),
            BinOp::AndAnd => {},
            BinOp::OrOr => {},
        }
    }

    /// Emits the code for `expr`; false exactly when the expression names a
    /// variable that is not in scope or the label counter would overflow.
    fn compile_expr(&mut self, expr: &Expr) -> (ok: bool)
        ensures
            ok == expr_code(expr@, old(self).env().vars, old(self).label_counter as nat).ok,
            ok ==> final(self).output@ == old(self).output@ + expr_code(
                expr@,
                old(self).env().vars,
                old(self).label_counter as nat,
            ).text,
            ok ==> final(self).label_counter as nat == expr_code(
                expr@,
                old(self).env().vars,
                old(self).label_counter as nat,
            ).labels,
            final(self).vars == old(self).vars,
            final(self).var_offset == old(self).var_offset,
            final(self).reserved == old(self).reserved,
        decreases expr,
    {
        match expr {
            Expr::Number(n) => {
                self.emit_num("  mov eax, ", *n as i64, "");
                proof {
                    reveal_strlit("");
                    assert(("  mov eax, "@ + dec_int(*n as int)) + ""@ == "  mov eax, "@ + dec_int(*n as int));
                }
                true
            },
            Expr::Ident(name) => {
                match self.lookup_var(name) {
                    Some(d) => {
                        self.emit_slot("  mov eax, ", d, "");
                        proof {
                            reveal_strlit("");
                            assert(("  mov eax, "@ + slot(d as int)) + ""@ == "  mov eax, "@ + slot(d as int));
                        }
                        true
                    },
                    None => false,
                }
            },
            Expr::BinOp { op, left, right } => {
                if *op == BinOp::AndAnd || *op == BinOp::OrOr {
                    // Short-circuit: the right operand runs only when the left
                    // one does not decide the result, which is 0 or 1.
                    if self.label_counter == u32::MAX {
                        return false;
                    }
                    let skip = if *op == BinOp::AndAnd {
                        self.fresh_label("and_skip")
                    } else {
                        self.fresh_label("or_skip")
                    };
                    if !self.compile_expr(left) {
                        return false;
                    }
                    self.emit_truth();
                    if *op == BinOp::AndAnd {
                        self.emit2("  je ", skip.as_str());
                    } else {
                        self.emit2("  jne ", skip.as_str());
                    }
                    if !self.compile_expr(right) {
                        return false;
                    }
                    self.emit_truth();
                    self.emit2(skip.as_str(), ":");
                    return true;
                }
                if !self.compile_expr(right) {
                    return false;
                }
                self.emit("  push rax");
                if !self.compile_expr(left) {
                    return false;
                }
                self.emit("  pop rcx");
                self.compile_binop(*op);
                true
            },
            Expr::UnaryOp { op, operand } => {
                if !self.compile_expr(operand) {
                    return false;
                }
                match op {
                    UnaryOp::Neg => self.emit("  neg eax"),
                    UnaryOp::Not => {
                        self.emit("  cmp eax, 0");
                        self.emit("  sete al");
                        self.emit("  movzx eax, al");
                    },
                }
                true
            },
            Expr::Assign { name, value } => {
                if !self.compile_expr(value) {
                    return false;
                }
                match self.lookup_var(name) {
                    Some(d) => {
                        self.emit_slot("  mov ", d, ", eax");
                        true
                    },
                    None => false,
                }
            },
            Expr::Call { name, args } => {
                // System V: the first six arguments in rdi, rsi, rdx, rcx,
                // r8, r9, the rest on the stack, the seventh lowest.
                if !self.compile_args(args) {
                    return false;
                }
                let n = args.len();
                let k: usize = if n < 6 {
                    n
                } else {
                    6
                };
                let ghost before = self.output@;
                let ghost labels = self.label_counter;
                let mut i: usize = 0;
                while i < k
                    invariant
                        i <= k,
                        k as nat == min6(n as nat),
                        self.output@ == before + pops(i as nat),
                        self.label_counter == labels,
                        self.vars == old(self).vars,
                        self.var_offset == old(self).var_offset,
                        self.reserved == old(self).reserved,
                    decreases k - i,
                {
                    self.emit2("  pop ", arg_register(i));
                    i = i + 1;
                }
                self.emit2("  call ", name.as_str());
                if n > 6 {
                    let bytes: u128 = (n as u128 - 6) * 8;
                    let mut l = String::from_str("  add rsp, ");
                    append_u128(&mut l, bytes);
                    self.emit(l.as_str());
                }
                proof {
                    lemma_exprs_view(args@);
                }
                true
            },
        }
    }

    fn compile_args(&mut self, args: &Vec<Expr>) -> (ok: bool)
        ensures
            ok == args_code(exprs_view(args@), old(self).env().vars, old(self).label_counter as nat).ok,
            ok ==> final(self).output@ == old(self).output@ + args_code(
                exprs_view(args@),
                old(self).env().vars,
                old(self).label_counter as nat,
            ).text,
            ok ==> final(self).label_counter as nat == args_code(
                exprs_view(args@),
                old(self).env().vars,
                old(self).label_counter as nat,
            ).labels,
            final(self).vars == old(self).vars,
            final(self).var_offset == old(self).var_offset,
            final(self).reserved == old(self).reserved,
        decreases args,
    {
        let ghost v = exprs_view(args@);
        let ghost vars = old(self).env().vars;
        let ghost lc = old(self).label_counter as nat;
        proof {
            lemma_exprs_view(args@);
        }
        let n = args.len();
        let mut i: usize = n;
        assert(v.skip(n as int) =~= Seq::<SExpr>::empty());
        while i > 0
            invariant
                n == args.len(),
                v == exprs_view(args@),
                v.len() == n,
                forall|k: int| 0 <= k < n ==> #[trigger] v[k] == expr_view(args@[k]),
                i <= n,
                vars == old(self).env().vars,
                lc == old(self).label_counter as nat,
                self.vars == old(self).vars,
                self.var_offset == old(self).var_offset,
                self.reserved == old(self).reserved,
                args_code(v.skip(i as int), vars, lc).ok,
                self.output@ == old(self).output@ + args_code(v.skip(i as int), vars, lc).text,
                self.label_counter as nat == args_code(v.skip(i as int), vars, lc).labels,
            decreases i,
        {
            assert(v.skip(i - 1).drop_first() =~= v.skip(i as int));
            assert(v.skip(i - 1)[0] == v[i - 1]);
            if !self.compile_expr(&args[i - 1]) {
                proof {
                    if args_code(v, vars, lc).ok {
                        lemma_args_suffix_ok(v, vars, lc, i - 1);
                    }
                }
                return false;
            }
            self.emit("  push rax");
            i = i - 1;
        }
        assert(v.skip(0) =~= v);
        true
    }
}

proof fn lemma_vars_push(v: Seq<(String, i32)>, name: String, off: i32)
    ensures
        vars_view(v.push((name, off))) == vars_view(v).push((name@, off as int)),
{
    assert(vars_view(v.push((name, off))) =~= vars_view(v).push((name@, off as int)));
}

impl CodeGen {
    /// Declares a new local `name`: emits the line that reserves the stack
    /// down to its slot (with `note` after the name), records the slot at the
    /// current depth below `rbp` and moves the depth on; returns the slot's
    /// displacement.
    fn declare(&mut self, name: &String, note: &str) -> (d: i32)
        requires
            0 <= old(self).reserved,
            0 <= old(self).var_offset,
            old(self).var_offset + 8 <= i32::MAX,
        ensures
            d == -old(self).var_offset,
            final(self).env() == declared(name@, old(self).env()),
            final(self).output@ == old(self).output@ + declare_line(name@, old(self).env(), note@),
    {
        let mut l = String::from_str("  sub rsp, ");
        append_i64(&mut l, (self.var_offset - self.reserved) as i64);
        l.append("  # ");
        l.append(name.as_str());
        l.append(note);
        proof {
            assert(l@ =~= "  sub rsp, "@ + dec_int(self.env().offset - self.env().reserved) + "  # "@ + name@
                + note@);
        }
        self.emit(l.as_str());
        let off = -self.var_offset;
        let copy = name.clone();
        proof {
            lemma_vars_push(self.vars@, copy, off);
        }
        self.vars.push((copy, off));
        self.reserved = self.var_offset;
        self.var_offset = self.var_offset + 8;
        off
    }

    fn emit_epilogue(&mut self)
        ensures
            final(self).output@ == old(self).output@ + epilogue(),
            final(self).vars == old(self).vars,
            final(self).var_offset == old(self).var_offset,
            final(self).reserved == old(self).reserved,
            final(self).label_counter == old(self).label_counter,
    {
        self.emit("  mov rsp, rbp");
        self.emit("  pop rbp");
        self.emit("  ret");
    }

    /// Emits the code for `stmt`; false exactly when it cannot be emitted
    /// (a variable out of scope, or an offset or the label counter overflowing).
    #[verifier::rlimit(100)]
    #[verifier::spinoff_prover]
    fn compile_statement(&mut self, stmt: &Statement) -> (ok: bool)
        requires
            old(self).var_offset >= 0,
            old(self).reserved >= 0,
        ensures
            ok ==> final(self).var_offset >= 0,
            ok ==> final(self).reserved >= 0,
            ok == stmt_code(stmt@, old(self).env()).ok,
            ok ==> final(self).output@ == old(self).output@ + stmt_code(stmt@, old(self).env()).text,
            ok ==> final(self).env() == stmt_code(stmt@, old(self).env()).env,
        decreases stmt,
    {
        match stmt {
            Statement::Decl { name } => {
                if self.var_offset > i32::MAX - 8 {
                    return false;
                }
                self.declare(name, " (uninitialized)");
                true
            },
            Statement::DeclInit { name, init } => {
                if self.var_offset > i32::MAX - 8 {
                    return false;
                }
                let d = self.declare(name, "");
                proof {
                    reveal_strlit("");
                }
                if !self.compile_expr(init) {
                    return false;
                }
                self.emit_slot("  mov ", d, ", eax");
                true
            },
            Statement::Expr(expr) => self.compile_expr(expr),
            Statement::Return(expr) => {
                if let Some(e) = expr {
                    if !self.compile_expr(e) {
                        return false;
                    }
                } else {
                    self.emit("  xor eax, eax");
                }
                self.emit_epilogue();
                true
            },
            Statement::If { cond, then_body, else_body } => {
                if self.label_counter > u32::MAX - 2 {
                    return false;
                }
                let else_label = self.fresh_label("else");
                let end_label = self.fresh_label("endif");
                if !self.compile_expr(cond) {
                    return false;
                }
                self.emit("  cmp eax, 0");
                if else_body.is_some() {
                    self.emit2("  je ", else_label.as_str());
                } else {
                    self.emit2("  je ", end_label.as_str());
                }
                let reserved = self.reserved;
                if !self.compile_block(then_body) {
                    return false;
                }
                // Either branch may have run: the stack is reserved as far
                // as both reserve it.
                let then_reserved = self.reserved;
                self.reserved = reserved;
                if let Some(eb) = else_body {
                    self.emit2("  jmp ", end_label.as_str());
                    self.emit2(else_label.as_str(), ":");
                    if !self.compile_block(eb) {
                        return false;
                    }
                    if then_reserved < self.reserved {
                        self.reserved = then_reserved;
                    }
                }
                self.emit2(end_label.as_str(), ":");
                true
            },
            Statement::While { cond, body } => {
                if self.label_counter > u32::MAX - 2 {
                    return false;
                }
                let cond_label = self.fresh_label("while_cond");
                let body_label = self.fresh_label("while_body");
                self.emit2("  jmp ", cond_label.as_str());
                self.emit2(body_label.as_str(), ":");
                let reserved = self.reserved;
                if !self.compile_block(body) {
                    return false;
                }
                // The body may not have run.
                self.reserved = reserved;
                self.emit2(cond_label.as_str(), ":");
                if !self.compile_expr(cond) {
                    return false;
                }
                self.emit("  cmp eax, 0");
                self.emit2("  jne ", body_label.as_str());
                true
            },
            Statement::For { init, cond, step, body } => {
                if let Some(i) = init {
                    if !self.compile_statement(i) {
                        return false;
                    }
                }
                if self.label_counter > u32::MAX - 2 {
                    return false;
                }
                let cond_label = self.fresh_label("for_cond");
                let body_label = self.fresh_label("for_body");
                self.emit2("  jmp ", cond_label.as_str());
                self.emit2(body_label.as_str(), ":");
                let reserved = self.reserved;
                if !self.compile_block(body) {
                    return false;
                }
                // The body may not have run.
                self.reserved = reserved;
                if let Some(s) = step {
                    if !self.compile_expr(s) {
                        return false;
                    }
                }
                self.emit2(cond_label.as_str(), ":");
                if let Some(c) = cond {
                    if !self.compile_expr(c) {
                        return false;
                    }
                    self.emit("  cmp eax, 0");
                    self.emit2("  jne ", body_label.as_str());
                } else {
                    self.emit2("  jmp ", body_label.as_str());
                }
                true
            },
        }
    }

    fn compile_block(&mut self, ss: &Vec<Statement>) -> (ok: bool)
        requires
            old(self).var_offset >= 0,
            old(self).reserved >= 0,
        ensures
            ok ==> final(self).var_offset >= 0,
            ok ==> final(self).reserved >= 0,
            ok == block_code(stmts_view(ss@), old(self).env()).ok,
            ok ==> final(self).output@ == old(self).output@ + block_code(stmts_view(ss@), old(self).env()).text,
            ok ==> final(self).env() == block_code(stmts_view(ss@), old(self).env()).env,
        decreases ss,
    {
        let ghost v = stmts_view(ss@);
        let ghost env0 = old(self).env();
        proof {
            lemma_stmts_view(ss@);
        }
        let n = ss.len();
        let mut i: usize = 0;
        assert(v.take(0) == Seq::<SStatement>::empty());
        while i < n
            invariant
                n == ss.len(),
                v == stmts_view(ss@),
                v.len() == n,
                forall|k: int| 0 <= k < n ==> #[trigger] v[k] == stmt_view(ss@[k]),
                i <= n,
                env0 == old(self).env(),
                self.var_offset >= 0,
                self.reserved >= 0,
                block_code(v.take(i as int), env0).ok,
                self.output@ == old(self).output@ + block_code(v.take(i as int), env0).text,
                self.env() == block_code(v.take(i as int), env0).env,
            decreases n - i,
        {
            assert(v.take(i + 1).drop_last() == v.take(i as int));
            assert(v.take(i + 1).last() == v[i as int]);
            if !self.compile_statement(&ss[i]) {
                proof {
                    if block_code(v, env0).ok {
                        lemma_block_prefix_ok(v, env0, i + 1);
                    }
                }
                return false;
            }
            i = i + 1;
        }
        assert(v.take(n as int) == v);
        true
    }
}

/// Whether the code for `e` pushes onto the stack or calls.
fn expr_pushes_exec(e: &Expr) -> (b: bool)
    ensures
        b == expr_pushes(e@),
    decreases e,
{
    match e {
        Expr::BinOp { op, left, right } => {
            if *op != BinOp::AndAnd && *op != BinOp::OrOr {
                return true;
            }
            expr_pushes_exec(left) || expr_pushes_exec(right)
        },
        Expr::UnaryOp { op, operand } => expr_pushes_exec(operand),
        Expr::Assign { name, value } => expr_pushes_exec(value),
        Expr::Call { name, args } => true,
        _ => false,
    }
}

fn opt_pushes_exec(e: &Option<Expr>) -> (b: bool)
    ensures
        b == opt_pushes(opt_expr_view(*e)),
{
    match e {
        Some(x) => expr_pushes_exec(x),
        None => false,
    }
}

/// Whether the code for `s` pushes onto the stack or calls.
fn stmt_pushes_exec(s: &Statement) -> (b: bool)
    ensures
        b == stmt_pushes(s@),
    decreases s,
{
    match s {
        Statement::Decl { name } => false,
        Statement::DeclInit { name, init } => expr_pushes_exec(init),
        Statement::Expr(e) => expr_pushes_exec(e),
        Statement::Return(v) => opt_pushes_exec(v),
        Statement::If { cond, then_body, else_body } => {
            if expr_pushes_exec(cond) || block_pushes_exec(then_body) {
                return true;
            }
            match else_body {
                Some(eb) => block_pushes_exec(eb),
                None => false,
            }
        },
        Statement::While { cond, body } => expr_pushes_exec(cond) || block_pushes_exec(body),
        Statement::For { init, cond, step, body } => {
            let i = match init {
                Some(i) => stmt_pushes_exec(i),
                None => false,
            };
            i || opt_pushes_exec(cond) || opt_pushes_exec(step) || block_pushes_exec(body)
        },
    }
}

/// Whether the code for `ss` pushes onto the stack or calls.
fn block_pushes_exec(ss: &Vec<Statement>) -> (b: bool)
    ensures
        b == block_pushes(stmts_view(ss@)),
    decreases ss,
{
    let ghost v = stmts_view(ss@);
    proof {
        lemma_stmts_view(ss@);
    }
    let n = ss.len();
    let mut i: usize = 0;
    let mut b = false;
    assert(v.take(0) =~= Seq::<SStatement>::empty());
    while i < n
        invariant
            n == ss.len(),
            v == stmts_view(ss@),
            v.len() == n,
            forall|k: int| 0 <= k < n ==> #[trigger] v[k] == stmt_view(ss@[k]),
            i <= n,
            b == block_pushes(v.take(i as int)),
        decreases n - i,
    {
        assert(v.take(i + 1).drop_last() =~= v.take(i as int));
        assert(v.take(i + 1).last() == v[i as int]);
        let p = stmt_pushes_exec(&ss[i]);
        b = b || p;
        i = i + 1;
    }
    assert(v.take(n as int) =~= v);
    b
}

impl CodeGen {
    fn compile_function(&mut self, func: &Function) -> (ok: bool)
        ensures
            ok == fn_code(func@, old(self).label_counter as nat).ok,
            ok ==> final(self).output@ == old(self).output@ + fn_code(func@, old(self).label_counter as nat).text,
            ok ==> final(self).label_counter as nat == fn_code(func@, old(self).label_counter as nat).labels,
    {
        let ghost f = func@;
        let ghost params = names_view(func.params@);
        let ghost lc = old(self).label_counter as nat;
        let n = func.params.len();
        let k: usize = if n < 6 {
            n
        } else {
            6
        };
        // The register parameters' slots are reserved on entry when the
        // body pushes before a declaration could reserve them.
        let reserve = k > 0 && block_pushes_exec(&func.body);
        if n > 6 && 16 + (n as u128 - 7) * 8 > 0x7fff_ffff {
            return false;
        }
        self.vars = Vec::new();

        self.emit2(func.name.as_str(), ":");
        self.emit("  push rbp");
        self.emit("  mov rbp, rsp");
        if reserve {
            let mut l = String::from_str("  sub rsp, ");
            append_u64(&mut l, 8 * k as u64);
            self.emit(l.as_str());
            self.reserved = 8 * k as i32;
        } else {
            self.reserved = 0;
        }
        let ghost head = self.output@;
        assert(head == old(self).output@ + prologue(f).take(prologue(f).len() - param_stores(k as nat).len()))
            by {
            let r = if reserves_params(f) {
                line("  sub rsp, "@ + dec_nat(8 * min6(f.params.len())))
            } else {
                Seq::<char>::empty()
            };
            let h = line(f.name + ":"@) + line("  push rbp"@) + line("  mov rbp, rsp"@) + r;
            assert(prologue(f) == h + param_stores(k as nat));
            assert((h + param_stores(k as nat)).take(h.len() as int) =~= h);
        }

        // Params: rdi, rsi, rdx, rcx, r8, r9 (first 6)
        let mut i: usize = 0;
        assert(vars_view(self.vars@) =~= param_vars(params).take(0));
        while i < k
            invariant
                n == func.params.len(),
                params == names_view(func.params@),
                k as nat == min6(n as nat),
                i <= k,
                self.label_counter as nat == lc,
                self.reserved as int == body_env(f, lc).reserved,
                f == func@,
                self.output@ == head + param_stores(i as nat),
                vars_view(self.vars@) == param_vars(params).take(i as int),
            decreases k - i,
        {
            let d: i32 = -8 * (i as i32 + 1);
            let mut tail = String::from_str(", ");
            tail.append(arg_register(i));
            self.emit_slot("  mov ", d, tail.as_str());
            assert(line("  mov "@ + slot(d as int) + tail@) =~= line(
                "  mov "@ + slot(param_disp(i as int)) + ", "@ + arg_reg(i as int),
            ));
            let copy = func.params[i].clone();
            proof {
                lemma_vars_push(self.vars@, copy, d);
                assert(param_vars(params).take(i + 1) =~= param_vars(params).take(i as int).push(
                    param_vars(params)[i as int],
                ));
            }
            self.vars.push((copy, d));
            i = i + 1;
        }
        // The rest are in the caller's frame, above the return address.
        let mut j: usize = 6;
        while j < n
            invariant
                n == func.params.len(),
                params == names_view(func.params@),
                k as nat == min6(n as nat),
                n > 6 ==> 16 + (n - 7) * 8 <= 0x7fff_ffff,
                k <= j,
                j <= n || n <= 6,
                self.label_counter as nat == lc,
                self.reserved as int == body_env(f, lc).reserved,
                f == func@,
                self.output@ == head + param_stores(k as nat),
                vars_view(self.vars@) == param_vars(params).take(if j <= n { j as int } else { n as int }),
            decreases n - j,
        {
            let copy = func.params[j].clone();
            let d: i32 = 16 + (j - 6) as i32 * 8;
            proof {
                lemma_vars_push(self.vars@, copy, d);
                assert(param_vars(params).take(j + 1) =~= param_vars(params).take(j as int).push(
                    param_vars(params)[j as int],
                ));
            }
            self.vars.push((copy, d));
            j = j + 1;
        }
        assert(param_vars(params).take(n as int) =~= param_vars(params));
        self.var_offset = 8 * k as i32 + 8;
        assert(self.output@ == old(self).output@ + prologue(f));

        if !self.compile_block(&func.body) {
            return false;
        }

        // Implicit return 0 when falling off end
        self.emit("  xor eax, eax");
        self.emit_epilogue();
        self.emit("");
        true
    }

    fn compile_program(&mut self, program: &Program) -> (ok: bool)
        ensures
            ok == program_code(program@, old(self).label_counter as nat).ok,
            ok ==> final(self).output@ == old(self).output@ + program_code(
                program@,
                old(self).label_counter as nat,
            ).text,
            ok ==> final(self).label_counter as nat == program_code(
                program@,
                old(self).label_counter as nat,
            ).labels,
    {
        let ghost fs = program@.functions;
        let ghost lc = old(self).label_counter as nat;
        self.emit(".intel_syntax noprefix");
        self.emit(".globl main");
        self.emit("");
        let n = program.functions.len();
        let mut i: usize = 0;
        assert(fs.take(0) == Seq::<SFunction>::empty());
        while i < n
            invariant
                n == program.functions.len(),
                fs == program@.functions,
                fs.len() == n,
                i <= n,
                lc == old(self).label_counter as nat,
                functions_code(fs.take(i as int), lc).ok,
                self.output@ == old(self).output@ + header() + functions_code(fs.take(i as int), lc).text,
                self.label_counter as nat == functions_code(fs.take(i as int), lc).labels,
            decreases n - i,
        {
            assert(fs.take(i + 1).drop_last() == fs.take(i as int));
            assert(fs.take(i + 1).last() == fs[i as int]);
            assert(fs[i as int] == program.functions@[i as int]@);
            if !self.compile_function(&program.functions[i]) {
                proof {
                    if functions_code(fs, lc).ok {
                        lemma_functions_prefix_ok(fs, lc, i + 1);
                    }
                }
                return false;
            }
            i = i + 1;
        }
        assert(fs.take(n as int) == fs);
        true
    }

    /// Compiles a program to assembly text. The text written since the last
    /// compilation (none, for a `CodeGen` from `new`) comes first; afterwards
    /// nothing is pending. Label numbers continue from earlier compilations.
    pub fn compile(&mut self, program: &Program) -> (code: String)
        requires
            program_code(program@, old(self)@.labels).ok,
        ensures
            code@ == old(self)@.pending + program_code(program@, old(self)@.labels).text,
            final(self)@.pending == Seq::<char>::empty(),
            final(self)@.labels == program_code(program@, old(self)@.labels).labels,
    {
        self.compile_program(program);
        let mut out = String::new();
        std::mem::swap(&mut out, &mut self.output);
        out
    }

    /// `compile`, for any program: `None` exactly when `compile` may not be
    /// called on it (a variable used where it is not declared, or a frame, a
    /// slot's displacement or the label counter overflowing); pending text is
    /// then dropped.
    pub fn try_compile(&mut self, program: &Program) -> (code: Option<String>)
        ensures
            code is Some <==> program_code(program@, old(self)@.labels).ok,
            code matches Some(a) ==> a@ == old(self)@.pending + program_code(
                program@,
                old(self)@.labels,
            ).text && final(self)@.labels == program_code(program@, old(self)@.labels).labels,
            final(self)@.pending == Seq::<char>::empty(),
    {
        let ok = self.compile_program(program);
        let mut out = String::new();
        std::mem::swap(&mut out, &mut self.output);
        if ok {
            Some(out)
        } else {
            None
        }
    }
}

impl Default for CodeGen {
    fn default() -> (g: Self)
        ensures
            g@.pending == Seq::<char>::empty(),
            g@.labels == 0,
    {
        Self::new()
    }
}

proof fn lemma_dec_nat_shape(n: nat)
    ensures
        dec_nat(n).len() >= 1,
        n >= 10 ==> dec_nat(n).len() >= 2,
        forall|k: int| 0 <= k < dec_nat(n).len() ==> #[trigger] dec_nat(n)[k] != '.',
    decreases n,
{
    if n >= 10 {
        lemma_dec_nat_shape(n / 10);
        let d = dec_nat(n / 10);
        assert forall|k: int| 0 <= k < dec_nat(n).len() implies #[trigger] dec_nat(n)[k] != '.' by {
            if k < d.len() {
                assert(dec_nat(n)[k] == d[k]);
            } else {
                assert(dec_nat(n)[k] == digit_char(n % 10));
            }
        }
    }
}

/// Different numbers have different decimal renderings.
pub proof fn lemma_dec_nat_injective(n: nat, m: nat)
    requires
        dec_nat(n) == dec_nat(m),
    ensures
        n == m,
    decreases n,
{
    lemma_dec_nat_shape(n);
    lemma_dec_nat_shape(m);
    if n < 10 && m < 10 {
        assert(dec_nat(n)[0] == digit_char(n));
        assert(dec_nat(m)[0] == digit_char(m));
        assert(digit_char(n) as int == 48 + n);
        assert(digit_char(m) as int == 48 + m);
    } else if n >= 10 && m >= 10 {
        let a = dec_nat(n);
        assert(a.drop_last() == dec_nat(n / 10));
        assert(dec_nat(m).drop_last() == dec_nat(m / 10));
        assert(a.last() == digit_char(n % 10));
        assert(dec_nat(m).last() == digit_char(m % 10));
        assert(n % 10 == m % 10);
        lemma_dec_nat_injective(n / 10, m / 10);
    }
}

/// Labels are unique: labels with different numbers differ, whatever their
/// prefixes (the emitter's prefixes hold no `.`).
pub proof fn lemma_labels_distinct(p1: Seq<char>, n1: nat, p2: Seq<char>, n2: nat)
    requires
        n1 != n2,
        !p1.contains('.'),
        !p2.contains('.'),
    ensures
        label(p1, n1) != label(p2, n2),
{
    let l1 = label(p1, n1);
    let l2 = label(p2, n2);
    lemma_dec_nat_shape(n1);
    lemma_dec_nat_shape(n2);
    if l1 == l2 {
        if p1.len() < p2.len() {
            assert(l1[p1.len() as int] == '.');
            assert(l2[p1.len() as int] == p2[p1.len() as int]);
            assert(p2.contains(p2[p1.len() as int]));
        } else if p2.len() < p1.len() {
            assert(l2[p2.len() as int] == '.');
            assert(l1[p2.len() as int] == p1[p2.len() as int]);
            assert(p1.contains(p1[p2.len() as int]));
        } else {
            assert(l1.subrange(p1.len() as int + 1, l1.len() as int) == dec_nat(n1));
            assert(l2.subrange(p2.len() as int + 1, l2.len() as int) == dec_nat(n2));
            lemma_dec_nat_injective(n1, n2);
        }
    }
}

/// The prefixes that the emitter gives its labels.
pub open spec fn label_prefix(p: Seq<char>) -> bool {
    ||| p == "and_skip"@
    ||| p == "or_skip"@
    ||| p == "else"@
    ||| p == "endif"@
    ||| p == "while_cond"@
    ||| p == "while_body"@
    ||| p == "for_cond"@
    ||| p == "for_body"@
}

/// The emitter's label prefixes hold no `.`, which separates a label's
/// prefix from its number.
pub proof fn lemma_label_prefix_no_dot(p: Seq<char>)
    requires
        label_prefix(p),
    ensures
        !p.contains('.'),
{
    reveal_strlit("and_skip");
    reveal_strlit("or_skip");
    reveal_strlit("else");
    reveal_strlit("endif");
    reveal_strlit("while_cond");
    reveal_strlit("while_body");
    reveal_strlit("for_cond");
    reveal_strlit("for_body");
    assert forall|i: int| 0 <= i < p.len() implies p[i] != '.' by {
        if i == 0 {
        } else if i == 1 {
        } else if i == 2 {
        } else if i == 3 {
        } else if i == 4 {
        } else if i == 5 {
        } else if i == 6 {
        } else if i == 7 {
        } else if i == 8 {
        } else {
        }
    }
}

/// The emitter never issues one label twice: the labels it takes at
/// different counter values differ, whatever their prefixes, and the counter
/// only grows (`lemma_program_labels_grow`).
pub proof fn lemma_emitted_labels_distinct(p1: Seq<char>, n1: nat, p2: Seq<char>, n2: nat)
    requires
        label_prefix(p1),
        label_prefix(p2),
        n1 != n2,
    ensures
        label(p1, n1) != label(p2, n2),
{
    lemma_label_prefix_no_dot(p1);
    lemma_label_prefix_no_dot(p2);
    lemma_labels_distinct(p1, n1, p2, n2);
}

/// The label counter only grows while an expression is emitted.
pub proof fn lemma_expr_labels_grow(e: SExpr, vars: Vars, lc: nat)
    ensures
        expr_code(e, vars, lc).labels >= lc,
    decreases e,
{
    match e {
        SExpr::BinOp { op, left, right } => if is_logical(op) {
            lemma_expr_labels_grow(*left, vars, lc + 1);
            lemma_expr_labels_grow(*right, vars, expr_code(*left, vars, lc + 1).labels);
        } else {
            lemma_expr_labels_grow(*right, vars, lc);
            lemma_expr_labels_grow(*left, vars, expr_code(*right, vars, lc).labels);
        },
        SExpr::UnaryOp { op, operand } => lemma_expr_labels_grow(*operand, vars, lc),
        SExpr::Assign { name, value } => lemma_expr_labels_grow(*value, vars, lc),
        SExpr::Call { name, args } => lemma_args_labels_grow(args, vars, lc),
        _ => {},
    }
}

pub proof fn lemma_args_labels_grow(args: Seq<SExpr>, vars: Vars, lc: nat)
    ensures
        args_code(args, vars, lc).labels >= lc,
    decreases args,
{
    if args.len() > 0 {
        lemma_args_labels_grow(args.drop_first(), vars, lc);
        lemma_expr_labels_grow(args[0], vars, args_code(args.drop_first(), vars, lc).labels);
    }
}

/// The label counter only grows while a statement is emitted.
pub proof fn lemma_stmt_labels_grow(s: SStatement, env: Env)
    ensures
        stmt_code(s, env).env.labels >= env.labels,
    decreases s,
{
    match s {
        SStatement::DeclInit { name, init } => {
            lemma_expr_labels_grow(init, env.vars.push((name, -env.offset)), env.labels);
        },
        SStatement::Expr(e) => lemma_expr_labels_grow(e, env.vars, env.labels),
        SStatement::Return(value) => {
            if let Some(e) = value {
                lemma_expr_labels_grow(e, env.vars, env.labels);
            }
        },
        SStatement::If { cond, then_body, else_body } => {
            let cc = expr_code(cond, env.vars, env.labels + 2);
            lemma_expr_labels_grow(cond, env.vars, env.labels + 2);
            lemma_block_labels_grow(then_body, with_labels(env, cc.labels));
            if let Some(eb) = else_body {
                lemma_block_labels_grow(eb, with_reserved(block_code(then_body, with_labels(env, cc.labels)).env, env.reserved));
            }
        },
        SStatement::While { cond, body } => {
            let bc = block_code(body, with_labels(env, env.labels + 2));
            lemma_block_labels_grow(body, with_labels(env, env.labels + 2));
            lemma_expr_labels_grow(cond, bc.env.vars, bc.env.labels);
        },
        SStatement::For { init, cond, step, body } => {
            let ic = match init {
                Some(i) => stmt_code(*i, env),
                None => StmtCode { text: Seq::empty(), env, ok: true },
            };
            if let Some(i) = init {
                lemma_stmt_labels_grow(*i, env);
            }
            let bc = block_code(body, with_labels(ic.env, ic.env.labels + 2));
            lemma_block_labels_grow(body, with_labels(ic.env, ic.env.labels + 2));
            let sc = match step {
                Some(e) => expr_code(e, bc.env.vars, bc.env.labels),
                None => Code { text: Seq::empty(), labels: bc.env.labels, ok: true },
            };
            if let Some(e) = step {
                lemma_expr_labels_grow(e, bc.env.vars, bc.env.labels);
            }
            if let Some(c) = cond {
                lemma_expr_labels_grow(c, bc.env.vars, sc.labels);
            }
        },
        _ => {},
    }
}

/// The label counter only grows while a sequence of statements is emitted.
pub proof fn lemma_block_labels_grow(ss: Seq<SStatement>, env: Env)
    ensures
        block_code(ss, env).env.labels >= env.labels,
    decreases ss,
{
    if ss.len() > 0 {
        lemma_block_labels_grow(ss.drop_last(), env);
        lemma_stmt_labels_grow(ss.last(), block_code(ss.drop_last(), env).env);
    }
}

/// The label counter only grows while a program is emitted: the labels of a
/// later compilation are numbered above those of an earlier one.
pub proof fn lemma_program_labels_grow(p: SProgram, lc: nat)
    ensures
        program_code(p, lc).labels >= lc,
{
    lemma_functions_labels_grow(p.functions, lc);
}

proof fn lemma_functions_labels_grow(fs: Seq<SFunction>, lc: nat)
    ensures
        functions_code(fs, lc).labels >= lc,
    decreases fs.len(),
{
    if fs.len() > 0 {
        lemma_functions_labels_grow(fs.drop_last(), lc);
        let c0 = functions_code(fs.drop_last(), lc);
        let f = fs.last();
        lemma_block_labels_grow(f.body, body_env(f, c0.labels));
    }
}

/// Every function ends with an implicit `return 0` for control that falls
/// off its end.
pub proof fn lemma_implicit_return_zero(f: SFunction, lc: nat)
    ensures
        ({
            let t = fn_code(f, lc).text;
            let tail = line("  xor eax, eax"@) + epilogue() + line(""@);
            t.len() >= tail.len() && t.subrange(t.len() - tail.len(), t.len() as int) == tail
        }),
{
    let head = prologue(f) + block_code(f.body, body_env(f, lc)).text;
    let tail = line("  xor eax, eax"@) + epilogue() + line(""@);
    assert(fn_code(f, lc).text == head + tail);
    assert((head + tail).subrange(head.len() as int, (head + tail).len() as int) == tail);
}


/// Every slot in `vars` lies either in the caller's frame (16 bytes or more
/// above `rbp`) or within `depth` bytes below `rbp`.
pub open spec fn slots_within(vars: Vars, depth: int) -> bool {
    forall|k: int|
        0 <= k < vars.len() ==> (#[trigger] vars[k]).1 >= 16 || (vars[k].1 <= -8 && -vars[k].1 <= depth)
}

/// No two entries of `vars` share a slot.
pub open spec fn slots_distinct(vars: Vars) -> bool {
    forall|i: int, j: int| 0 <= i < j < vars.len() ==> (#[trigger] vars[i]).1 != (#[trigger] vars[j]).1
}

/// What holds while a function body is emitted: the next local goes right
/// below the slots taken so far, and no more is counted as reserved than
/// those slots, so a declaration's `sub rsp` moves the stack down by at least
/// a slot.
pub open spec fn slots_ok(env: Env) -> bool {
    &&& env.offset >= 8
    &&& slots_within(env.vars, env.offset - 8)
    &&& slots_distinct(env.vars)
    &&& 0 <= env.reserved <= env.offset - 8
}

proof fn lemma_prefix_trans(a: Vars, b: Vars, c: Vars)
    requires
        a.is_prefix_of(b),
        b.is_prefix_of(c),
    ensures
        a.is_prefix_of(c),
{
    assert forall|k: int| 0 <= k < a.len() implies a[k] == c.subrange(0, a.len() as int)[k] by {
        assert(a[k] == b.subrange(0, a.len() as int)[k]);
        assert(b[k] == c.subrange(0, b.len() as int)[k]);
    }
    assert(a =~= c.subrange(0, a.len() as int));
}

/// A declaration keeps `slots_ok`: the new local's slot is below all others.
proof fn lemma_declare_slots(env: Env, name: Seq<char>)
    requires
        slots_ok(env),
    ensures
        slots_ok(declared(name, env)),
        env.vars.is_prefix_of(env.vars.push((name, -env.offset))),
{
    let v = env.vars.push((name, -env.offset));
    assert forall|k: int| 0 <= k < v.len() implies (#[trigger] v[k]).1 >= 16 || (v[k].1 <= -8 && -v[k].1
        <= env.offset) by {
        if k < env.vars.len() {
            assert(v[k] == env.vars[k]);
        }
    }
    assert forall|i: int, j: int| 0 <= i < j < v.len() implies (#[trigger] v[i]).1 != (#[trigger] v[j]).1 by {
        assert(v[i] == env.vars[i]);
        if j < env.vars.len() {
            assert(v[j] == env.vars[j]);
        }
    }
    assert(env.vars =~= v.subrange(0, env.vars.len() as int));
}

/// Emitting a statement keeps `slots_ok`, only adds to the variable table,
/// and moves the next local's depth on by a slot per declaration.
pub proof fn lemma_stmt_slots(s: SStatement, env: Env)
    requires
        slots_ok(env),
    ensures
        slots_ok(stmt_code(s, env).env),
        env.vars.is_prefix_of(stmt_code(s, env).env.vars),
        stmt_code(s, env).env.offset == env.offset + 8 * stmt_decls(s),
    decreases s,
{
    assert(env.vars.is_prefix_of(env.vars)) by {
        assert(env.vars =~= env.vars.subrange(0, env.vars.len() as int));
    }
    match s {
        SStatement::Decl { name } => lemma_declare_slots(env, name),
        SStatement::DeclInit { name, init } => lemma_declare_slots(env, name),
        SStatement::If { cond, then_body, else_body } => {
            let cc = expr_code(cond, env.vars, env.labels + 2);
            let e1 = with_labels(env, cc.labels);
            lemma_block_slots(then_body, e1);
            if let Some(eb) = else_body {
                let e2 = with_reserved(block_code(then_body, e1).env, env.reserved);
                lemma_block_slots(eb, e2);
                lemma_prefix_trans(env.vars, e2.vars, block_code(eb, e2).env.vars);
            }
        },
        SStatement::While { cond, body } => {
            lemma_block_slots(body, with_labels(env, env.labels + 2));
        },
        SStatement::For { init, cond, step, body } => {
            let ic = match init {
                Some(i) => stmt_code(*i, env),
                None => StmtCode { text: Seq::empty(), env, ok: true },
            };
            if let Some(i) = init {
                lemma_stmt_slots(*i, env);
            }
            let e1 = with_labels(ic.env, ic.env.labels + 2);
            lemma_block_slots(body, e1);
            lemma_prefix_trans(env.vars, ic.env.vars, block_code(body, e1).env.vars);
        },
        _ => {},
    }
}

/// `lemma_stmt_slots` for a sequence of statements.
pub proof fn lemma_block_slots(ss: Seq<SStatement>, env: Env)
    requires
        slots_ok(env),
    ensures
        slots_ok(block_code(ss, env).env),
        env.vars.is_prefix_of(block_code(ss, env).env.vars),
        block_code(ss, env).env.offset == env.offset + 8 * block_decls(ss),
    decreases ss,
{
    if ss.len() == 0 {
        assert(env.vars =~= env.vars.subrange(0, env.vars.len() as int));
    } else {
        lemma_block_slots(ss.drop_last(), env);
        let b = block_code(ss.drop_last(), env);
        lemma_stmt_slots(ss.last(), b.env);
        lemma_prefix_trans(env.vars, b.env.vars, stmt_code(ss.last(), b.env).env.vars);
    }
}

/// In the code for a function, no two variables share a slot: each
/// parameter and each local declared anywhere in the body has its own.
/// The slots of the register parameters and of the locals lie within
/// `frame_size(f)` bytes below `rbp`; the other parameters lie in the
/// caller's frame. The table of variables only grows while the body is
/// emitted, starting from the parameters, so this holds of every slot that
/// the body's code reads or writes. What is counted as reserved never passes
/// the slots taken: `slots_ok` holds from the start of the body and
/// `lemma_stmt_slots` keeps it from statement to statement, so each
/// declaration's `sub rsp` moves the stack down by at least a slot.
pub proof fn lemma_function_slots(f: SFunction, lc: nat)
    ensures
        param_vars(f.params).is_prefix_of(block_code(f.body, body_env(f, lc)).env.vars),
        slots_distinct(block_code(f.body, body_env(f, lc)).env.vars),
        slots_within(block_code(f.body, body_env(f, lc)).env.vars, frame_size(f) as int),
        slots_ok(body_env(f, lc)),
{
    let pv = param_vars(f.params);
    let m = min6(f.params.len());
    assert forall|k: int| 0 <= k < pv.len() implies (#[trigger] pv[k]).1 >= 16 || (pv[k].1 <= -8 && -pv[k].1
        <= 8 * m) by {
        assert(pv[k].1 == param_disp(k));
    }
    assert forall|i: int, j: int| 0 <= i < j < pv.len() implies (#[trigger] pv[i]).1 != (#[trigger] pv[j]).1 by {
        assert(pv[i].1 == param_disp(i));
        assert(pv[j].1 == param_disp(j));
    }
    lemma_block_slots(f.body, body_env(f, lc));
}


/// An expression whose code uses no label: it has no `&&` or `||`.
pub open spec fn expr_label_free(e: SExpr) -> bool
    decreases e,
{
    match e {
        SExpr::BinOp { op, left, right } => !is_logical(op) && expr_label_free(*left) && expr_label_free(
            *right,
        ),
        SExpr::UnaryOp { op, operand } => expr_label_free(*operand),
        SExpr::Assign { name, value } => expr_label_free(*value),
        SExpr::Call { name, args } => args_label_free(args),
        _ => true,
    }
}

pub open spec fn args_label_free(args: Seq<SExpr>) -> bool
    decreases args,
{
    if args.len() == 0 {
        true
    } else {
        args_label_free(args.drop_first()) && expr_label_free(args[0])
    }
}

/// A statement whose code uses no label: no `if`, `while` or `for`, and no
/// label-using expression.
pub open spec fn stmt_label_free(s: SStatement) -> bool {
    match s {
        SStatement::Decl { name } => true,
        SStatement::DeclInit { name, init } => expr_label_free(init),
        SStatement::Expr(e) => expr_label_free(e),
        SStatement::Return(value) => match value {
            Some(e) => expr_label_free(e),
            None => true,
        },
        _ => false,
    }
}

pub open spec fn block_label_free(ss: Seq<SStatement>) -> bool
    decreases ss,
{
    if ss.len() == 0 {
        true
    } else {
        block_label_free(ss.drop_last()) && stmt_label_free(ss.last())
    }
}

pub open spec fn functions_label_free(fs: Seq<SFunction>) -> bool
    decreases fs.len(),
{
    if fs.len() == 0 {
        true
    } else {
        functions_label_free(fs.drop_last()) && block_label_free(fs.last().body)
    }
}

/// A program whose code uses no label.
pub open spec fn program_label_free(p: SProgram) -> bool {
    functions_label_free(p.functions)
}

proof fn lemma_expr_label_free(e: SExpr, vars: Vars, l1: nat, l2: nat)
    requires
        expr_label_free(e),
    ensures
        expr_code(e, vars, l1).text == expr_code(e, vars, l2).text,
        expr_code(e, vars, l1).ok == expr_code(e, vars, l2).ok,
        expr_code(e, vars, l1).labels == l1,
    decreases e,
{
    match e {
        SExpr::BinOp { op, left, right } => {
            lemma_expr_label_free(*right, vars, l1, l2);
            lemma_expr_label_free(*left, vars, l1, l2);
            lemma_expr_label_free(*right, vars, l2, l1);
            lemma_expr_label_free(*left, vars, l2, l1);
        },
        SExpr::UnaryOp { op, operand } => lemma_expr_label_free(*operand, vars, l1, l2),
        SExpr::Assign { name, value } => lemma_expr_label_free(*value, vars, l1, l2),
        SExpr::Call { name, args } => lemma_args_label_free(args, vars, l1, l2),
        _ => {},
    }
}

proof fn lemma_args_label_free(args: Seq<SExpr>, vars: Vars, l1: nat, l2: nat)
    requires
        args_label_free(args),
    ensures
        args_code(args, vars, l1).text == args_code(args, vars, l2).text,
        args_code(args, vars, l1).ok == args_code(args, vars, l2).ok,
        args_code(args, vars, l1).labels == l1,
    decreases args,
{
    if args.len() > 0 {
        lemma_args_label_free(args.drop_first(), vars, l1, l2);
        lemma_args_label_free(args.drop_first(), vars, l2, l1);
        lemma_expr_label_free(args[0], vars, l1, l2);
    }
}

proof fn lemma_stmt_label_free(s: SStatement, env: Env, l2: nat)
    requires
        stmt_label_free(s),
    ensures
        stmt_code(s, env).text == stmt_code(s, with_labels(env, l2)).text,
        stmt_code(s, env).ok == stmt_code(s, with_labels(env, l2)).ok,
        stmt_code(s, env).env == with_labels(stmt_code(s, with_labels(env, l2)).env, env.labels),
        stmt_code(s, with_labels(env, l2)).env.labels == l2,
{
    match s {
        SStatement::DeclInit { name, init } => {
            let vars = env.vars.push((name, -env.offset));
            lemma_expr_label_free(init, vars, env.labels, l2);
            lemma_expr_label_free(init, vars, l2, env.labels);
        },
        SStatement::Expr(e) => {
            lemma_expr_label_free(e, env.vars, env.labels, l2);
            lemma_expr_label_free(e, env.vars, l2, env.labels);
        },
        SStatement::Return(value) => {
            if let Some(e) = value {
                lemma_expr_label_free(e, env.vars, env.labels, l2);
                lemma_expr_label_free(e, env.vars, l2, env.labels);
            }
        },
        _ => {},
    }
}

proof fn lemma_block_label_free(ss: Seq<SStatement>, env: Env, l2: nat)
    requires
        block_label_free(ss),
    ensures
        block_code(ss, env).text == block_code(ss, with_labels(env, l2)).text,
        block_code(ss, env).ok == block_code(ss, with_labels(env, l2)).ok,
        block_code(ss, env).env == with_labels(block_code(ss, with_labels(env, l2)).env, env.labels),
        block_code(ss, with_labels(env, l2)).env.labels == l2,
    decreases ss,
{
    if ss.len() > 0 {
        lemma_block_label_free(ss.drop_last(), env, l2);
        let b1 = block_code(ss.drop_last(), env);
        let b2 = block_code(ss.drop_last(), with_labels(env, l2));
        assert(b2.env == with_labels(b1.env, l2));
        lemma_stmt_label_free(ss.last(), b1.env, l2);
    }
}

proof fn lemma_functions_label_free(fs: Seq<SFunction>, l1: nat, l2: nat)
    requires
        functions_label_free(fs),
    ensures
        functions_code(fs, l1).text == functions_code(fs, l2).text,
        functions_code(fs, l1).ok == functions_code(fs, l2).ok,
        functions_code(fs, l1).labels == l1,
    decreases fs.len(),
{
    if fs.len() > 0 {
        lemma_functions_label_free(fs.drop_last(), l1, l2);
        lemma_functions_label_free(fs.drop_last(), l2, l1);
        let f = fs.last();
        assert(body_env(f, l2) == with_labels(body_env(f, l1), l2));
        lemma_block_label_free(f.body, body_env(f, l1), l2);
        lemma_block_label_free(f.body, body_env(f, l1), l1);
        assert(with_labels(body_env(f, l1), l1) == body_env(f, l1));
    }
}

/// A program with no `if`, `while`, `for`, `&&` or `||` uses no labels, so
/// its assembly does not depend on how many labels were numbered before: an
/// emitter that has compiled other programs gives the same text for it as a
/// new one, and numbers no label.
pub proof fn lemma_label_free_program(p: SProgram, lc: nat)
    requires
        program_label_free(p),
    ensures
        program_code(p, lc).text == program_code(p, 0).text,
        program_code(p, lc).ok == program_code(p, 0).ok,
        program_code(p, lc).labels == lc,
{
    lemma_functions_label_free(p.functions, lc, 0);
}

} // verus!
