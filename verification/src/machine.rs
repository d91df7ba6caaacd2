//! What the code for an expression does when it runs.
//!
//! The lines that `expr_code` emits for an expression are read here as
//! instructions (`expr_instrs`, rendered back to the same text by
//! `render_all`), and run on a model of the x86-64 registers, flags and
//! memory that they use (`run`), with any callee that keeps the System V
//! calling convention. `lemma_expr_code_computes` states that the code leaves
//! in `eax` the value that C gives the expression, and in the variables'
//! slots the values that its assignments give them.

use vstd::prelude::*;
use crate::ast::{BinOp, UnaryOp, SExpr};
use crate::text::dec_int;
use crate::parser::binop;
use crate::text::dec_nat;
use crate::codegen::{Vars, lookup, line, label, slot, expr_code, args_code, arg_reg, pops, min6, is_logical, skip_prefix, binop_code, lemma_expr_labels_grow, lemma_args_labels_grow, lemma_labels_distinct, lemma_label_prefix_no_dot};

verus! {

/// A condition code of `set..` and `j..`: equal, not equal, and the signed
/// orders.
pub enum Cond {
    E,
    Ne,
    L,
    Le,
    G,
    Ge,
}

/// The instructions that expression code is made of.
pub enum Instr {
    /// `mov eax, n`
    MovImm(int),
    /// `mov eax, [rbp+d]`
    Load(int),
    /// `mov [rbp+d], eax`
    Store(int),
    PushRax,
    PopRcx,
    /// `add eax, ecx`
    Add,
    /// `sub eax, ecx`
    Sub,
    /// `imul eax, ecx`
    Imul,
    Cdq,
    /// `idiv ecx`
    Idiv,
    /// `mov eax, edx`
    MovEdx,
    /// `neg eax`
    Neg,
    /// `cmp eax, ecx`
    CmpEcx,
    /// `cmp eax, 0`
    CmpZero,
    /// `set<cc> al`
    SetCc(Cond),
    /// `movzx eax, al`
    Movzx,
    /// `je label` (`E`) or `jne label` (`Ne`)
    Jump(Cond, Seq<char>),
    /// `label:`
    Label(Seq<char>),
    /// `pop r` for the register that carries argument `k` (`k < 6`)
    PopArg(int),
    /// `call name`, of a function that takes `n` arguments
    Call(Seq<char>, nat),
    /// `add rsp, n`
    AddRsp(nat),
    /// `jmp label`
    Jmp(Seq<char>),
    /// `sub rsp, n  # note`: reserves a local's slot
    Reserve(int, Seq<char>),
}

/// The line of text of an instruction.
pub open spec fn render(i: Instr) -> Seq<char> {
    match i {
        Instr::MovImm(n) => line("  mov eax, "@ + dec_int(n)),
        Instr::Load(d) => line("  mov eax, "@ + slot(d)),
        Instr::Store(d) => line("  mov "@ + slot(d) + ", eax"@),
        Instr::PushRax => line("  push rax"@),
        Instr::PopRcx => line("  pop rcx"@),
        Instr::Add => line("  add eax, ecx"@),
        Instr::Sub => line("  sub eax, ecx"@),
        Instr::Imul => line("  imul eax, ecx"@),
        Instr::Cdq => line("  cdq"@),
        Instr::Idiv => line("  idiv ecx"@),
        Instr::MovEdx => line("  mov eax, edx"@),
        Instr::Neg => line("  neg eax"@),
        Instr::CmpEcx => line("  cmp eax, ecx"@),
        Instr::CmpZero => line("  cmp eax, 0"@),
        Instr::SetCc(c) => match c {
            Cond::E => line("  sete al"@),
            Cond::Ne => line("  setne al"@),
            Cond::L => line("  setl al"@),
            Cond::Le => line("  setle al"@),
            Cond::G => line("  setg al"@),
            Cond::Ge => line("  setge al"@),
        },
        Instr::Movzx => line("  movzx eax, al"@),
        Instr::Jump(c, l) => match c {
            Cond::E => line("  je "@ + l),
            _ => line("  jne "@ + l),
        },
        Instr::Label(l) => line(l + ":"@),
        Instr::PopArg(k) => line("  pop "@ + arg_reg(k)),
        Instr::Call(name, n) => line("  call "@ + name),
        Instr::AddRsp(n) => line("  add rsp, "@ + dec_nat(n)),
        Instr::Jmp(l) => line("  jmp "@ + l),
        Instr::Reserve(n, note) => line("  sub rsp, "@ + dec_int(n) + "  # "@ + note),
    }
}

/// The text of a sequence of instructions, one line each.
pub open spec fn render_all(s: Seq<Instr>) -> Seq<char>
    decreases s.len(),
{
    if s.len() == 0 {
        Seq::empty()
    } else {
        render(s[0]) + render_all(s.drop_first())
    }
}

pub open spec fn truth_instrs() -> Seq<Instr> {
    seq![Instr::CmpZero, Instr::SetCc(Cond::Ne), Instr::Movzx]
}

pub open spec fn compare_instrs(c: Cond) -> Seq<Instr> {
    seq![Instr::CmpEcx, Instr::SetCc(c), Instr::Movzx]
}

/// The instructions of `binop_code`.
pub open spec fn binop_instrs(op: BinOp) -> Seq<Instr> {
    match op {
        BinOp::Add => seq![Instr::Add],
        BinOp::Sub => seq![Instr::Sub],
        BinOp::Mul => seq![Instr::Imul],
        BinOp::Div => seq![Instr::Cdq, Instr::Idiv],
        BinOp::Mod => seq![Instr::Cdq, Instr::Idiv, Instr::MovEdx],
        BinOp::Eq => compare_instrs(Cond::E),
        BinOp::Ne => compare_instrs(Cond::Ne),
        BinOp::Lt => compare_instrs(Cond::L),
        BinOp::Le => compare_instrs(Cond::Le),
        BinOp::Gt => compare_instrs(Cond::G),
        BinOp::Ge => compare_instrs(Cond::Ge),
        _ => Seq::empty(),
    }
}

/// The condition on which a logical operator skips its right operand.
pub open spec fn skip_cond(op: BinOp) -> Cond {
    if op is AndAnd {
        Cond::E
    } else {
        Cond::Ne
    }
}

/// The instructions of `expr_code` for an expression without calls.
pub open spec fn expr_instrs(e: SExpr, vars: Vars, lc: nat) -> Seq<Instr>
    decreases e,
{
    match e {
        SExpr::Number(n) => seq![Instr::MovImm(n as int)],
        SExpr::Ident(name) => match lookup(vars, name) {
            Some(d) => seq![Instr::Load(d)],
            None => Seq::empty(),
        },
        SExpr::BinOp { op, left, right } => if is_logical(op) {
            let skip = label(skip_prefix(op), lc + 1);
            let l = expr_instrs(*left, vars, lc + 1);
            let r = expr_instrs(*right, vars, expr_code(*left, vars, lc + 1).labels);
            l + truth_instrs() + seq![Instr::Jump(skip_cond(op), skip)] + r + truth_instrs() + seq![
                Instr::Label(skip),
            ]
        } else {
            let r = expr_instrs(*right, vars, lc);
            let l = expr_instrs(*left, vars, expr_code(*right, vars, lc).labels);
            r + seq![Instr::PushRax] + l + seq![Instr::PopRcx] + binop_instrs(op)
        },
        SExpr::UnaryOp { op, operand } => {
            let c = expr_instrs(*operand, vars, lc);
            match op {
                UnaryOp::Neg => c + seq![Instr::Neg],
                UnaryOp::Not => c + seq![Instr::CmpZero, Instr::SetCc(Cond::E), Instr::Movzx],
            }
        },
        SExpr::Assign { name, value } => {
            let c = expr_instrs(*value, vars, lc);
            match lookup(vars, name) {
                Some(d) => c + seq![Instr::Store(d)],
                None => c,
            }
        },
        SExpr::Call { name, args } => {
            let n = args.len();
            let cleanup = if n > 6 {
                seq![Instr::AddRsp(((n - 6) * 8) as nat)]
            } else {
                Seq::empty()
            };
            args_instrs(args, vars, lc) + pop_instrs(min6(n)) + seq![Instr::Call(name, n)] + cleanup
        },
    }
}

/// The instructions of `args_code`.
pub open spec fn args_instrs(args: Seq<SExpr>, vars: Vars, lc: nat) -> Seq<Instr>
    decreases args,
{
    if args.len() == 0 {
        Seq::empty()
    } else {
        args_instrs(args.drop_first(), vars, lc) + expr_instrs(
            args[0],
            vars,
            args_code(args.drop_first(), vars, lc).labels,
        ) + seq![Instr::PushRax]
    }
}

/// The instructions of `pops`.
pub open spec fn pop_instrs(k: nat) -> Seq<Instr>
    decreases k,
{
    if k == 0 {
        Seq::empty()
    } else {
        pop_instrs((k - 1) as nat) + seq![Instr::PopArg(k - 1)]
    }
}

pub proof fn lemma_render_all_add(a: Seq<Instr>, b: Seq<Instr>)
    ensures
        render_all(a + b) == render_all(a) + render_all(b),
    decreases a.len(),
{
    if a.len() == 0 {
        assert(a + b =~= b);
        assert(Seq::<char>::empty() + render_all(b) =~= render_all(b));
    } else {
        assert((a + b).drop_first() =~= a.drop_first() + b);
        lemma_render_all_add(a.drop_first(), b);
        assert(render(a[0]) + (render_all(a.drop_first()) + render_all(b)) =~= (render(a[0])
            + render_all(a.drop_first())) + render_all(b));
    }
}

pub proof fn lemma_render_one(i: Instr)
    ensures
        render_all(seq![i]) == render(i),
{
    let s = seq![i];
    assert(s.drop_first() =~= Seq::<Instr>::empty());
    assert(s[0] == i);
    assert(render_all(Seq::<Instr>::empty()) == Seq::<char>::empty());
    assert(render_all(s) == render(s[0]) + render_all(s.drop_first()));
    assert(render(i) + Seq::<char>::empty() =~= render(i));
}

proof fn lemma_render_three(a: Instr, b: Instr, c: Instr)
    ensures
        render_all(seq![a, b, c]) == render(a) + render(b) + render(c),
{
    assert(seq![a, b, c] =~= seq![a] + (seq![b] + seq![c]));
    lemma_render_all_add(seq![a], seq![b] + seq![c]);
    lemma_render_all_add(seq![b], seq![c]);
    lemma_render_one(a);
    lemma_render_one(b);
    lemma_render_one(c);
    assert(render(a) + (render(b) + render(c)) =~= render(a) + render(b) + render(c));
}

proof fn lemma_render_binop(op: BinOp)
    requires
        !is_logical(op),
    ensures
        render_all(binop_instrs(op)) == binop_code(op),
{
    match op {
        BinOp::Add => lemma_render_one(Instr::Add),
        BinOp::Sub => lemma_render_one(Instr::Sub),
        BinOp::Mul => lemma_render_one(Instr::Imul),
        BinOp::Div => {
            assert(seq![Instr::Cdq, Instr::Idiv] =~= seq![Instr::Cdq] + seq![Instr::Idiv]);
            lemma_render_all_add(seq![Instr::Cdq], seq![Instr::Idiv]);
            lemma_render_one(Instr::Cdq);
            lemma_render_one(Instr::Idiv);
        },
        BinOp::Mod => lemma_render_three(Instr::Cdq, Instr::Idiv, Instr::MovEdx),
        BinOp::Eq => lemma_render_three(Instr::CmpEcx, Instr::SetCc(Cond::E), Instr::Movzx),
        BinOp::Ne => lemma_render_three(Instr::CmpEcx, Instr::SetCc(Cond::Ne), Instr::Movzx),
        BinOp::Lt => lemma_render_three(Instr::CmpEcx, Instr::SetCc(Cond::L), Instr::Movzx),
        BinOp::Le => lemma_render_three(Instr::CmpEcx, Instr::SetCc(Cond::Le), Instr::Movzx),
        BinOp::Gt => lemma_render_three(Instr::CmpEcx, Instr::SetCc(Cond::G), Instr::Movzx),
        BinOp::Ge => lemma_render_three(Instr::CmpEcx, Instr::SetCc(Cond::Ge), Instr::Movzx),
        _ => {},
    }
}

/// Read as instructions, the code for an expression renders to exactly the
/// text that `expr_code` gives.
pub proof fn lemma_render_expr(e: SExpr, vars: Vars, lc: nat)
    ensures
        render_all(expr_instrs(e, vars, lc)) == expr_code(e, vars, lc).text,
    decreases e,
{
    match e {
        SExpr::Number(n) => lemma_render_one(Instr::MovImm(n as int)),
        SExpr::Ident(name) => {
            if let Some(d) = lookup(vars, name) {
                lemma_render_one(Instr::Load(d));
            }
        },
        SExpr::BinOp { op, left, right } => {
            if is_logical(op) {
                let skip = label(skip_prefix(op), lc + 1);
                let ll = lc + 1;
                let rl = expr_code(*left, vars, lc + 1).labels;
                lemma_render_expr(*left, vars, ll);
                lemma_render_expr(*right, vars, rl);
                let l = expr_instrs(*left, vars, ll);
                let r = expr_instrs(*right, vars, rl);
                let j = seq![Instr::Jump(skip_cond(op), skip)];
                let t = truth_instrs();
                let z = seq![Instr::Label(skip)];
                lemma_render_three(Instr::CmpZero, Instr::SetCc(Cond::Ne), Instr::Movzx);
                lemma_render_one(Instr::Jump(skip_cond(op), skip));
                lemma_render_one(Instr::Label(skip));
                lemma_render_all_add(l, t);
                lemma_render_all_add(l + t, j);
                lemma_render_all_add(l + t + j, r);
                lemma_render_all_add(l + t + j + r, t);
                lemma_render_all_add(l + t + j + r + t, z);
                assert(render(Instr::Jump(skip_cond(op), skip)) == line(crate::codegen::skip_jump(op) + skip));
            } else {
                let rl = lc;
                let ll = expr_code(*right, vars, lc).labels;
                lemma_render_expr(*right, vars, rl);
                lemma_render_expr(*left, vars, ll);
                let r = expr_instrs(*right, vars, rl);
                let l = expr_instrs(*left, vars, ll);
                let p = seq![Instr::PushRax];
                let q = seq![Instr::PopRcx];
                lemma_render_one(Instr::PushRax);
                lemma_render_one(Instr::PopRcx);
                lemma_render_binop(op);
                lemma_render_all_add(r, p);
                lemma_render_all_add(r + p, l);
                lemma_render_all_add(r + p + l, q);
                lemma_render_all_add(r + p + l + q, binop_instrs(op));
            }
        },
        SExpr::UnaryOp { op, operand } => {
            lemma_render_expr(*operand, vars, lc);
            let c = expr_instrs(*operand, vars, lc);
            match op {
                UnaryOp::Neg => {
                    lemma_render_one(Instr::Neg);
                    lemma_render_all_add(c, seq![Instr::Neg]);
                },
                UnaryOp::Not => {
                    lemma_render_three(Instr::CmpZero, Instr::SetCc(Cond::E), Instr::Movzx);
                    lemma_render_all_add(c, seq![Instr::CmpZero, Instr::SetCc(Cond::E), Instr::Movzx]);
                },
            }
        },
        SExpr::Assign { name, value } => {
            lemma_render_expr(*value, vars, lc);
            if let Some(d) = lookup(vars, name) {
                lemma_render_one(Instr::Store(d));
                lemma_render_all_add(expr_instrs(*value, vars, lc), seq![Instr::Store(d)]);
            }
        },
        SExpr::Call { name, args } => {
            let n = args.len();
            let a = args_instrs(args, vars, lc);
            let p = pop_instrs(min6(n));
            let c = seq![Instr::Call(name, n)];
            let cleanup = if n > 6 {
                seq![Instr::AddRsp(((n - 6) * 8) as nat)]
            } else {
                Seq::empty()
            };
            lemma_render_args(args, vars, lc);
            lemma_render_pops(min6(n));
            lemma_render_one(Instr::Call(name, n));
            if n > 6 {
                lemma_render_one(Instr::AddRsp(((n - 6) * 8) as nat));
            } else {
                assert(render_all(Seq::<Instr>::empty()) == Seq::<char>::empty());
            }
            lemma_render_all_add(a, p);
            lemma_render_all_add(a + p, c);
            lemma_render_all_add(a + p + c, cleanup);
        },
    }
}

proof fn lemma_render_args(args: Seq<SExpr>, vars: Vars, lc: nat)
    ensures
        render_all(args_instrs(args, vars, lc)) == args_code(args, vars, lc).text,
    decreases args,
{
    if args.len() == 0 {
        assert(render_all(Seq::<Instr>::empty()) == Seq::<char>::empty());
    } else {
        let base = args_code(args.drop_first(), vars, lc).labels;
        lemma_render_args(args.drop_first(), vars, lc);
        lemma_render_expr(args[0], vars, base);
        lemma_render_one(Instr::PushRax);
        let a = args_instrs(args.drop_first(), vars, lc);
        let b = expr_instrs(args[0], vars, base);
        lemma_render_all_add(a, b);
        lemma_render_all_add(a + b, seq![Instr::PushRax]);
    }
}

proof fn lemma_render_pops(k: nat)
    ensures
        render_all(pop_instrs(k)) == pops(k),
    decreases k,
{
    if k == 0 {
        assert(render_all(Seq::<Instr>::empty()) == Seq::<char>::empty());
    } else {
        lemma_render_pops((k - 1) as nat);
        lemma_render_one(Instr::PopArg(k - 1));
        lemma_render_all_add(pop_instrs((k - 1) as nat), seq![Instr::PopArg(k - 1)]);
    }
}


/// The registers, flags and memory that expression code uses. Registers and
/// memory hold 32-bit values as integers; memory keeps one value per address
/// (the low half of the 8 bytes that a push writes there), so it does not
/// show how writes less than 8 bytes apart would overlap: the slots and
/// pushes of the emitted code lie 8 bytes apart. `al` is the byte that
/// `set<cc>` writes and `movzx` reads, kept apart from `eax` (the code reads
/// `eax` only after a `movzx`); `compared` is the pair last compared. The
/// argument registers are `rdi`, `rsi`, `rdx`, `rcx`, `r8`, `r9`, whose low
/// halves are `edi`, `esi`, `edx`, `ecx`, `r8d`, `r9d`.
pub struct Machine {
    pub eax: int,
    pub ecx: int,
    pub edx: int,
    pub edi: int,
    pub esi: int,
    pub r8d: int,
    pub r9d: int,
    pub al: bool,
    pub compared: (int, int),
    pub rsp: int,
    pub rbp: int,
    pub mem: spec_fn(int) -> int,
    /// A division trapped (by zero, or with a quotient out of range).
    pub fault: bool,
}

/// The value in the register that carries argument `k`.
pub open spec fn arg_value(m: Machine, k: int) -> int {
    if k == 0 {
        m.edi
    } else if k == 1 {
        m.esi
    } else if k == 2 {
        m.edx
    } else if k == 3 {
        m.ecx
    } else if k == 4 {
        m.r8d
    } else {
        m.r9d
    }
}

/// `m` with `v` in the register that carries argument `k`.
pub open spec fn set_arg(m: Machine, k: int, v: int) -> Machine {
    if k == 0 {
        Machine { edi: v, ..m }
    } else if k == 1 {
        Machine { esi: v, ..m }
    } else if k == 2 {
        Machine { edx: v, ..m }
    } else if k == 3 {
        Machine { ecx: v, ..m }
    } else if k == 4 {
        Machine { r8d: v, ..m }
    } else {
        Machine { r9d: v, ..m }
    }
}

/// The `n` arguments that a callee finds at its `call`: the first six in
/// registers, the rest on the stack from the stack pointer up.
pub open spec fn call_args(m: Machine, n: nat) -> Seq<int> {
    Seq::new(n, |i: int| if i < 6 { arg_value(m, i) } else { (m.mem)(m.rsp + 8 * (i - 6)) })
}

/// What a call does: the state after the callee returns, given the function's
/// name, its arguments and the state at the `call`.
pub type Callee = spec_fn(Seq<char>, Seq<int>, Machine) -> Machine;

/// The values that functions return, by name and arguments.
pub type Ret = spec_fn(Seq<char>, Seq<int>) -> int;

/// `callee` keeps the System V calling convention and returns what `ret`
/// says: a 32-bit value in `eax`, the stack and frame pointers as they were,
/// no trap, and all memory at or above the stack pointer as it was (its own
/// frame lies below). Other registers it may change.
pub open spec fn follows_abi(callee: Callee, ret: Ret) -> bool {
    forall|name: Seq<char>, args: Seq<int>, m: Machine|
        #![trigger callee(name, args, m)]
        {
            let m2 = callee(name, args, m);
            &&& m2.eax == ret(name, args)
            &&& in_i32(m2.eax)
            &&& m2.rsp == m.rsp
            &&& m2.rbp == m.rbp
            &&& m2.fault == m.fault
            &&& forall|a: int| a >= m.rsp ==> #[trigger] (m2.mem)(a) == (m.mem)(a)
        }
}

/// The 32-bit two's complement value of `x`.
pub open spec fn wrap32(x: int) -> int {
    (x + 0x8000_0000) % 0x1_0000_0000 - 0x8000_0000
}

pub open spec fn in_i32(x: int) -> bool {
    i32::MIN <= x <= i32::MAX
}

/// Division rounding toward zero, as `idiv` and C's `/` do.
pub open spec fn trunc_div(a: int, b: int) -> int {
    let q = (if a < 0 { -a } else { a }) / (if b < 0 { -b } else { b });
    if (a < 0) != (b < 0) {
        -q
    } else {
        q
    }
}

/// The remainder that goes with `trunc_div`, as `idiv` and C's `%` give it.
pub open spec fn trunc_rem(a: int, b: int) -> int {
    a - b * trunc_div(a, b)
}

pub open spec fn holds(c: Cond, p: (int, int)) -> bool {
    match c {
        Cond::E => p.0 == p.1,
        Cond::Ne => p.0 != p.1,
        Cond::L => p.0 < p.1,
        Cond::Le => p.0 <= p.1,
        Cond::G => p.0 > p.1,
        Cond::Ge => p.0 >= p.1,
    }
}

pub open spec fn upd(f: spec_fn(int) -> int, a: int, v: int) -> spec_fn(int) -> int {
    |x: int| if x == a { v } else { f(x) }
}

/// What one instruction other than a jump does.
pub open spec fn step(i: Instr, m: Machine, callee: Callee) -> Machine {
    match i {
        Instr::MovImm(n) => Machine { eax: n, ..m },
        Instr::Load(d) => Machine { eax: (m.mem)(m.rbp + d), ..m },
        Instr::Store(d) => Machine { mem: upd(m.mem, m.rbp + d, m.eax), ..m },
        Instr::PushRax => Machine { rsp: m.rsp - 8, mem: upd(m.mem, m.rsp - 8, m.eax), ..m },
        Instr::PopRcx => Machine { ecx: (m.mem)(m.rsp), rsp: m.rsp + 8, ..m },
        Instr::Add => Machine { eax: wrap32(m.eax + m.ecx), ..m },
        Instr::Sub => Machine { eax: wrap32(m.eax - m.ecx), ..m },
        Instr::Imul => Machine { eax: wrap32(m.eax * m.ecx), ..m },
        Instr::Cdq => Machine { edx: if m.eax < 0 { -1 } else { 0 }, ..m },
        Instr::Idiv => {
            // edx:eax divided by ecx
            let n = m.edx * 0x1_0000_0000 + if m.eax < 0 { m.eax + 0x1_0000_0000 } else { m.eax };
            if m.ecx == 0 || !in_i32(trunc_div(n, m.ecx)) {
                Machine { fault: true, ..m }
            } else {
                Machine { eax: trunc_div(n, m.ecx), edx: trunc_rem(n, m.ecx), ..m }
            }
        },
        Instr::MovEdx => Machine { eax: m.edx, ..m },
        Instr::Neg => Machine { eax: wrap32(-m.eax), ..m },
        Instr::CmpEcx => Machine { compared: (m.eax, m.ecx), ..m },
        Instr::CmpZero => Machine { compared: (m.eax, 0), ..m },
        Instr::SetCc(c) => Machine { al: holds(c, m.compared), ..m },
        Instr::Movzx => Machine { eax: if m.al { 1 } else { 0 }, ..m },
        Instr::PopArg(k) => set_arg(Machine { rsp: m.rsp + 8, ..m }, k, (m.mem)(m.rsp)),
        Instr::Call(name, n) => callee(name, call_args(m, n), m),
        Instr::AddRsp(n) => Machine { rsp: m.rsp + n, ..m },
        Instr::Reserve(n, note) => Machine { rsp: m.rsp - n, ..m },
        _ => m,
    }
}

/// The instructions after the first `l:` in `s`; none if there is none.
pub open spec fn after_label(s: Seq<Instr>, l: Seq<char>) -> Seq<Instr>
    decreases s.len(),
{
    if s.len() == 0 {
        s
    } else if s[0] == Instr::Label(l) {
        s.drop_first()
    } else {
        after_label(s.drop_first(), l)
    }
}

pub proof fn lemma_after_label_len(s: Seq<Instr>, l: Seq<char>)
    ensures
        after_label(s, l).len() <= s.len(),
    decreases s.len(),
{
    if s.len() > 0 && s[0] != Instr::Label(l) {
        lemma_after_label_len(s.drop_first(), l);
    }
}

/// Runs instructions from the first, with calls done by `callee`: a jump
/// whose condition holds goes on after its label, further on in the code.
pub open spec fn run(s: Seq<Instr>, m: Machine, callee: Callee) -> Machine
    decreases s.len(),
{
    if s.len() == 0 {
        m
    } else {
        match s[0] {
            Instr::Jump(c, l) => if holds(c, m.compared) {
                proof {
                    lemma_after_label_len(s.drop_first(), l);
                }
                run(after_label(s.drop_first(), l), m, callee)
            } else {
                run(s.drop_first(), m, callee)
            },
            Instr::Jmp(l) => {
                proof {
                    lemma_after_label_len(s.drop_first(), l);
                }
                run(after_label(s.drop_first(), l), m, callee)
            },
            i => run(s.drop_first(), step(i, m, callee), callee),
        }
    }
}

/// The value of an arithmetic or comparison operator on 32-bit operands:
/// `+`, `-` and `*` wrap to 32 bits in two's complement (as the code's
/// instructions do, where C leaves overflow undefined), `/` and `%` truncate
/// toward zero and are defined unless the divisor is 0 or the quotient does
/// not fit (`i32::MIN / -1`), comparisons give 0 or 1.
pub open spec fn arith(op: BinOp, a: int, b: int) -> Option<int> {
    let r: Option<int> = match op {
        BinOp::Add => Some(wrap32(a + b)),
        BinOp::Sub => Some(wrap32(a - b)),
        BinOp::Mul => Some(wrap32(a * b)),
        BinOp::Div => if b != 0 && in_i32(trunc_div(a, b)) { Some(trunc_div(a, b)) } else { None },
        BinOp::Mod => if b != 0 && in_i32(trunc_div(a, b)) { Some(trunc_rem(a, b)) } else { None },
        BinOp::Eq => Some(if a == b { 1int } else { 0 }),
        BinOp::Ne => Some(if a != b { 1int } else { 0 }),
        BinOp::Lt => Some(if a < b { 1int } else { 0 }),
        BinOp::Le => Some(if a <= b { 1int } else { 0 }),
        BinOp::Gt => Some(if a > b { 1int } else { 0 }),
        BinOp::Ge => Some(if a >= b { 1int } else { 0 }),
        _ => None,
    };
    match r {
        Some(x) => if in_i32(x) { Some(x) } else { None },
        None => None,
    }
}

/// What C gives an expression: its value and the variables' values after it,
/// with the variables' values kept by the displacement of their slots. The
/// operands of an arithmetic or comparison operator are evaluated right
/// first (C leaves the order open); `&&` and `||` evaluate their right
/// operand only when the left one does not decide, and give 0 or 1; unary
/// `-` wraps like `+`. `None` where a division is undefined (see `arith`)
/// and where a variable is not declared. A call gives what `ret` says of the
/// function and its arguments' values.
pub open spec fn eval(e: SExpr, vars: Vars, vals: spec_fn(int) -> int, ret: Ret) -> Option<(int, spec_fn(int) -> int)>
    decreases e,
{
    match e {
        SExpr::Number(n) => Some((n as int, vals)),
        SExpr::Ident(name) => match lookup(vars, name) {
            Some(d) => Some((vals(d), vals)),
            None => None,
        },
        SExpr::BinOp { op, left, right } => if is_logical(op) {
            match eval(*left, vars, vals, ret) {
                Some((lv, v1)) => if (op is AndAnd && lv == 0) || (op is OrOr && lv != 0) {
                    Some((if lv != 0 { 1int } else { 0 }, v1))
                } else {
                    match eval(*right, vars, v1, ret) {
                        Some((rv, v2)) => Some((if rv != 0 { 1int } else { 0 }, v2)),
                        None => None,
                    }
                },
                None => None,
            }
        } else {
            match eval(*right, vars, vals, ret) {
                Some((rv, v1)) => match eval(*left, vars, v1, ret) {
                    Some((lv, v2)) => match arith(op, lv, rv) {
                        Some(x) => Some((x, v2)),
                        None => None,
                    },
                    None => None,
                },
                None => None,
            }
        },
        SExpr::UnaryOp { op, operand } => match eval(*operand, vars, vals, ret) {
            Some((v, v1)) => match op {
                UnaryOp::Neg => Some((wrap32(-v), v1)),
                UnaryOp::Not => Some((if v == 0 { 1int } else { 0 }, v1)),
            },
            None => None,
        },
        SExpr::Assign { name, value } => match eval(*value, vars, vals, ret) {
            Some((v, v1)) => match lookup(vars, name) {
                Some(d) => Some((v, upd(v1, d, v))),
                None => None,
            },
            None => None,
        },
        SExpr::Call { name, args } => match eval_args(args, vars, vals, ret) {
            Some((vs, v1)) => Some((ret(name, vs), v1)),
            None => None,
        },
    }
}

/// The values of call arguments, evaluated last first as the code does (C
/// leaves the order open), and the variables' values after them.
pub open spec fn eval_args(args: Seq<SExpr>, vars: Vars, vals: spec_fn(int) -> int, ret: Ret) -> Option<
    (Seq<int>, spec_fn(int) -> int),
>
    decreases args,
{
    if args.len() == 0 {
        Some((Seq::empty(), vals))
    } else {
        match eval_args(args.drop_first(), vars, vals, ret) {
            Some((vs, v1)) => match eval(args[0], vars, v1, ret) {
                Some((v, v2)) => Some((seq![v] + vs, v2)),
                None => None,
            },
            None => None,
        }
    }
}

/// The variables' slots hold `vals`, 32-bit values, and lie at or above the
/// stack pointer.
pub open spec fn slots_hold(vars: Vars, m: Machine, vals: spec_fn(int) -> int) -> bool {
    forall|k: int|
        0 <= k < vars.len() ==> (m.mem)(m.rbp + (#[trigger] vars[k]).1) == vals(vars[k].1) && m.rbp + vars[k].1
            >= m.rsp && in_i32(vals(vars[k].1))
}

/// `d` is the displacement of a variable's slot.
pub open spec fn is_slot(vars: Vars, d: int) -> bool {
    exists|k: int| 0 <= k < vars.len() && (#[trigger] vars[k]).1 == d
}

/// `m2` is the state after code that gives the value `v` and leaves the
/// variables with `vals`, run from `m`: `v` in `eax`, the stack and frame
/// pointers where they were, no trap, the slots holding `vals`, and memory at
/// or above the stack pointer that is no variable's slot as it was.
pub open spec fn gives(vars: Vars, m: Machine, m2: Machine, v: int, vals: spec_fn(int) -> int) -> bool {
    &&& m2.eax == v
    &&& m2.rsp == m.rsp
    &&& m2.rbp == m.rbp
    &&& !m2.fault
    &&& slots_hold(vars, m2, vals)
    &&& forall|a: int| a >= m.rsp && !is_slot(vars, a - m.rbp) ==> #[trigger] (m2.mem)(a) == (m.mem)(a)
}


proof fn lemma_lookup_index(vars: Vars, name: Seq<char>) -> (k: int)
    requires
        lookup(vars, name) is Some,
    ensures
        0 <= k < vars.len(),
        vars[k].1 == lookup(vars, name)->Some_0,
    decreases vars.len(),
{
    if vars.last().0 == name {
        vars.len() - 1
    } else {
        let k = lemma_lookup_index(vars.drop_last(), name);
        assert(vars.drop_last()[k] == vars[k]);
        k
    }
}

proof fn lemma_wrap32_range(x: int)
    ensures
        in_i32(wrap32(x)),
{
    vstd::arithmetic::div_mod::lemma_mod_bound(x + 0x8000_0000, 0x1_0000_0000);
}

proof fn lemma_run_step(i: Instr, rest: Seq<Instr>, m: Machine, callee: Callee)
    requires
        !(i is Jump),
        !(i is Jmp),
    ensures
        run(seq![i] + rest, m, callee) == run(rest, step(i, m, callee), callee),
{
    let s = seq![i] + rest;
    assert(s[0] == i);
    assert(s.drop_first() =~= rest);
}

proof fn lemma_run_three(a: Instr, b: Instr, c: Instr, rest: Seq<Instr>, m: Machine, callee: Callee)
    requires
        !(a is Jump),
        !(b is Jump),
        !(c is Jump),
        !(a is Jmp),
        !(b is Jmp),
        !(c is Jmp),
    ensures
        run(seq![a, b, c] + rest, m, callee) == run(rest, step(c, step(b, step(a, m, callee), callee), callee), callee),
{
    assert(seq![a, b, c] + rest =~= seq![a] + (seq![b] + (seq![c] + rest)));
    lemma_run_step(a, seq![b] + (seq![c] + rest), m, callee);
    lemma_run_step(b, seq![c] + rest, step(a, m, callee), callee);
    lemma_run_step(c, rest, step(b, step(a, m, callee), callee), callee);
}

/// The code of an arithmetic or comparison operator, run with the left
/// operand in `eax` and the right one in `ecx`, leaves C's value in `eax`.
proof fn lemma_binop_runs(op: BinOp, rest: Seq<Instr>, m: Machine, callee: Callee) -> (m2: Machine)
    requires
        !is_logical(op),
        arith(op, m.eax, m.ecx) is Some,
        in_i32(m.eax),
        !m.fault,
    ensures
        run(binop_instrs(op) + rest, m, callee) == run(rest, m2, callee),
        m2.eax == arith(op, m.eax, m.ecx)->Some_0,
        m2.rsp == m.rsp,
        m2.rbp == m.rbp,
        m2.mem == m.mem,
        !m2.fault,
{
    let a = m.eax;
    let b = m.ecx;
    match op {
        BinOp::Add => {
            lemma_run_step(Instr::Add, rest, m, callee);
            step(Instr::Add, m, callee)
        },
        BinOp::Sub => {
            lemma_run_step(Instr::Sub, rest, m, callee);
            step(Instr::Sub, m, callee)
        },
        BinOp::Mul => {
            lemma_run_step(Instr::Imul, rest, m, callee);
            step(Instr::Imul, m, callee)
        },
        BinOp::Div => {
            assert(seq![Instr::Cdq, Instr::Idiv] + rest =~= seq![Instr::Cdq] + (seq![Instr::Idiv] + rest));
            lemma_run_step(Instr::Cdq, seq![Instr::Idiv] + rest, m, callee);
            let m1 = step(Instr::Cdq, m, callee);
            lemma_run_step(Instr::Idiv, rest, m1, callee);
            step(Instr::Idiv, m1, callee)
        },
        BinOp::Mod => {
            lemma_run_three(Instr::Cdq, Instr::Idiv, Instr::MovEdx, rest, m, callee);
            step(Instr::MovEdx, step(Instr::Idiv, step(Instr::Cdq, m, callee), callee), callee)
        },
        BinOp::Eq => {
            lemma_run_three(Instr::CmpEcx, Instr::SetCc(Cond::E), Instr::Movzx, rest, m, callee);
            step(Instr::Movzx, step(Instr::SetCc(Cond::E), step(Instr::CmpEcx, m, callee), callee), callee)
        },
        BinOp::Ne => {
            lemma_run_three(Instr::CmpEcx, Instr::SetCc(Cond::Ne), Instr::Movzx, rest, m, callee);
            step(Instr::Movzx, step(Instr::SetCc(Cond::Ne), step(Instr::CmpEcx, m, callee), callee), callee)
        },
        BinOp::Lt => {
            lemma_run_three(Instr::CmpEcx, Instr::SetCc(Cond::L), Instr::Movzx, rest, m, callee);
            step(Instr::Movzx, step(Instr::SetCc(Cond::L), step(Instr::CmpEcx, m, callee), callee), callee)
        },
        BinOp::Le => {
            lemma_run_three(Instr::CmpEcx, Instr::SetCc(Cond::Le), Instr::Movzx, rest, m, callee);
            step(Instr::Movzx, step(Instr::SetCc(Cond::Le), step(Instr::CmpEcx, m, callee), callee), callee)
        },
        BinOp::Gt => {
            lemma_run_three(Instr::CmpEcx, Instr::SetCc(Cond::G), Instr::Movzx, rest, m, callee);
            step(Instr::Movzx, step(Instr::SetCc(Cond::G), step(Instr::CmpEcx, m, callee), callee), callee)
        },
        _ => {
            lemma_run_three(Instr::CmpEcx, Instr::SetCc(Cond::Ge), Instr::Movzx, rest, m, callee);
            step(Instr::Movzx, step(Instr::SetCc(Cond::Ge), step(Instr::CmpEcx, m, callee), callee), callee)
        },
    }
}


/// No instruction of `s` is the label `x`.
pub open spec fn no_label(s: Seq<Instr>, x: Seq<char>) -> bool {
    forall|k: int| 0 <= k < s.len() ==> s[k] != Instr::Label(x)
}

proof fn lemma_no_label_add(a: Seq<Instr>, b: Seq<Instr>, x: Seq<char>)
    requires
        no_label(a, x),
        no_label(b, x),
    ensures
        no_label(a + b, x),
{
    assert forall|k: int| 0 <= k < (a + b).len() implies (a + b)[k] != Instr::Label(x) by {
        if k < a.len() {
            assert((a + b)[k] == a[k]);
        } else {
            assert((a + b)[k] == b[k - a.len()]);
        }
    }
}

/// A jump to `l` from before `s` goes on after the `l:` that follows `s`.
proof fn lemma_after_label_skip(s: Seq<Instr>, l: Seq<char>, rest: Seq<Instr>)
    requires
        no_label(s, l),
    ensures
        after_label(s + seq![Instr::Label(l)] + rest, l) == rest,
    decreases s.len(),
{
    let t = s + seq![Instr::Label(l)] + rest;
    if s.len() == 0 {
        assert(t[0] == Instr::Label(l));
        assert(t.drop_first() =~= rest);
    } else {
        assert(t[0] == s[0]);
        assert(t.drop_first() =~= s.drop_first() + seq![Instr::Label(l)] + rest);
        assert(no_label(s.drop_first(), l)) by {
            assert forall|k: int| 0 <= k < s.drop_first().len() implies s.drop_first()[k] != Instr::Label(l) by {
                assert(s.drop_first()[k] == s[k + 1]);
            }
        }
        lemma_after_label_skip(s.drop_first(), l, rest);
    }
}

/// The code for an expression with labels numbered after `base` holds no
/// label numbered `n <= base`.
proof fn lemma_expr_no_label(e: SExpr, vars: Vars, base: nat, p: Seq<char>, n: nat)
    requires
        n <= base,
        !p.contains('.'),
    ensures
        no_label(expr_instrs(e, vars, base), label(p, n)),
    decreases e,
{
    let x = label(p, n);
    match e {
        SExpr::BinOp { op, left, right } => {
            if is_logical(op) {
                let skip = label(skip_prefix(op), base + 1);
                lemma_label_prefix_no_dot(skip_prefix(op));
                lemma_labels_distinct(skip_prefix(op), base + 1, p, n);
                let rl = expr_code(*left, vars, base + 1).labels;
                lemma_expr_labels_grow(*left, vars, base + 1);
                lemma_expr_no_label(*left, vars, base + 1, p, n);
                lemma_expr_no_label(*right, vars, rl, p, n);
                let l = expr_instrs(*left, vars, base + 1);
                let r = expr_instrs(*right, vars, rl);
                let t = truth_instrs();
                let j = seq![Instr::Jump(skip_cond(op), skip)];
                let z = seq![Instr::Label(skip)];
                lemma_no_label_add(l, t, x);
                lemma_no_label_add(l + t, j, x);
                lemma_no_label_add(l + t + j, r, x);
                lemma_no_label_add(l + t + j + r, t, x);
                lemma_no_label_add(l + t + j + r + t, z, x);
            } else {
                let ll = expr_code(*right, vars, base).labels;
                lemma_expr_labels_grow(*right, vars, base);
                lemma_expr_no_label(*right, vars, base, p, n);
                lemma_expr_no_label(*left, vars, ll, p, n);
                let r = expr_instrs(*right, vars, base);
                let l = expr_instrs(*left, vars, ll);
                let a = seq![Instr::PushRax];
                let b = seq![Instr::PopRcx];
                lemma_no_label_add(r, a, x);
                lemma_no_label_add(r + a, l, x);
                lemma_no_label_add(r + a + l, b, x);
                lemma_no_label_add(r + a + l + b, binop_instrs(op), x);
            }
        },
        SExpr::UnaryOp { op, operand } => {
            lemma_expr_no_label(*operand, vars, base, p, n);
            let c = expr_instrs(*operand, vars, base);
            lemma_no_label_add(c, seq![Instr::Neg], x);
            lemma_no_label_add(c, seq![Instr::CmpZero, Instr::SetCc(Cond::E), Instr::Movzx], x);
        },
        SExpr::Assign { name, value } => {
            lemma_expr_no_label(*value, vars, base, p, n);
            if let Some(d) = lookup(vars, name) {
                lemma_no_label_add(expr_instrs(*value, vars, base), seq![Instr::Store(d)], x);
            }
        },
        SExpr::Call { name, args } => {
            let k = min6(args.len());
            lemma_args_no_label(args, vars, base, p, n);
            lemma_pops_no_label(k, x);
            let a = args_instrs(args, vars, base);
            let c = seq![Instr::Call(name, args.len())];
            lemma_no_label_add(a, pop_instrs(k), x);
            lemma_no_label_add(a + pop_instrs(k), c, x);
            if args.len() > 6 {
                lemma_no_label_add(a + pop_instrs(k) + c, seq![Instr::AddRsp(((args.len() - 6) * 8) as nat)], x);
            } else {
                lemma_no_label_add(a + pop_instrs(k) + c, Seq::<Instr>::empty(), x);
            }
        },
        _ => {},
    }
}

proof fn lemma_args_no_label(args: Seq<SExpr>, vars: Vars, base: nat, p: Seq<char>, n: nat)
    requires
        n <= base,
        !p.contains('.'),
    ensures
        no_label(args_instrs(args, vars, base), label(p, n)),
    decreases args,
{
    if args.len() > 0 {
        let x = label(p, n);
        let b = args_code(args.drop_first(), vars, base).labels;
        lemma_args_labels_grow(args.drop_first(), vars, base);
        lemma_args_no_label(args.drop_first(), vars, base, p, n);
        lemma_expr_no_label(args[0], vars, b, p, n);
        let a = args_instrs(args.drop_first(), vars, base);
        let e = expr_instrs(args[0], vars, b);
        lemma_no_label_add(a, e, x);
        lemma_no_label_add(a + e, seq![Instr::PushRax], x);
    }
}

proof fn lemma_pops_no_label(k: nat, x: Seq<char>)
    ensures
        no_label(pop_instrs(k), x),
    decreases k,
{
    if k > 0 {
        lemma_pops_no_label((k - 1) as nat, x);
        lemma_no_label_add(pop_instrs((k - 1) as nat), seq![Instr::PopArg(k - 1)], x);
    }
}

/// Running the code for an expression: see `lemma_expr_code_computes`; the
/// state after it is returned.
proof fn lemma_expr_runs(
    e: SExpr,
    vars: Vars,
    lc: nat,
    m: Machine,
    vals: spec_fn(int) -> int,
    rest: Seq<Instr>,
    callee: Callee,
    ret: Ret,
) -> (m2: Machine)
    requires
        follows_abi(callee, ret),
        eval(e, vars, vals, ret) is Some,
        slots_hold(vars, m, vals),
        !m.fault,
    ensures
        run(expr_instrs(e, vars, lc) + rest, m, callee) == run(rest, m2, callee),
        gives(vars, m, m2, eval(e, vars, vals, ret)->Some_0.0, eval(e, vars, vals, ret)->Some_0.1),
        in_i32(eval(e, vars, vals, ret)->Some_0.0),
    decreases e,
{
    match e {
        SExpr::Number(n) => {
            lemma_run_step(Instr::MovImm(n as int), rest, m, callee);
            step(Instr::MovImm(n as int), m, callee)
        },
        SExpr::Ident(name) => {
            let d = lookup(vars, name)->Some_0;
            let k = lemma_lookup_index(vars, name);
            assert(vars[k].1 == d);
            lemma_run_step(Instr::Load(d), rest, m, callee);
            step(Instr::Load(d), m, callee)
        },
        SExpr::Assign { name, value } => {
            let d = lookup(vars, name)->Some_0;
            let k = lemma_lookup_index(vars, name);
            assert(vars[k].1 == d);
            let (v, v1) = eval(*value, vars, vals, ret)->Some_0;
            let c = expr_instrs(*value, vars, lc);
            assert((c + seq![Instr::Store(d)]) + rest =~= c + (seq![Instr::Store(d)] + rest));
            let m1 = lemma_expr_runs(*value, vars, lc, m, vals, seq![Instr::Store(d)] + rest, callee, ret);
            lemma_run_step(Instr::Store(d), rest, m1, callee);
            let m2 = step(Instr::Store(d), m1, callee);
            let w = upd(v1, d, v);
            assert forall|j: int| 0 <= j < vars.len() implies (m2.mem)(m2.rbp + (#[trigger] vars[j]).1) == w(
                vars[j].1,
            ) && m2.rbp + vars[j].1 >= m2.rsp && in_i32(w(vars[j].1)) by {
                assert(slots_hold(vars, m1, v1));
            }
            assert forall|a: int| a >= m.rsp && !is_slot(vars, a - m.rbp) implies #[trigger] (m2.mem)(a) == (
            m.mem)(a) by {
                if a == m.rbp + d {
                    assert(is_slot(vars, a - m.rbp));
                }
            }
            m2
        },
        SExpr::UnaryOp { op, operand } => {
            let (v, v1) = eval(*operand, vars, vals, ret)->Some_0;
            let c = expr_instrs(*operand, vars, lc);
            match op {
                UnaryOp::Neg => {
                    assert((c + seq![Instr::Neg]) + rest =~= c + (seq![Instr::Neg] + rest));
                    let m1 = lemma_expr_runs(*operand, vars, lc, m, vals, seq![Instr::Neg] + rest, callee, ret);
                    lemma_run_step(Instr::Neg, rest, m1, callee);
                    lemma_wrap32_range(-v);
                    step(Instr::Neg, m1, callee)
                },
                UnaryOp::Not => {
                    let t = seq![Instr::CmpZero, Instr::SetCc(Cond::E), Instr::Movzx];
                    assert((c + t) + rest =~= c + (t + rest));
                    let m1 = lemma_expr_runs(*operand, vars, lc, m, vals, t + rest, callee, ret);
                    lemma_run_three(Instr::CmpZero, Instr::SetCc(Cond::E), Instr::Movzx, rest, m1, callee);
                    step(Instr::Movzx, step(Instr::SetCc(Cond::E), step(Instr::CmpZero, m1, callee), callee), callee)
                },
            }
        },
        SExpr::BinOp { op, left, right } => {
            if is_logical(op) {
                lemma_logical_runs(op, *left, *right, vars, lc, m, vals, rest, callee, ret)
            } else {
                lemma_arith_runs(op, *left, *right, vars, lc, m, vals, rest, callee, ret)
            }
        },
        SExpr::Call { name, args } => lemma_call_runs(name, args, vars, lc, m, vals, rest, callee, ret),
    }
}

pub open spec fn call_of(name: Seq<char>, args: Seq<SExpr>) -> SExpr {
    SExpr::Call { name, args }
}

/// Running the code for call arguments from `m`: their values lie on the
/// stack, the first lowest, right below where the stack pointer was.
proof fn lemma_args_runs(
    args: Seq<SExpr>,
    vars: Vars,
    lc: nat,
    m: Machine,
    vals: spec_fn(int) -> int,
    rest: Seq<Instr>,
    callee: Callee,
    ret: Ret,
) -> (m2: Machine)
    requires
        follows_abi(callee, ret),
        eval_args(args, vars, vals, ret) is Some,
        slots_hold(vars, m, vals),
        !m.fault,
    ensures
        run(args_instrs(args, vars, lc) + rest, m, callee) == run(rest, m2, callee),
        m2.rsp == m.rsp - 8 * args.len(),
        m2.rbp == m.rbp,
        !m2.fault,
        eval_args(args, vars, vals, ret)->Some_0.0.len() == args.len(),
        forall|j: int|
            0 <= j < args.len() ==> (m2.mem)(m2.rsp + 8 * j) == #[trigger] eval_args(args, vars, vals, ret)->Some_0.0[j]
                && in_i32(eval_args(args, vars, vals, ret)->Some_0.0[j]),
        slots_hold(vars, m2, eval_args(args, vars, vals, ret)->Some_0.1),
        forall|a: int| a >= m.rsp && !is_slot(vars, a - m.rbp) ==> #[trigger] (m2.mem)(a) == (m.mem)(a),
    decreases args,
{
    if args.len() == 0 {
        assert(args_instrs(args, vars, lc) + rest =~= rest);
        m
    } else {
        let tail = args.drop_first();
        let (vs, v1) = eval_args(tail, vars, vals, ret)->Some_0;
        let (v, v2) = eval(args[0], vars, v1, ret)->Some_0;
        let base = args_code(tail, vars, lc).labels;
        let a = args_instrs(tail, vars, lc);
        let b = expr_instrs(args[0], vars, base);
        let push = seq![Instr::PushRax];
        assert((a + b + push) + rest =~= a + (b + (push + rest)));
        let m1 = lemma_args_runs(tail, vars, lc, m, vals, b + (push + rest), callee, ret);
        let m2 = lemma_expr_runs(args[0], vars, base, m1, v1, push + rest, callee, ret);
        lemma_run_step(Instr::PushRax, rest, m2, callee);
        let m3 = step(Instr::PushRax, m2, callee);
        let out = seq![v] + vs;
        assert forall|j: int| 0 <= j < args.len() implies (m3.mem)(m3.rsp + 8 * j) == #[trigger] out[j] && in_i32(
            out[j],
        ) by {
            if j > 0 {
                let addr = m1.rsp + 8 * (j - 1);
                assert(out[j] == vs[j - 1]);
                assert(!is_slot(vars, addr - m.rbp)) by {
                    if is_slot(vars, addr - m.rbp) {
                        let k = choose|k: int| 0 <= k < vars.len() && (#[trigger] vars[k]).1 == addr - m.rbp;
                        assert(slots_hold(vars, m, vals));
                    }
                }
                assert((m2.mem)(addr) == (m1.mem)(addr));
            }
        }
        assert forall|k: int| 0 <= k < vars.len() implies (m3.mem)(m3.rbp + (#[trigger] vars[k]).1) == v2(
            vars[k].1,
        ) && m3.rbp + vars[k].1 >= m3.rsp && in_i32(v2(vars[k].1)) by {
            assert(slots_hold(vars, m2, v2));
        }
        assert forall|addr: int| addr >= m.rsp && !is_slot(vars, addr - m.rbp) implies #[trigger] (m3.mem)(addr)
            == (m.mem)(addr) by {
            assert((m2.mem)(addr) == (m1.mem)(addr));
        }
        m3
    }
}

/// Running the pops of the first `k` pushed arguments: each register gets the
/// value that lay at its place on the stack.
proof fn lemma_pops_run(k: nat, rest: Seq<Instr>, m: Machine, callee: Callee) -> (m2: Machine)
    requires
        k <= 6,
    ensures
        run(pop_instrs(k) + rest, m, callee) == run(rest, m2, callee),
        m2.rsp == m.rsp + 8 * k,
        m2.rbp == m.rbp,
        m2.mem == m.mem,
        m2.fault == m.fault,
        forall|i: int| 0 <= i < k ==> #[trigger] arg_value(m2, i) == (m.mem)(m.rsp + 8 * i),
    decreases k,
{
    if k == 0 {
        assert(pop_instrs(k) + rest =~= rest);
        m
    } else {
        let p = pop_instrs((k - 1) as nat);
        assert((p + seq![Instr::PopArg(k - 1)]) + rest =~= p + (seq![Instr::PopArg(k - 1)] + rest));
        let m1 = lemma_pops_run((k - 1) as nat, seq![Instr::PopArg(k - 1)] + rest, m, callee);
        lemma_run_step(Instr::PopArg(k - 1), rest, m1, callee);
        let m2 = step(Instr::PopArg(k - 1), m1, callee);
        assert forall|i: int| 0 <= i < k implies #[trigger] arg_value(m2, i) == (m.mem)(m.rsp + 8 * i) by {
            if i < k - 1 {
                assert(arg_value(m2, i) == arg_value(m1, i));
            }
        }
        m2
    }
}

proof fn lemma_call_runs(
    name: Seq<char>,
    args: Seq<SExpr>,
    vars: Vars,
    lc: nat,
    m: Machine,
    vals: spec_fn(int) -> int,
    rest: Seq<Instr>,
    callee: Callee,
    ret: Ret,
) -> (m2: Machine)
    requires
        follows_abi(callee, ret),
        eval(call_of(name, args), vars, vals, ret) is Some,
        slots_hold(vars, m, vals),
        !m.fault,
    ensures
        run(expr_instrs(call_of(name, args), vars, lc) + rest, m, callee) == run(rest, m2, callee),
        gives(
            vars,
            m,
            m2,
            eval(call_of(name, args), vars, vals, ret)->Some_0.0,
            eval(call_of(name, args), vars, vals, ret)->Some_0.1,
        ),
        in_i32(eval(call_of(name, args), vars, vals, ret)->Some_0.0),
    decreases call_of(name, args), 0int,
{
    let n = args.len();
    let k = min6(n);
    let (vs, v1) = eval_args(args, vars, vals, ret)->Some_0;
    let a = args_instrs(args, vars, lc);
    let p = pop_instrs(k);
    let c = seq![Instr::Call(name, n)];
    let cleanup = if n > 6 {
        seq![Instr::AddRsp(((n - 6) * 8) as nat)]
    } else {
        Seq::<Instr>::empty()
    };
    assert((a + p + c + cleanup) + rest =~= a + (p + (c + (cleanup + rest))));
    let m1 = lemma_args_runs(args, vars, lc, m, vals, p + (c + (cleanup + rest)), callee, ret);
    let m3 = lemma_pops_run(k, c + (cleanup + rest), m1, callee);
    lemma_run_step(Instr::Call(name, n), cleanup + rest, m3, callee);
    assert(call_args(m3, n) =~= vs) by {
        assert forall|i: int| 0 <= i < n implies #[trigger] call_args(m3, n)[i] == vs[i] by {
            if i >= 6 {
                assert(m3.rsp + 8 * (i - 6) == m1.rsp + 8 * i);
            }
        }
    }
    let m4 = step(Instr::Call(name, n), m3, callee);
    assert(m4 == callee(name, vs, m3));
    let m5 = if n > 6 {
        lemma_run_step(Instr::AddRsp(((n - 6) * 8) as nat), rest, m4, callee);
        step(Instr::AddRsp(((n - 6) * 8) as nat), m4, callee)
    } else {
        assert(cleanup + rest =~= rest);
        m4
    };
    assert forall|j: int| 0 <= j < vars.len() implies (m5.mem)(m5.rbp + (#[trigger] vars[j]).1) == v1(vars[j].1)
        && m5.rbp + vars[j].1 >= m5.rsp && in_i32(v1(vars[j].1)) by {
        assert(slots_hold(vars, m1, v1));
        assert(slots_hold(vars, m, vals));
        assert((m4.mem)(m.rbp + vars[j].1) == (m3.mem)(m.rbp + vars[j].1));
    }
    assert forall|addr: int| addr >= m.rsp && !is_slot(vars, addr - m.rbp) implies #[trigger] (m5.mem)(addr) == (
    m.mem)(addr) by {
        assert((m4.mem)(addr) == (m3.mem)(addr));
    }
    m5
}

proof fn lemma_arith_runs(
    op: BinOp,
    left: SExpr,
    right: SExpr,
    vars: Vars,
    lc: nat,
    m: Machine,
    vals: spec_fn(int) -> int,
    rest: Seq<Instr>,
    callee: Callee,
    ret: Ret,
) -> (m2: Machine)
    requires
        follows_abi(callee, ret),
        !is_logical(op),
        eval(binop(op, left, right), vars, vals, ret) is Some,
        slots_hold(vars, m, vals),
        !m.fault,
    ensures
        run(expr_instrs(binop(op, left, right), vars, lc) + rest, m, callee)
            == run(rest, m2, callee),
        gives(
            vars,
            m,
            m2,
            eval(binop(op, left, right), vars, vals, ret)->Some_0.0,
            eval(binop(op, left, right), vars, vals, ret)->Some_0.1,
        ),
        in_i32(eval(binop(op, left, right), vars, vals, ret)->Some_0.0),
    decreases binop(op, left, right), 0int,
{
    let e = binop(op, left, right);
    let (rv, v1) = eval(right, vars, vals, ret)->Some_0;
    let (lv, v2) = eval(left, vars, v1, ret)->Some_0;
    let ll = expr_code(right, vars, lc).labels;
    let r = expr_instrs(right, vars, lc);
    let l = expr_instrs(left, vars, ll);
    let ops = binop_instrs(op);
    let push = seq![Instr::PushRax];
    let pop = seq![Instr::PopRcx];
    assert(expr_instrs(e, vars, lc) == r + push + l + pop + ops);
    assert((r + push + l + pop + ops) + rest =~= r + (push + (l + (pop + (ops + rest)))));
    let m1 = lemma_expr_runs(right, vars, lc, m, vals, push + (l + (pop + (ops + rest))), callee, ret);
    lemma_run_step(Instr::PushRax, l + (pop + (ops + rest)), m1, callee);
    let mp = step(Instr::PushRax, m1, callee);
    assert forall|j: int| 0 <= j < vars.len() implies (mp.mem)(mp.rbp + (#[trigger] vars[j]).1) == v1(vars[j].1)
        && mp.rbp + vars[j].1 >= mp.rsp && in_i32(v1(vars[j].1)) by {
        assert(slots_hold(vars, m1, v1));
        assert(slots_hold(vars, m, vals));
    }
    let m3 = lemma_expr_runs(left, vars, ll, mp, v1, pop + (ops + rest), callee, ret);
    assert(!is_slot(vars, m.rsp - 8 - m.rbp)) by {
        if is_slot(vars, m.rsp - 8 - m.rbp) {
            let k = choose|k: int| 0 <= k < vars.len() && (#[trigger] vars[k]).1 == m.rsp - 8 - m.rbp;
            assert(slots_hold(vars, m, vals));
        }
    }
    assert((m3.mem)(m.rsp - 8) == (mp.mem)(m.rsp - 8));
    lemma_run_step(Instr::PopRcx, ops + rest, m3, callee);
    let m4 = step(Instr::PopRcx, m3, callee);
    let m5 = lemma_binop_runs(op, rest, m4, callee);
    assert forall|j: int| 0 <= j < vars.len() implies (m5.mem)(m5.rbp + (#[trigger] vars[j]).1) == v2(vars[j].1)
        && m5.rbp + vars[j].1 >= m5.rsp && in_i32(v2(vars[j].1)) by {
        assert(slots_hold(vars, m3, v2));
        assert(slots_hold(vars, m, vals));
    }
    assert forall|a: int| a >= m.rsp && !is_slot(vars, a - m.rbp) implies #[trigger] (m5.mem)(a) == (m.mem)(
        a) by {
        assert((m3.mem)(a) == (mp.mem)(a));
        assert((m1.mem)(a) == (m.mem)(a));
    }
    m5
}

proof fn lemma_logical_runs(
    op: BinOp,
    left: SExpr,
    right: SExpr,
    vars: Vars,
    lc: nat,
    m: Machine,
    vals: spec_fn(int) -> int,
    rest: Seq<Instr>,
    callee: Callee,
    ret: Ret,
) -> (m2: Machine)
    requires
        follows_abi(callee, ret),
        is_logical(op),
        eval(binop(op, left, right), vars, vals, ret) is Some,
        slots_hold(vars, m, vals),
        !m.fault,
    ensures
        run(expr_instrs(binop(op, left, right), vars, lc) + rest, m, callee)
            == run(rest, m2, callee),
        gives(
            vars,
            m,
            m2,
            eval(binop(op, left, right), vars, vals, ret)->Some_0.0,
            eval(binop(op, left, right), vars, vals, ret)->Some_0.1,
        ),
        in_i32(eval(binop(op, left, right), vars, vals, ret)->Some_0.0),
    decreases binop(op, left, right), 0int,
{
    let e = binop(op, left, right);
    let skip = label(skip_prefix(op), lc + 1);
    let (lv, v1) = eval(left, vars, vals, ret)->Some_0;
    let rl = expr_code(left, vars, lc + 1).labels;
    let l = expr_instrs(left, vars, lc + 1);
    let r = expr_instrs(right, vars, rl);
    let t = truth_instrs();
    let j = seq![Instr::Jump(skip_cond(op), skip)];
    let z = seq![Instr::Label(skip)];
    assert(expr_instrs(e, vars, lc) == l + t + j + r + t + z);
    let x = r + (t + (z + rest));
    assert((l + t + j + r + t + z) + rest =~= l + (t + (j + x)));
    let m1 = lemma_expr_runs(left, vars, lc + 1, m, vals, t + (j + x), callee, ret);
    lemma_run_three(Instr::CmpZero, Instr::SetCc(Cond::Ne), Instr::Movzx, j + x, m1, callee);
    let mt = step(Instr::Movzx, step(Instr::SetCc(Cond::Ne), step(Instr::CmpZero, m1, callee), callee), callee);
    let sj = j + x;
    assert(sj[0] == Instr::Jump(skip_cond(op), skip));
    assert(sj.drop_first() =~= x);
    assert(slots_hold(vars, mt, v1)) by {
        assert(slots_hold(vars, m1, v1));
    }
    if holds(skip_cond(op), mt.compared) {
        // The left operand decides: on to the label, past the right one.
        lemma_expr_labels_grow(left, vars, lc + 1);
        lemma_label_prefix_no_dot(skip_prefix(op));
        lemma_expr_no_label(right, vars, rl, skip_prefix(op), lc + 1);
        lemma_no_label_add(r, t, skip);
        assert(x =~= (r + t) + z + rest);
        lemma_after_label_skip(r + t, skip, rest);
        mt
    } else {
        let (rv, v2) = eval(right, vars, v1, ret)->Some_0;
        let m3 = lemma_expr_runs(right, vars, rl, mt, v1, t + (z + rest), callee, ret);
        lemma_run_three(Instr::CmpZero, Instr::SetCc(Cond::Ne), Instr::Movzx, z + rest, m3, callee);
        let m4 = step(Instr::Movzx, step(Instr::SetCc(Cond::Ne), step(Instr::CmpZero, m3, callee), callee), callee);
        lemma_run_step(Instr::Label(skip), rest, m4, callee);
        assert forall|a: int| a >= m.rsp && !is_slot(vars, a - m.rbp) implies #[trigger] (m4.mem)(a) == (
        m.mem)(a) by {
            assert((m3.mem)(a) == (mt.mem)(a));
            assert((m1.mem)(a) == (m.mem)(a));
        }
        m4
    }
}

/// The code that `expr_code` emits for an expression, read as instructions,
/// computes what C gives the expression, with `+`, `-`, `*` and unary `-`
/// wrapping to 32 bits. Run from a state in which the variables' slots hold
/// 32-bit values `vals` at or above the stack pointer, with calls done by any
/// callee that keeps the System V convention and returns what `ret` says, on
/// an expression whose value `eval` defines (every division defined, every
/// variable declared), it reaches the
/// code after it with that value in `eax`, the variables' slots holding what
/// the expression's assignments leave, the stack and frame pointers where
/// they were, no trap, and all other memory at or above the stack pointer
/// unchanged. `&&` and `||` skip their right operand when the left one
/// decides; each callee finds its arguments' values in `rdi`, `rsi`, `rdx`,
/// `rcx`, `r8`, `r9` and then on the stack, as it gets them from `ret`.
pub proof fn lemma_expr_code_computes(
    e: SExpr,
    vars: Vars,
    lc: nat,
    m: Machine,
    vals: spec_fn(int) -> int,
    rest: Seq<Instr>,
    callee: Callee,
    ret: Ret,
)
    requires
        follows_abi(callee, ret),
        eval(e, vars, vals, ret) is Some,
        slots_hold(vars, m, vals),
        !m.fault,
    ensures
        render_all(expr_instrs(e, vars, lc)) == expr_code(e, vars, lc).text,
        exists|m2: Machine|
            run(expr_instrs(e, vars, lc) + rest, m, callee) == run(rest, m2, callee) && gives(
                vars,
                m,
                m2,
                eval(e, vars, vals, ret)->Some_0.0,
                eval(e, vars, vals, ret)->Some_0.1,
            ),
{
    lemma_render_expr(e, vars, lc);
    let m2 = lemma_expr_runs(e, vars, lc, m, vals, rest, callee, ret);
}

} // verus!
