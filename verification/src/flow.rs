//! What the code for a `for` loop does when it runs.
//!
//! The code of a `for` loop whose parts are straight-line (no `if`, loop,
//! `return`, `&&` or `||` inside) is read as instructions (`for_instrs`,
//! rendered back to exactly the text that `stmt_code` gives) and run by
//! `exec`, which follows jumps backward as well as forward. The laws
//! `lemma_for_with_cond_runs` and `lemma_for_without_cond_loops` state what
//! the loop does: its initialiser once, then its condition, tested before the
//! body and after each step, or no test at all when there is no condition.

use vstd::prelude::*;
use crate::ast::{SExpr, SStatement};
use crate::codegen::{Env, label, line, slot, stmt_code, block_code, expr_code, expr_label_free, args_label_free, declare_line, declared, with_labels, is_logical, lemma_emitted_labels_distinct};
use crate::machine::{Instr, Cond, Machine, Callee, render, render_all, expr_instrs, args_instrs, pop_instrs, binop_instrs, run, step, holds, lemma_render_expr, lemma_render_all_add, lemma_render_one};

verus! {

/// No jump or label in `s`: it runs from its first instruction to its last.
pub open spec fn straight(s: Seq<Instr>) -> bool {
    forall|k: int| 0 <= k < s.len() ==> !(#[trigger] s[k] is Jump) && !(s[k] is Jmp) && !(s[k] is Label)
}

proof fn lemma_straight_add(a: Seq<Instr>, b: Seq<Instr>)
    requires
        straight(a),
        straight(b),
    ensures
        straight(a + b),
{
    assert forall|k: int| 0 <= k < (a + b).len() implies !(#[trigger] (a + b)[k] is Jump) && !((a + b)[k] is Jmp)
        && !((a + b)[k] is Label) by {
        if k < a.len() {
            assert((a + b)[k] == a[k]);
        } else {
            assert((a + b)[k] == b[k - a.len()]);
        }
    }
}

proof fn lemma_pops_straight(k: nat)
    ensures
        straight(pop_instrs(k)),
    decreases k,
{
    if k > 0 {
        lemma_pops_straight((k - 1) as nat);
        lemma_straight_add(pop_instrs((k - 1) as nat), seq![Instr::PopArg(k - 1)]);
    }
}

/// The code for an expression without `&&` or `||` is straight-line.
proof fn lemma_expr_straight(e: SExpr, vars: crate::codegen::Vars, lc: nat)
    requires
        expr_label_free(e),
    ensures
        straight(expr_instrs(e, vars, lc)),
    decreases e,
{
    match e {
        SExpr::BinOp { op, left, right } => {
            let ll = expr_code(*right, vars, lc).labels;
            lemma_expr_straight(*right, vars, lc);
            lemma_expr_straight(*left, vars, ll);
            let r = expr_instrs(*right, vars, lc);
            let l = expr_instrs(*left, vars, ll);
            lemma_straight_add(r, seq![Instr::PushRax]);
            lemma_straight_add(r + seq![Instr::PushRax], l);
            lemma_straight_add(r + seq![Instr::PushRax] + l, seq![Instr::PopRcx]);
            assert(straight(binop_instrs(op)));
            lemma_straight_add(r + seq![Instr::PushRax] + l + seq![Instr::PopRcx], binop_instrs(op));
        },
        SExpr::UnaryOp { op, operand } => {
            lemma_expr_straight(*operand, vars, lc);
            let c = expr_instrs(*operand, vars, lc);
            lemma_straight_add(c, seq![Instr::Neg]);
            lemma_straight_add(c, seq![Instr::CmpZero, Instr::SetCc(Cond::E), Instr::Movzx]);
        },
        SExpr::Assign { name, value } => {
            lemma_expr_straight(*value, vars, lc);
            if let Some(d) = crate::codegen::lookup(vars, name) {
                lemma_straight_add(expr_instrs(*value, vars, lc), seq![Instr::Store(d)]);
            }
        },
        SExpr::Call { name, args } => {
            let n = args.len();
            lemma_args_straight(args, vars, lc);
            lemma_pops_straight(crate::codegen::min6(n));
            let a = args_instrs(args, vars, lc);
            let p = pop_instrs(crate::codegen::min6(n));
            lemma_straight_add(a, p);
            lemma_straight_add(a + p, seq![Instr::Call(name, n)]);
            if n > 6 {
                lemma_straight_add(a + p + seq![Instr::Call(name, n)], seq![Instr::AddRsp(((n - 6) * 8) as nat)]);
            } else {
                lemma_straight_add(a + p + seq![Instr::Call(name, n)], Seq::<Instr>::empty());
            }
        },
        _ => {},
    }
}

proof fn lemma_args_straight(args: Seq<SExpr>, vars: crate::codegen::Vars, lc: nat)
    requires
        args_label_free(args),
    ensures
        straight(args_instrs(args, vars, lc)),
    decreases args,
{
    if args.len() > 0 {
        let b = crate::codegen::args_code(args.drop_first(), vars, lc).labels;
        lemma_args_straight(args.drop_first(), vars, lc);
        lemma_expr_straight(args[0], vars, b);
        let a = args_instrs(args.drop_first(), vars, lc);
        let e = expr_instrs(args[0], vars, b);
        lemma_straight_add(a, e);
        lemma_straight_add(a + e, seq![Instr::PushRax]);
    }
}

/// A statement whose code is straight-line: a declaration, or an
/// expression statement, without `&&` or `||`.
pub open spec fn stmt_straight(s: SStatement) -> bool {
    match s {
        SStatement::Decl { name } => true,
        SStatement::DeclInit { name, init } => expr_label_free(init),
        SStatement::Expr(e) => expr_label_free(e),
        _ => false,
    }
}

pub open spec fn block_straight(ss: Seq<SStatement>) -> bool {
    forall|k: int| 0 <= k < ss.len() ==> stmt_straight(#[trigger] ss[k])
}

/// The instructions of a straight-line statement's code.
pub open spec fn stmt_instrs(s: SStatement, env: Env) -> Seq<Instr> {
    match s {
        SStatement::Decl { name } => seq![Instr::Reserve(env.offset - env.reserved, name + " (uninitialized)"@)],
        SStatement::DeclInit { name, init } => seq![Instr::Reserve(env.offset - env.reserved, name)] + expr_instrs(
            init,
            declared(name, env).vars,
            env.labels,
        ) + seq![Instr::Store(-env.offset)],
        SStatement::Expr(e) => expr_instrs(e, env.vars, env.labels),
        _ => Seq::empty(),
    }
}

/// The instructions of a straight-line block's code.
pub open spec fn block_instrs(ss: Seq<SStatement>, env: Env) -> Seq<Instr>
    decreases ss.len(),
{
    if ss.len() == 0 {
        Seq::empty()
    } else {
        block_instrs(ss.drop_last(), env) + stmt_instrs(ss.last(), block_code(ss.drop_last(), env).env)
    }
}

proof fn lemma_stmt_instrs(s: SStatement, env: Env)
    requires
        stmt_straight(s),
    ensures
        render_all(stmt_instrs(s, env)) == stmt_code(s, env).text,
        straight(stmt_instrs(s, env)),
{
    match s {
        SStatement::Decl { name } => {
            let i = Instr::Reserve(env.offset - env.reserved, name + " (uninitialized)"@);
            lemma_render_one(i);
            assert(render(i) =~= declare_line(name, env, " (uninitialized)"@));
        },
        SStatement::DeclInit { name, init } => {
            let r = Instr::Reserve(env.offset - env.reserved, name);
            let e1 = declared(name, env);
            let c = expr_instrs(init, e1.vars, env.labels);
            let st = Instr::Store(-env.offset);
            lemma_render_one(r);
            lemma_render_one(st);
            lemma_render_expr(init, e1.vars, env.labels);
            lemma_render_all_add(seq![r], c);
            lemma_render_all_add(seq![r] + c, seq![st]);
            reveal_strlit("");
            assert(render(r) =~= declare_line(name, env, ""@));
            lemma_expr_straight(init, e1.vars, env.labels);
            lemma_straight_add(seq![r], c);
            lemma_straight_add(seq![r] + c, seq![st]);
        },
        SStatement::Expr(e) => {
            lemma_render_expr(e, env.vars, env.labels);
            lemma_expr_straight(e, env.vars, env.labels);
        },
        _ => {},
    }
}

proof fn lemma_block_instrs(ss: Seq<SStatement>, env: Env)
    requires
        block_straight(ss),
    ensures
        render_all(block_instrs(ss, env)) == block_code(ss, env).text,
        straight(block_instrs(ss, env)),
    decreases ss.len(),
{
    if ss.len() == 0 {
        assert(render_all(Seq::<Instr>::empty()) == Seq::<char>::empty());
        assert(straight(Seq::<Instr>::empty()));
    } else {
        assert(block_straight(ss.drop_last())) by {
            assert forall|k: int| 0 <= k < ss.drop_last().len() implies stmt_straight(#[trigger] ss.drop_last()[k]) by {
                assert(ss.drop_last()[k] == ss[k]);
            }
        }
        assert(stmt_straight(ss[ss.len() - 1]));
        lemma_block_instrs(ss.drop_last(), env);
        let b = block_code(ss.drop_last(), env).env;
        lemma_stmt_instrs(ss.last(), b);
        lemma_render_all_add(block_instrs(ss.drop_last(), env), stmt_instrs(ss.last(), b));
        lemma_straight_add(block_instrs(ss.drop_last(), env), stmt_instrs(ss.last(), b));
    }
}


/// The pieces of a `for` loop's code: the initialiser's, the body's, the
/// step's and (when there is one) the condition's instructions, and the
/// labels of the condition and of the body.
pub struct ForParts {
    pub init: Seq<Instr>,
    pub body: Seq<Instr>,
    pub step: Seq<Instr>,
    pub cond: Option<Seq<Instr>>,
    pub cond_label: Seq<char>,
    pub body_label: Seq<char>,
}

/// How the pieces are laid out: the initialiser, a jump to the condition,
/// the body and the step, then the condition, which jumps back to the body
/// while it is nonzero; with no condition, the jump back is unconditional.
pub open spec fn for_layout(p: ForParts) -> Seq<Instr> {
    let tail = match p.cond {
        Some(c) => c + seq![Instr::CmpZero, Instr::Jump(Cond::Ne, p.body_label)],
        None => seq![Instr::Jmp(p.body_label)],
    };
    p.init + seq![Instr::Jmp(p.cond_label), Instr::Label(p.body_label)] + p.body + p.step + seq![
        Instr::Label(p.cond_label),
    ] + tail
}

/// The pieces of the code that `stmt_code` gives a `for` loop with
/// straight-line parts, emitted from `env`.
pub open spec fn for_parts(
    init: Option<Box<SStatement>>,
    cond: Option<SExpr>,
    step: Option<SExpr>,
    body: Seq<SStatement>,
    env: Env,
) -> ForParts {
    let ienv = match init {
        Some(i) => stmt_code(*i, env).env,
        None => env,
    };
    let benv = with_labels(ienv, ienv.labels + 2);
    let bend = block_code(body, benv).env;
    let (st, sl) = match step {
        Some(e) => (expr_instrs(e, bend.vars, bend.labels), expr_code(e, bend.vars, bend.labels).labels),
        None => (Seq::<Instr>::empty(), bend.labels),
    };
    ForParts {
        init: match init {
            Some(i) => stmt_instrs(*i, env),
            None => Seq::empty(),
        },
        body: block_instrs(body, benv),
        step: st,
        cond: match cond {
            Some(c) => Some(expr_instrs(c, bend.vars, sl)),
            None => None,
        },
        cond_label: label("for_cond"@, ienv.labels + 1),
        body_label: label("for_body"@, ienv.labels + 2),
    }
}

/// A `for` loop with straight-line parts.
pub open spec fn for_straight(
    init: Option<Box<SStatement>>,
    cond: Option<SExpr>,
    step: Option<SExpr>,
    body: Seq<SStatement>,
) -> bool {
    &&& (init matches Some(i) ==> stmt_straight(*i))
    &&& (cond matches Some(c) ==> expr_label_free(c))
    &&& (step matches Some(e) ==> expr_label_free(e))
    &&& block_straight(body)
}

/// The pieces are straight-line, the two labels differ, and the layout
/// renders to the text that `stmt_code` gives the loop.
#[verifier::rlimit(100)]
#[verifier::spinoff_prover]
proof fn lemma_for_parts(
    init: Option<Box<SStatement>>,
    cond: Option<SExpr>,
    step: Option<SExpr>,
    body: Seq<SStatement>,
    env: Env,
)
    requires
        for_straight(init, cond, step, body),
    ensures
        render_all(for_layout(for_parts(init, cond, step, body, env))) == stmt_code(
            SStatement::For { init, cond, step, body },
            env,
        ).text,
        straight(for_parts(init, cond, step, body, env).init),
        straight(for_parts(init, cond, step, body, env).body),
        straight(for_parts(init, cond, step, body, env).step),
        for_parts(init, cond, step, body, env).cond matches Some(c) ==> straight(c),
        for_parts(init, cond, step, body, env).cond_label != for_parts(init, cond, step, body, env).body_label,
{
    let p = for_parts(init, cond, step, body, env);
    let ienv = match init {
        Some(i) => stmt_code(*i, env).env,
        None => env,
    };
    let benv = with_labels(ienv, ienv.labels + 2);
    let bend = block_code(body, benv).env;
    reveal_strlit("for_cond");
    reveal_strlit("for_body");
    lemma_emitted_labels_distinct("for_cond"@, ienv.labels + 1, "for_body"@, ienv.labels + 2);
    match init {
        Some(i) => lemma_stmt_instrs(*i, env),
        None => {
            assert(render_all(Seq::<Instr>::empty()) == Seq::<char>::empty());
        },
    }
    lemma_block_instrs(body, benv);
    match step {
        Some(e) => {
            lemma_render_expr(e, bend.vars, bend.labels);
            lemma_expr_straight(e, bend.vars, bend.labels);
        },
        None => {
            assert(render_all(Seq::<Instr>::empty()) == Seq::<char>::empty());
        },
    }
    let j = seq![Instr::Jmp(p.cond_label), Instr::Label(p.body_label)];
    let z = seq![Instr::Label(p.cond_label)];
    let tail = match p.cond {
        Some(c) => c + seq![Instr::CmpZero, Instr::Jump(Cond::Ne, p.body_label)],
        None => seq![Instr::Jmp(p.body_label)],
    };
    assert(j =~= seq![Instr::Jmp(p.cond_label)] + seq![Instr::Label(p.body_label)]);
    lemma_render_all_add(seq![Instr::Jmp(p.cond_label)], seq![Instr::Label(p.body_label)]);
    lemma_render_one(Instr::Jmp(p.cond_label));
    lemma_render_one(Instr::Label(p.body_label));
    lemma_render_one(Instr::Label(p.cond_label));
    match cond {
        Some(c) => {
            let sl = match step {
                Some(e) => expr_code(e, bend.vars, bend.labels).labels,
                None => bend.labels,
            };
            lemma_render_expr(c, bend.vars, sl);
            lemma_expr_straight(c, bend.vars, sl);
            let cc = expr_instrs(c, bend.vars, sl);
            let t2 = seq![Instr::CmpZero, Instr::Jump(Cond::Ne, p.body_label)];
            assert(t2 =~= seq![Instr::CmpZero] + seq![Instr::Jump(Cond::Ne, p.body_label)]);
            lemma_render_all_add(seq![Instr::CmpZero], seq![Instr::Jump(Cond::Ne, p.body_label)]);
            lemma_render_one(Instr::CmpZero);
            lemma_render_one(Instr::Jump(Cond::Ne, p.body_label));
            lemma_render_all_add(cc, t2);
        },
        None => {
            lemma_render_one(Instr::Jmp(p.body_label));
        },
    }
    lemma_render_all_add(p.init, j);
    lemma_render_all_add(p.init + j, p.body);
    lemma_render_all_add(p.init + j + p.body, p.step);
    lemma_render_all_add(p.init + j + p.body + p.step, z);
    lemma_render_all_add(p.init + j + p.body + p.step + z, tail);
}


/// The index of the first `l:` in `code` at or after `k` (the length of
/// `code` when there is none).
pub open spec fn find_label(code: Seq<Instr>, l: Seq<char>, k: int) -> int
    decreases code.len() - k,
{
    if k < 0 || k >= code.len() {
        code.len() as int
    } else if code[k] == Instr::Label(l) {
        k
    } else {
        find_label(code, l, k + 1)
    }
}

/// Runs `code` from instruction `pc` for at most `fuel` instructions, with
/// calls done by `callee`: a jump goes on after the first `l:` of the code,
/// wherever it lies. The state when control leaves the code (past its end),
/// or `None` when the fuel runs out first.
pub open spec fn exec(code: Seq<Instr>, pc: int, m: Machine, callee: Callee, fuel: nat) -> Option<Machine>
    decreases fuel,
{
    if pc < 0 || pc >= code.len() {
        Some(m)
    } else if fuel == 0 {
        None
    } else {
        match code[pc] {
            Instr::Jump(c, l) => if holds(c, m.compared) {
                exec(code, find_label(code, l, 0) + 1, m, callee, (fuel - 1) as nat)
            } else {
                exec(code, pc + 1, m, callee, (fuel - 1) as nat)
            },
            Instr::Jmp(l) => exec(code, find_label(code, l, 0) + 1, m, callee, (fuel - 1) as nat),
            i => exec(code, pc + 1, step(i, m, callee), callee, (fuel - 1) as nat),
        }
    }
}

proof fn lemma_find_label(code: Seq<Instr>, l: Seq<char>, j: int, k: int)
    requires
        0 <= k <= j < code.len(),
        code[j] == Instr::Label(l),
        forall|i: int| 0 <= i < j ==> code[i] != Instr::Label(l),
    ensures
        find_label(code, l, k) == j,
    decreases j - k,
{
    if k < j {
        lemma_find_label(code, l, j, k + 1);
    }
}

/// Running a straight-line stretch of `code` is running its instructions
/// one after another, one unit of fuel each.
proof fn lemma_exec_straight(code: Seq<Instr>, a: int, seg: Seq<Instr>, m: Machine, callee: Callee, fuel: nat)
    requires
        0 <= a,
        a + seg.len() <= code.len(),
        code.subrange(a, a + seg.len()) == seg,
        straight(seg),
    ensures
        fuel >= seg.len() ==> exec(code, a, m, callee, fuel) == exec(
            code,
            a + seg.len(),
            run(seg, m, callee),
            callee,
            (fuel - seg.len()) as nat,
        ),
        fuel < seg.len() ==> exec(code, a, m, callee, fuel) is None,
    decreases seg.len(),
{
    if seg.len() > 0 {
        assert(code[a] == seg[0]);
        assert(!(seg[0] is Jump) && !(seg[0] is Jmp) && !(seg[0] is Label));
        let rest = seg.drop_first();
        assert(code.subrange(a + 1, a + 1 + rest.len()) =~= rest);
        assert(straight(rest)) by {
            assert forall|k: int| 0 <= k < rest.len() implies !(#[trigger] rest[k] is Jump) && !(rest[k] is Jmp)
                && !(rest[k] is Label) by {
                assert(rest[k] == seg[k + 1]);
            }
        }
        if fuel > 0 {
            lemma_exec_straight(code, a + 1, rest, step(seg[0], m, callee), callee, (fuel - 1) as nat);
        }
    }
}

/// One round of a loop with condition code `c`: the condition and its test,
/// then the body, then the step.
pub open spec fn iteration(p: ForParts, c: Seq<Instr>, s: Machine, callee: Callee) -> Machine {
    run(p.step, run(p.body, step(Instr::CmpZero, run(c, s, callee), callee), callee), callee)
}

/// The state after `k` rounds from `s`.
pub open spec fn after_rounds(p: ForParts, c: Seq<Instr>, s: Machine, callee: Callee, k: nat) -> Machine
    decreases k,
{
    if k == 0 {
        s
    } else {
        after_rounds(p, c, iteration(p, c, s, callee), callee, (k - 1) as nat)
    }
}

/// Where the pieces lie in `for_layout(p)`.
proof fn lemma_layout_positions(p: ForParts)
    requires
        straight(p.init),
        straight(p.body),
        straight(p.step),
        p.cond_label != p.body_label,
    ensures
        ({
            let code = for_layout(p);
            let a = p.init.len() as int;
            let pcl = a + 2 + p.body.len() + p.step.len();
            &&& code.subrange(0, a) == p.init
            &&& code[a] == Instr::Jmp(p.cond_label)
            &&& code[a + 1] == Instr::Label(p.body_label)
            &&& code.subrange(a + 2, pcl) == p.body + p.step
            &&& code[pcl] == Instr::Label(p.cond_label)
            &&& find_label(code, p.cond_label, 0) == pcl
            &&& find_label(code, p.body_label, 0) == a + 1
            &&& code.len() == pcl + 1 + match p.cond {
                Some(c) => c.len() as int + 2,
                None => 1int,
            }
            &&& (p.cond matches Some(c) ==> {
                &&& code.subrange(pcl + 1, pcl + 1 + c.len()) == c
                &&& code[pcl + 1 + c.len()] == Instr::CmpZero
                &&& code[pcl + 2 + c.len()] == Instr::Jump(Cond::Ne, p.body_label)
            })
            &&& (p.cond is None ==> code[pcl + 1] == Instr::Jmp(p.body_label))
        }),
{
    let code = for_layout(p);
    let a = p.init.len() as int;
    let nb = p.body.len() as int;
    let ns = p.step.len() as int;
    let pcl = a + 2 + nb + ns;
    let tail = match p.cond {
        Some(c) => c + seq![Instr::CmpZero, Instr::Jump(Cond::Ne, p.body_label)],
        None => seq![Instr::Jmp(p.body_label)],
    };
    let j = seq![Instr::Jmp(p.cond_label), Instr::Label(p.body_label)];
    let z = seq![Instr::Label(p.cond_label)];
    assert(code == p.init + j + p.body + p.step + z + tail);
    assert(code.subrange(0, a) =~= p.init);
    assert(code.subrange(a + 2, pcl) =~= p.body + p.step);
    assert(code[a] == j[0]);
    assert(code[a + 1] == j[1]);
    assert(code[pcl] == z[0]);
    if let Some(c) = p.cond {
        assert(code.subrange(pcl + 1, pcl + 1 + c.len()) =~= c);
        assert(code[pcl + 1 + c.len()] == tail[c.len() as int]);
        assert(code[pcl + 2 + c.len()] == tail[c.len() as int + 1]);
    } else {
        assert(code[pcl + 1] == tail[0]);
    }
    assert forall|i: int| 0 <= i < pcl implies code[i] != Instr::Label(p.cond_label) by {
        if i < a {
            assert(code[i] == p.init[i]);
        } else if i >= a + 2 && i < a + 2 + nb {
            assert(code[i] == p.body[i - a - 2]);
        } else if i >= a + 2 + nb {
            assert(code[i] == p.step[i - a - 2 - nb]);
        }
    }
    lemma_find_label(code, p.cond_label, pcl, 0);
    assert forall|i: int| 0 <= i < a + 1 implies code[i] != Instr::Label(p.body_label) by {
        if i < a {
            assert(code[i] == p.init[i]);
        }
    }
    lemma_find_label(code, p.body_label, a + 1, 0);
}


/// The state in which a loop with condition code `c` leaves, after `k`
/// rounds from `s`: the condition ran and tested 0.
pub open spec fn exit_state(p: ForParts, c: Seq<Instr>, s: Machine, callee: Callee, k: nat) -> Machine {
    step(Instr::CmpZero, run(c, after_rounds(p, c, s, callee, k), callee), callee)
}

/// From the condition's first instruction, a loop that runs `k` rounds and
/// then stops leaves in `exit_state`.
proof fn lemma_from_cond(p: ForParts, c: Seq<Instr>, s: Machine, callee: Callee, k: nat) -> (fuel: nat)
    requires
        p.cond == Some(c),
        straight(p.init),
        straight(p.body),
        straight(p.step),
        straight(c),
        p.cond_label != p.body_label,
        forall|j: nat| j < k ==> (#[trigger] run(c, after_rounds(p, c, s, callee, j), callee)).eax != 0,
        run(c, after_rounds(p, c, s, callee, k), callee).eax == 0,
    ensures
        exec(for_layout(p), p.init.len() as int + 3 + p.body.len() + p.step.len(), s, callee, fuel) == Some(
            exit_state(p, c, s, callee, k),
        ),
    decreases k,
{
    let code = for_layout(p);
    let a = p.init.len() as int;
    let nb = p.body.len() as int;
    let ns = p.step.len() as int;
    let nc = c.len() as int;
    let pcl = a + 2 + nb + ns;
    lemma_layout_positions(p);
    let s1 = step(Instr::CmpZero, run(c, s, callee), callee);
    if k == 0 {
        let fuel: nat = (nc + 2) as nat;
        lemma_exec_straight(code, pcl + 1, c, s, callee, fuel);
        assert(exec(code, pcl + 1 + nc, run(c, s, callee), callee, 2) == exec(code, pcl + 2 + nc, s1, callee, 1));
        assert(!holds(Cond::Ne, s1.compared));
        assert(exec(code, pcl + 2 + nc, s1, callee, 1) == exec(code, pcl + 3 + nc, s1, callee, 0));
        fuel
    } else {
        assert(run(c, after_rounds(p, c, s, callee, 0), callee).eax != 0);
        let s2 = iteration(p, c, s, callee);
        assert forall|j: nat| j < (k - 1) as nat implies (#[trigger] run(c, after_rounds(p, c, s2, callee, j), callee)).eax
            != 0 by {
            assert(after_rounds(p, c, s, callee, j + 1) == after_rounds(p, c, s2, callee, j));
            assert(run(c, after_rounds(p, c, s, callee, (j + 1) as nat), callee).eax != 0);
        }
        assert(after_rounds(p, c, s, callee, k) == after_rounds(p, c, s2, callee, (k - 1) as nat));
        let f2 = lemma_from_cond(p, c, s2, callee, (k - 1) as nat);
        let bs = p.body + p.step;
        lemma_straight_add(p.body, p.step);
        let fuel: nat = (nc + 2 + nb + ns + 1 + f2) as nat;
        lemma_exec_straight(code, pcl + 1, c, s, callee, fuel);
        let f1: nat = (fuel - nc) as nat;
        assert(exec(code, pcl + 1 + nc, run(c, s, callee), callee, f1) == exec(code, pcl + 2 + nc, s1, callee, (f1 - 1) as nat));
        assert(holds(Cond::Ne, s1.compared));
        assert(exec(code, pcl + 2 + nc, s1, callee, (f1 - 1) as nat) == exec(code, a + 2, s1, callee, (f1 - 2) as nat));
        lemma_exec_straight(code, a + 2, bs, s1, callee, (f1 - 2) as nat);
        lemma_run_add(p.body, p.step, s1, callee);
        assert(run(bs, s1, callee) == s2);
        assert(exec(code, pcl, s2, callee, (f2 + 1) as nat) == exec(code, pcl + 1, s2, callee, f2));
        fuel
    }
}

/// Running two straight-line pieces one after the other.
proof fn lemma_run_add(a: Seq<Instr>, b: Seq<Instr>, m: Machine, callee: Callee)
    requires
        straight(a),
    ensures
        run(a + b, m, callee) == run(b, run(a, m, callee), callee),
    decreases a.len(),
{
    if a.len() > 0 {
        assert((a + b)[0] == a[0]);
        assert(!(a[0] is Jump) && !(a[0] is Jmp) && !(a[0] is Label));
        assert((a + b).drop_first() =~= a.drop_first() + b);
        assert(straight(a.drop_first())) by {
            assert forall|k: int| 0 <= k < a.drop_first().len() implies !(#[trigger] a.drop_first()[k] is Jump)
                && !(a.drop_first()[k] is Jmp) && !(a.drop_first()[k] is Label) by {
                assert(a.drop_first()[k] == a[k + 1]);
            }
        }
        lemma_run_add(a.drop_first(), b, step(a[0], m, callee), callee);
    } else {
        assert(a + b =~= b);
    }
}

/// A loop laid out by `for_layout`, with a condition: it runs the
/// initialiser once, then tests the condition on the state right after it;
/// while the condition is nonzero it runs the body and then the step and
/// tests again; when it is 0 control leaves the loop, in the state that the
/// last condition left. Stated for a loop that runs `k` rounds.
pub proof fn lemma_for_layout_runs(p: ForParts, c: Seq<Instr>, m: Machine, callee: Callee, k: nat)
    requires
        p.cond == Some(c),
        straight(p.init),
        straight(p.body),
        straight(p.step),
        straight(c),
        p.cond_label != p.body_label,
        forall|j: nat| j < k ==> (#[trigger] run(c, after_rounds(p, c, run(p.init, m, callee), callee, j), callee)).eax != 0,
        run(c, after_rounds(p, c, run(p.init, m, callee), callee, k), callee).eax == 0,
    ensures
        exists|fuel: nat| exec(for_layout(p), 0, m, callee, fuel) == Some(
            exit_state(p, c, run(p.init, m, callee), callee, k),
        ),
{
    let code = for_layout(p);
    let a = p.init.len() as int;
    let s0 = run(p.init, m, callee);
    lemma_layout_positions(p);
    let f = lemma_from_cond(p, c, s0, callee, k);
    let fuel: nat = (a + 1 + f) as nat;
    lemma_exec_straight(code, 0, p.init, m, callee, fuel);
    assert(exec(code, a, s0, callee, (f + 1) as nat) == exec(code, a + 3 + p.body.len() + p.step.len(), s0, callee, f));
    assert(exec(code, 0, m, callee, fuel) == Some(exit_state(p, c, s0, callee, k)));
}

proof fn lemma_body_forever(p: ForParts, s: Machine, callee: Callee, fuel: nat)
    requires
        p.cond is None,
        straight(p.init),
        straight(p.body),
        straight(p.step),
        p.cond_label != p.body_label,
    ensures
        exec(for_layout(p), p.init.len() as int + 2, s, callee, fuel) is None,
    decreases fuel,
{
    let code = for_layout(p);
    let a = p.init.len() as int;
    let l = p.body.len() + p.step.len();
    let pcl = a + 2 + l;
    lemma_layout_positions(p);
    let bs = p.body + p.step;
    lemma_straight_add(p.body, p.step);
    lemma_exec_straight(code, a + 2, bs, s, callee, fuel);
    if fuel >= l + 2 {
        let s2 = run(bs, s, callee);
        assert(exec(code, pcl, s2, callee, (fuel - l) as nat) == exec(code, pcl + 1, s2, callee, (fuel - l - 1) as nat));
        assert(exec(code, pcl + 1, s2, callee, (fuel - l - 1) as nat) == exec(code, a + 2, s2, callee, (fuel - l - 2) as nat));
        lemma_body_forever(p, s2, callee, (fuel - l - 2) as nat);
    } else if fuel >= l {
        let s2 = run(bs, s, callee);
        if fuel == l + 1 {
            assert(exec(code, pcl, s2, callee, 1) == exec(code, pcl + 1, s2, callee, 0));
        }
    }
}

/// A loop laid out by `for_layout` without a condition never leaves: for
/// any amount of fuel, running it from its start does not get past its end.
pub proof fn lemma_for_layout_forever(p: ForParts, m: Machine, callee: Callee, fuel: nat)
    requires
        p.cond is None,
        straight(p.init),
        straight(p.body),
        straight(p.step),
        p.cond_label != p.body_label,
    ensures
        exec(for_layout(p), 0, m, callee, fuel) is None,
{
    let code = for_layout(p);
    let a = p.init.len() as int;
    let pcl = a + 2 + p.body.len() + p.step.len();
    lemma_layout_positions(p);
    lemma_exec_straight(code, 0, p.init, m, callee, fuel);
    if fuel >= a + 2 {
        let s0 = run(p.init, m, callee);
        assert(exec(code, a, s0, callee, (fuel - a) as nat) == exec(code, pcl + 1, s0, callee, (fuel - a - 1) as nat));
        assert(exec(code, pcl + 1, s0, callee, (fuel - a - 1) as nat) == exec(code, a + 2, s0, callee, (fuel - a - 2) as nat));
        lemma_body_forever(p, s0, callee, (fuel - a - 2) as nat);
    }
}

pub open spec fn for_stmt(
    init: Option<Box<SStatement>>,
    cond: Option<SExpr>,
    step: Option<SExpr>,
    body: Seq<SStatement>,
) -> SStatement {
    SStatement::For { init, cond, step, body }
}

/// The code that the emitter writes for a `for` loop with a condition and
/// straight-line parts runs the initialiser once and then, while the
/// condition is nonzero, the body followed by the step; the condition is
/// first tested on the state right after the initialiser, before any step.
/// Read as instructions, the text that `stmt_code` gives is `for_layout` of
/// the parts' code, which runs so (`lemma_for_layout_runs`).
pub proof fn lemma_for_with_cond_runs(
    init: Option<Box<SStatement>>,
    cond: SExpr,
    step: Option<SExpr>,
    body: Seq<SStatement>,
    env: Env,
    m: Machine,
    callee: Callee,
    k: nat,
)
    requires
        for_straight(init, Some(cond), step, body),
        ({
            let p = for_parts(init, Some(cond), step, body, env);
            let c = p.cond->Some_0;
            &&& forall|j: nat|
                j < k ==> (#[trigger] run(c, after_rounds(p, c, run(p.init, m, callee), callee, j), callee)).eax != 0
            &&& run(c, after_rounds(p, c, run(p.init, m, callee), callee, k), callee).eax == 0
        }),
    ensures
        render_all(for_layout(for_parts(init, Some(cond), step, body, env))) == stmt_code(
            for_stmt(init, Some(cond), step, body),
            env,
        ).text,
        ({
            let p = for_parts(init, Some(cond), step, body, env);
            let c = p.cond->Some_0;
            exists|fuel: nat| exec(for_layout(p), 0, m, callee, fuel) == Some(
                exit_state(p, c, run(p.init, m, callee), callee, k),
            )
        }),
{
    lemma_for_parts(init, Some(cond), step, body, env);
    let p = for_parts(init, Some(cond), step, body, env);
    lemma_for_layout_runs(p, p.cond->Some_0, m, callee, k);
}

/// The code that the emitter writes for a `for` loop without a condition
/// and with straight-line parts loops for ever: a missing condition counts
/// as nonzero, and control never leaves the loop.
pub proof fn lemma_for_without_cond_loops(
    init: Option<Box<SStatement>>,
    step: Option<SExpr>,
    body: Seq<SStatement>,
    env: Env,
    m: Machine,
    callee: Callee,
    fuel: nat,
)
    requires
        for_straight(init, None, step, body),
    ensures
        render_all(for_layout(for_parts(init, None, step, body, env))) == stmt_code(
            for_stmt(init, None, step, body),
            env,
        ).text,
        exec(for_layout(for_parts(init, None, step, body, env)), 0, m, callee, fuel) is None,
{
    lemma_for_parts(init, None, step, body, env);
    lemma_for_layout_forever(for_parts(init, None, step, body, env), m, callee, fuel);
}

} // verus!
