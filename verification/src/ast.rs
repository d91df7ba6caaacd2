//! Abstract syntax tree of the accepted C subset, together with its
//! mathematical model (`SExpr`, `SStatement`, `SFunction`, `SProgram`).

use vstd::prelude::*;
use vstd::string::*;

verus! {

/// Root of the program - list of function definitions.
#[derive(Debug)]
pub struct Program {
    pub functions: Vec<Function>,
}

/// A function definition: `int name(int p1, ..., int pn) { body }`.
#[derive(Debug)]
pub struct Function {
    pub name: String,
    pub params: Vec<String>,
    pub body: Vec<Statement>,
}

#[derive(Debug)]
pub enum Statement {
    /// Variable declaration: int x;
    Decl { name: String },
    /// Declaration with init: int x = 5;
    DeclInit { name: String, init: Box<Expr> },
    /// Expression statement: x = 5;
    Expr(Expr),
    /// return expr;
    Return(Option<Expr>),
    /// if (cond) { ... } else { ... }
    If { cond: Expr, then_body: Vec<Statement>, else_body: Option<Vec<Statement>> },
    /// while (cond) { ... }
    While { cond: Expr, body: Vec<Statement> },
    /// for (init; cond; step) { ... }
    For {
        init: Option<Box<Statement>>,
        cond: Option<Expr>,
        step: Option<Expr>,
        body: Vec<Statement>,
    },
}

#[derive(Debug)]
pub enum Expr {
    Number(i32),
    Ident(String),
    /// Binary operation
    BinOp { op: BinOp, left: Box<Expr>, right: Box<Expr> },
    /// Unary operation
    UnaryOp { op: UnaryOp, operand: Box<Expr> },
    /// Assignment: x = expr
    Assign { name: String, value: Box<Expr> },
    /// Function call: f(a, b)
    Call { name: String, args: Vec<Expr> },
}

#[derive(Debug, Clone, Copy, PartialEq, Eq, Structural)]
pub enum BinOp {
    Add,
    Sub,
    Mul,
    Div,
    Mod,
    Eq,
    Ne,
    Lt,
    Le,
    Gt,
    Ge,
    AndAnd,
    OrOr,
}

#[derive(Debug, Clone, Copy, PartialEq, Eq, Structural)]
pub enum UnaryOp {
    Neg,
    Not,
}

/// Model of an expression: names are character sequences, arguments a sequence.
pub enum SExpr {
    Number(i32),
    Ident(Seq<char>),
    BinOp { op: BinOp, left: Box<SExpr>, right: Box<SExpr> },
    UnaryOp { op: UnaryOp, operand: Box<SExpr> },
    Assign { name: Seq<char>, value: Box<SExpr> },
    Call { name: Seq<char>, args: Seq<SExpr> },
}

/// Model of a statement.
pub enum SStatement {
    Decl { name: Seq<char> },
    DeclInit { name: Seq<char>, init: SExpr },
    Expr(SExpr),
    Return(Option<SExpr>),
    If { cond: SExpr, then_body: Seq<SStatement>, else_body: Option<Seq<SStatement>> },
    While { cond: SExpr, body: Seq<SStatement> },
    For {
        init: Option<Box<SStatement>>,
        cond: Option<SExpr>,
        step: Option<SExpr>,
        body: Seq<SStatement>,
    },
}

/// Model of a function definition.
pub struct SFunction {
    pub name: Seq<char>,
    pub params: Seq<Seq<char>>,
    pub body: Seq<SStatement>,
}

/// Model of a program.
pub struct SProgram {
    pub functions: Seq<SFunction>,
}

pub open spec fn expr_view(e: Expr) -> SExpr
    decreases e,
{
    match e {
        Expr::Number(n) => SExpr::Number(n),
        Expr::Ident(s) => SExpr::Ident(s@),
        Expr::BinOp { op, left, right } => SExpr::BinOp {
            op,
            left: Box::new(expr_view(*left)),
            right: Box::new(expr_view(*right)),
        },
        Expr::UnaryOp { op, operand } => SExpr::UnaryOp {
            op,
            operand: Box::new(expr_view(*operand)),
        },
        Expr::Assign { name, value } => SExpr::Assign {
            name: name@,
            value: Box::new(expr_view(*value)),
        },
        Expr::Call { name, args } => SExpr::Call { name: name@, args: exprs_view(args@) },
    }
}

pub open spec fn exprs_view(es: Seq<Expr>) -> Seq<SExpr>
    decreases es,
{
    if es.len() == 0 {
        Seq::empty()
    } else {
        exprs_view(es.drop_last()).push(expr_view(es.last()))
    }
}

impl View for Expr {
    type V = SExpr;

    open spec fn view(&self) -> SExpr {
        expr_view(*self)
    }
}

pub open spec fn opt_expr_view(e: Option<Expr>) -> Option<SExpr> {
    match e {
        Some(x) => Some(expr_view(x)),
        None => None,
    }
}

pub open spec fn stmt_view(s: Statement) -> SStatement
    decreases s,
{
    match s {
        Statement::Decl { name } => SStatement::Decl { name: name@ },
        Statement::DeclInit { name, init } => SStatement::DeclInit {
            name: name@,
            init: expr_view(*init),
        },
        Statement::Expr(e) => SStatement::Expr(expr_view(e)),
        Statement::Return(e) => SStatement::Return(opt_expr_view(e)),
        Statement::If { cond, then_body, else_body } => SStatement::If {
            cond: expr_view(cond),
            then_body: stmts_view(then_body@),
            else_body: match else_body {
                Some(b) => Some(stmts_view(b@)),
                None => None,
            },
        },
        Statement::While { cond, body } => SStatement::While {
            cond: expr_view(cond),
            body: stmts_view(body@),
        },
        Statement::For { init, cond, step, body } => SStatement::For {
            init: match init {
                Some(b) => Some(Box::new(stmt_view(*b))),
                None => None,
            },
            cond: opt_expr_view(cond),
            step: opt_expr_view(step),
            body: stmts_view(body@),
        },
    }
}

pub open spec fn stmts_view(ss: Seq<Statement>) -> Seq<SStatement>
    decreases ss,
{
    if ss.len() == 0 {
        Seq::empty()
    } else {
        stmts_view(ss.drop_last()).push(stmt_view(ss.last()))
    }
}

impl View for Statement {
    type V = SStatement;

    open spec fn view(&self) -> SStatement {
        stmt_view(*self)
    }
}

pub open spec fn names_view(ns: Seq<String>) -> Seq<Seq<char>> {
    ns.map_values(|n: String| n@)
}

impl View for Function {
    type V = SFunction;

    open spec fn view(&self) -> SFunction {
        SFunction { name: self.name@, params: names_view(self.params@), body: stmts_view(self.body@) }
    }
}

pub open spec fn functions_view(fs: Seq<Function>) -> Seq<SFunction> {
    fs.map_values(|f: Function| f@)
}

impl View for Program {
    type V = SProgram;

    open spec fn view(&self) -> SProgram {
        SProgram { functions: functions_view(self.functions@) }
    }
}

impl BinOp {
    /// The C spelling of the operator.
    pub open spec fn spec_symbol(self) -> Seq<char> {
        match self {
            BinOp::Add => "+"@,
            BinOp::Sub => "-"@,
            BinOp::Mul => "*"@,
            BinOp::Div => "/"@,
            BinOp::Mod => "%"@,
            BinOp::Eq => "=="@,
            BinOp::Ne => "!="@,
            BinOp::Lt => "<"@,
            BinOp::Le => "<="@,
            BinOp::Gt => ">"@,
            BinOp::Ge => ">="@,
            BinOp::AndAnd => "&&"@,
            BinOp::OrOr => "||"@,
        }
    }

    /// The C spelling of the operator (what the operator displays as).
    pub fn to_string(&self) -> (s: String)
        ensures
            s@ == self.spec_symbol(),
    {
        let t: &str = match self {
            BinOp::Add => "+",
            BinOp::Sub => "-",
            BinOp::Mul => "*",
            BinOp::Div => "/",
            BinOp::Mod => "%",
            BinOp::Eq => "==",
            BinOp::Ne => "!=",
            BinOp::Lt => "<",
            BinOp::Le => "<=",
            BinOp::Gt => ">",
            BinOp::Ge => ">=",
            BinOp::AndAnd => "&&",
            BinOp::OrOr => "||",
        };
        String::from_str(t)
    }
}

pub proof fn lemma_exprs_view(es: Seq<Expr>)
    ensures
        exprs_view(es).len() == es.len(),
        forall|k: int| 0 <= k < es.len() ==> #[trigger] exprs_view(es)[k] == expr_view(es[k]),
    decreases es.len(),
{
    if es.len() > 0 {
        lemma_exprs_view(es.drop_last());
    }
}

pub proof fn lemma_stmts_view(ss: Seq<Statement>)
    ensures
        stmts_view(ss).len() == ss.len(),
        forall|k: int| 0 <= k < ss.len() ==> #[trigger] stmts_view(ss)[k] == stmt_view(ss[k]),
    decreases ss.len(),
{
    if ss.len() > 0 {
        lemma_stmts_view(ss.drop_last());
    }
}

fn clone_expr(e: &Expr) -> (r: Expr)
    ensures
        r@ == e@,
    decreases e,
{
    match e {
        Expr::Number(n) => Expr::Number(*n),
        Expr::Ident(s) => Expr::Ident(s.clone()),
        Expr::BinOp { op, left, right } => Expr::BinOp {
            op: *op,
            left: Box::new(clone_expr(left)),
            right: Box::new(clone_expr(right)),
        },
        Expr::UnaryOp { op, operand } => Expr::UnaryOp { op: *op, operand: Box::new(clone_expr(operand)) },
        Expr::Assign { name, value } => Expr::Assign { name: name.clone(), value: Box::new(clone_expr(value)) },
        Expr::Call { name, args } => Expr::Call { name: name.clone(), args: clone_exprs(args) },
    }
}

fn clone_exprs(es: &Vec<Expr>) -> (r: Vec<Expr>)
    ensures
        exprs_view(r@) == exprs_view(es@),
    decreases es,
{
    let mut r: Vec<Expr> = Vec::new();
    let mut i: usize = 0;
    proof {
        lemma_exprs_view(es@);
    }
    assert(exprs_view(r@) == exprs_view(es@.take(0)));
    while i < es.len()
        invariant
            i <= es.len(),
            exprs_view(r@) == exprs_view(es@.take(i as int)),
        decreases es.len() - i,
    {
        let c = clone_expr(&es[i]);
        let ghost before = r@;
        r.push(c);
        assert(r@.drop_last() == before);
        assert(es@.take(i + 1).drop_last() == es@.take(i as int));
        i = i + 1;
    }
    assert(es@.take(es.len() as int) == es@);
    r
}

fn clone_opt_expr(e: &Option<Expr>) -> (r: Option<Expr>)
    ensures
        opt_expr_view(r) == opt_expr_view(*e),
{
    match e {
        Some(x) => Some(clone_expr(x)),
        None => None,
    }
}

fn clone_stmt(s: &Statement) -> (r: Statement)
    ensures
        r@ == s@,
    decreases s,
{
    match s {
        Statement::Decl { name } => Statement::Decl { name: name.clone() },
        Statement::DeclInit { name, init } => Statement::DeclInit {
            name: name.clone(),
            init: Box::new(clone_expr(init)),
        },
        Statement::Expr(e) => Statement::Expr(clone_expr(e)),
        Statement::Return(e) => Statement::Return(clone_opt_expr(e)),
        Statement::If { cond, then_body, else_body } => Statement::If {
            cond: clone_expr(cond),
            then_body: clone_stmts(then_body),
            else_body: match else_body {
                Some(b) => Some(clone_stmts(b)),
                None => None,
            },
        },
        Statement::While { cond, body } => Statement::While { cond: clone_expr(cond), body: clone_stmts(body) },
        Statement::For { init, cond, step, body } => Statement::For {
            init: match init {
                Some(b) => Some(Box::new(clone_stmt(b))),
                None => None,
            },
            cond: clone_opt_expr(cond),
            step: clone_opt_expr(step),
            body: clone_stmts(body),
        },
    }
}

fn clone_stmts(ss: &Vec<Statement>) -> (r: Vec<Statement>)
    ensures
        stmts_view(r@) == stmts_view(ss@),
    decreases ss,
{
    let mut r: Vec<Statement> = Vec::new();
    let mut i: usize = 0;
    assert(stmts_view(r@) == stmts_view(ss@.take(0)));
    while i < ss.len()
        invariant
            i <= ss.len(),
            stmts_view(r@) == stmts_view(ss@.take(i as int)),
        decreases ss.len() - i,
    {
        let c = clone_stmt(&ss[i]);
        let ghost before = r@;
        r.push(c);
        assert(r@.drop_last() == before);
        assert(ss@.take(i + 1).drop_last() == ss@.take(i as int));
        i = i + 1;
    }
    assert(ss@.take(ss.len() as int) == ss@);
    r
}

fn clone_names(ns: &Vec<String>) -> (r: Vec<String>)
    ensures
        names_view(r@) == names_view(ns@),
{
    let mut r: Vec<String> = Vec::new();
    let mut i: usize = 0;
    while i < ns.len()
        invariant
            i <= ns.len(),
            r@.len() == i,
            names_view(r@) == names_view(ns@.take(i as int)),
        decreases ns.len() - i,
    {
        let c = ns[i].clone();
        let ghost before = r@;
        r.push(c);
        assert forall|k: int| 0 <= k < i + 1 implies #[trigger] names_view(r@)[k] == names_view(ns@.take(i + 1))[k] by {
            if k < i {
                assert(names_view(before)[k] == names_view(ns@.take(i as int))[k]);
            }
        }
        assert(names_view(r@) =~= names_view(ns@.take(i + 1)));
        i = i + 1;
    }
    assert(ns@.take(ns.len() as int) == ns@);
    r
}

impl Clone for Expr {
    fn clone(&self) -> (r: Self)
        ensures
            r@ == self@,
    {
        clone_expr(self)
    }
}

impl Clone for Statement {
    fn clone(&self) -> (r: Self)
        ensures
            r@ == self@,
    {
        clone_stmt(self)
    }
}

impl Clone for Function {
    fn clone(&self) -> (r: Self)
        ensures
            r@ == self@,
    {
        Function { name: self.name.clone(), params: clone_names(&self.params), body: clone_stmts(&self.body) }
    }
}

impl Clone for Program {
    fn clone(&self) -> (r: Self)
        ensures
            r@ == self@,
    {
        let mut functions: Vec<Function> = Vec::new();
        let mut i: usize = 0;
        while i < self.functions.len()
            invariant
                i <= self.functions.len(),
                functions@.len() == i,
                functions_view(functions@) == functions_view(self.functions@.take(i as int)),
            decreases self.functions.len() - i,
        {
            let c = self.functions[i].clone();
            let ghost before = functions@;
            functions.push(c);
            assert forall|k: int| 0 <= k < i + 1 implies #[trigger] functions_view(functions@)[k]
                == functions_view(self.functions@.take(i + 1))[k] by {
                if k < i {
                    assert(functions_view(before)[k] == functions_view(self.functions@.take(i as int))[k]);
                }
            }
            assert(functions_view(functions@) =~= functions_view(self.functions@.take(i + 1)));
            i = i + 1;
        }
        assert(self.functions@.take(self.functions.len() as int) == self.functions@);
        Program { functions }
    }
}

} // verus!
