//! Syntax tree of expressions.
use vstd::prelude::*;

use crate::text::strings_view;

verus! {

#[derive(Debug, PartialEq)]
pub enum Expr {
    Int(i64),
    Bool(bool),
    Str(String),
    Ident(IdentPath),
    EnumVariant { ty: String, variant: String },
    SetLiteral(Vec<Expr>),
    In { elem: Box<Expr>, set: Box<Expr> },
    SetOp { op: SetOp, lhs: Box<Expr>, rhs: Box<Expr> },
    Cardinality(Box<Expr>),
    Interval(IntervalExpr),
    Infinity(InfinityKind),
    Lambda { params: Vec<String>, body: Box<Expr> },
    Call(Call),
    Pipe { lhs: Box<Expr>, call: Call },
    WithSemiring { name: String, body: Box<Expr> },
    Unary { op: UOp, expr: Box<Expr> },
    Binary { left: Box<Expr>, op: BOp, right: Box<Expr> },
}

#[derive(Debug, PartialEq)]
pub struct IntervalExpr {
    pub lo: BoundExpr,
    pub hi: BoundExpr,
}

#[derive(Debug, PartialEq)]
pub enum BoundExpr {
    Open(Box<Expr>),
    Closed(Box<Expr>),
    NegInf,
    PosInf,
}

#[derive(Debug, Clone, Copy, PartialEq, Eq)]
pub enum InfinityKind {
    Negative,
    Positive,
}

#[derive(Debug, PartialEq)]
pub struct Call {
    pub func: String,
    pub args: Vec<Expr>,
}

#[derive(Debug, Clone, Copy, PartialEq, Eq)]
pub enum SetOp {
    Union,
    Intersect,
    Diff,
}

#[derive(Debug, Clone, Copy, PartialEq, Eq)]
pub enum BOp {
    // arithmetic
    Add,
    Sub,
    Mul,
    Div,
    Rem,
    // comparisons
    Lt,
    Le,
    Gt,
    Ge,
    // equality
    Eq,
    Ne,
    // logical operators
    And,
    Or,
}

#[derive(Debug, Clone, Copy, PartialEq, Eq)]
pub enum UOp {
    Not,
    Neg,
}

#[derive(Debug, PartialEq)]
pub struct IdentPath(pub Vec<String>);

// ---------- Mathematical form ----------

pub enum ExprModel {
    Int(i64),
    Bool(bool),
    Str(Seq<char>),
    Ident(Seq<Seq<char>>),
    EnumVariant { ty: Seq<char>, variant: Seq<char> },
    SetLiteral(Seq<ExprModel>),
    In { elem: Box<ExprModel>, set: Box<ExprModel> },
    SetOp { op: SetOp, lhs: Box<ExprModel>, rhs: Box<ExprModel> },
    Cardinality(Box<ExprModel>),
    Interval { lo: BoundExprModel, hi: BoundExprModel },
    Infinity(InfinityKind),
    Lambda { params: Seq<Seq<char>>, body: Box<ExprModel> },
    Call(CallModel),
    Pipe { lhs: Box<ExprModel>, call: CallModel },
    WithSemiring { name: Seq<char>, body: Box<ExprModel> },
    Unary { op: UOp, expr: Box<ExprModel> },
    Binary { left: Box<ExprModel>, op: BOp, right: Box<ExprModel> },
}

pub enum BoundExprModel {
    Open(Box<ExprModel>),
    Closed(Box<ExprModel>),
    NegInf,
    PosInf,
}

pub struct CallModel {
    pub func: Seq<char>,
    pub args: Seq<ExprModel>,
}

pub open spec fn expr_model(e: Expr) -> ExprModel
    decreases e, 0nat,
{
    match e {
        Expr::Int(n) => ExprModel::Int(n),
        Expr::Bool(b) => ExprModel::Bool(b),
        Expr::Str(s) => ExprModel::Str(s@),
        Expr::Ident(p) => ExprModel::Ident(strings_view(p.0@)),
        Expr::EnumVariant { ty, variant } => ExprModel::EnumVariant { ty: ty@, variant: variant@ },
        Expr::SetLiteral(v) => ExprModel::SetLiteral(exprs_model(v@)),
        Expr::In { elem, set } => ExprModel::In {
            elem: Box::new(expr_model(*elem)),
            set: Box::new(expr_model(*set)),
        },
        Expr::SetOp { op, lhs, rhs } => ExprModel::SetOp {
            op,
            lhs: Box::new(expr_model(*lhs)),
            rhs: Box::new(expr_model(*rhs)),
        },
        Expr::Cardinality(x) => ExprModel::Cardinality(Box::new(expr_model(*x))),
        Expr::Interval(iv) => ExprModel::Interval {
            lo: bound_model(iv.lo),
            hi: bound_model(iv.hi),
        },
        Expr::Infinity(k) => ExprModel::Infinity(k),
        Expr::Lambda { params, body } => ExprModel::Lambda {
            params: strings_view(params@),
            body: Box::new(expr_model(*body)),
        },
        Expr::Call(c) => ExprModel::Call(CallModel { func: c.func@, args: exprs_model(c.args@) }),
        Expr::Pipe { lhs, call } => ExprModel::Pipe {
            lhs: Box::new(expr_model(*lhs)),
            call: CallModel { func: call.func@, args: exprs_model(call.args@) },
        },
        Expr::WithSemiring { name, body } => ExprModel::WithSemiring {
            name: name@,
            body: Box::new(expr_model(*body)),
        },
        Expr::Unary { op, expr } => ExprModel::Unary { op, expr: Box::new(expr_model(*expr)) },
        Expr::Binary { left, op, right } => ExprModel::Binary {
            left: Box::new(expr_model(*left)),
            op,
            right: Box::new(expr_model(*right)),
        },
    }
}

pub open spec fn bound_model(b: BoundExpr) -> BoundExprModel
    decreases b, 0nat,
{
    match b {
        BoundExpr::Open(x) => BoundExprModel::Open(Box::new(expr_model(*x))),
        BoundExpr::Closed(x) => BoundExprModel::Closed(Box::new(expr_model(*x))),
        BoundExpr::NegInf => BoundExprModel::NegInf,
        BoundExpr::PosInf => BoundExprModel::PosInf,
    }
}

pub open spec fn exprs_model(s: Seq<Expr>) -> Seq<ExprModel>
    decreases s, s.len(),
{
    if s.len() == 0 {
        Seq::empty()
    } else {
        exprs_model(s.subrange(0, s.len() - 1)).push(expr_model(s[s.len() - 1]))
    }
}

impl View for Expr {
    type V = ExprModel;

    open spec fn view(&self) -> ExprModel {
        expr_model(*self)
    }
}

impl View for BoundExpr {
    type V = BoundExprModel;

    open spec fn view(&self) -> BoundExprModel {
        bound_model(*self)
    }
}

pub proof fn lemma_exprs_model(s: Seq<Expr>)
    ensures
        exprs_model(s).len() == s.len(),
        forall|i: int| 0 <= i < s.len() ==> #[trigger] exprs_model(s)[i] == expr_model(s[i]),
    decreases s.len(),
{
    if s.len() > 0 {
        lemma_exprs_model(s.subrange(0, s.len() - 1));
    }
}

pub proof fn lemma_exprs_model_push(s: Seq<Expr>, e: Expr)
    ensures
        exprs_model(s.push(e)) == exprs_model(s).push(expr_model(e)),
{
    assert(s.push(e).subrange(0, s.len() as int) =~= s);
}

// ---------- Sizes, used to measure recursion over expressions ----------

pub open spec fn esize(e: ExprModel) -> nat
    decreases e, 0nat,
{
    match e {
        ExprModel::SetLiteral(s) => 1 + esizes(s),
        ExprModel::In { elem, set } => 1 + esize(*elem) + esize(*set),
        ExprModel::SetOp { lhs, rhs, .. } => 1 + esize(*lhs) + esize(*rhs),
        ExprModel::Cardinality(x) => 1 + esize(*x),
        ExprModel::Interval { lo, hi } => 1 + bsize(lo) + bsize(hi),
        ExprModel::Lambda { body, .. } => 1 + esize(*body),
        ExprModel::Call(c) => 1 + esizes(c.args),
        ExprModel::Pipe { lhs, call } => 1 + esize(*lhs) + esizes(call.args),
        ExprModel::WithSemiring { body, .. } => 1 + esize(*body),
        ExprModel::Unary { expr, .. } => 1 + esize(*expr),
        ExprModel::Binary { left, right, .. } => 1 + esize(*left) + esize(*right),
        _ => 1,
    }
}

pub proof fn lemma_esize_pos(e: ExprModel)
    ensures
        esize(e) >= 1,
{
}

pub proof fn lemma_esizes_elem(s: Seq<ExprModel>, i: int)
    requires
        0 <= i < s.len(),
    ensures
        esize(s[i]) <= esizes(s),
    decreases s.len(),
{
    if i > 0 {
        lemma_esizes_elem(s.subrange(1, s.len() as int), i - 1);
    }
}

pub open spec fn bsize(b: BoundExprModel) -> nat
    decreases b, 0nat,
{
    match b {
        BoundExprModel::Open(x) => esize(*x),
        BoundExprModel::Closed(x) => esize(*x),
        _ => 0,
    }
}

pub open spec fn esizes(s: Seq<ExprModel>) -> nat
    decreases s, s.len(),
{
    if s.len() == 0 {
        0
    } else {
        esize(s[0]) + esizes(s.subrange(1, s.len() as int))
    }
}

// ---------- Copies ----------

pub fn copy_strings(v: &Vec<String>) -> (r: Vec<String>)
    ensures
        r@ == v@,
{
    let mut r: Vec<String> = Vec::new();
    let mut i: usize = 0;
    while i < v.len()
        invariant
            i <= v@.len(),
            r@ == v@.take(i as int),
        decreases v@.len() - i,
    {
        r.push(v[i].clone());
        i = i + 1;
        assert(r@ =~= v@.take(i as int));
    }
    assert(v@.take(i as int) =~= v@);
    r
}

pub fn copy_exprs(v: &Vec<Expr>) -> (r: Vec<Expr>)
    ensures
        exprs_model(r@) == exprs_model(v@),
    decreases v@,
{
    let mut r: Vec<Expr> = Vec::new();
    let mut i: usize = 0;
    while i < v.len()
        invariant
            i <= v@.len(),
            r@.len() == i,
            forall|k: int| 0 <= k < i ==> #[trigger] expr_model(r@[k]) == expr_model(v@[k]),
        decreases v@.len() - i,
    {
        let c = copy_expr(&v[i]);
        r.push(c);
        i = i + 1;
    }
    proof {
        lemma_exprs_model(r@);
        lemma_exprs_model(v@);
        assert(exprs_model(r@) =~= exprs_model(v@));
    }
    r
}

pub fn copy_bound(b: &BoundExpr) -> (r: BoundExpr)
    ensures
        r@ == b@,
    decreases b,
{
    match b {
        BoundExpr::Open(x) => BoundExpr::Open(Box::new(copy_expr(x))),
        BoundExpr::Closed(x) => BoundExpr::Closed(Box::new(copy_expr(x))),
        BoundExpr::NegInf => BoundExpr::NegInf,
        BoundExpr::PosInf => BoundExpr::PosInf,
    }
}

pub fn copy_call(c: &Call) -> (r: Call)
    ensures
        r.func@ == c.func@,
        exprs_model(r.args@) == exprs_model(c.args@),
    decreases c,
{
    Call { func: c.func.clone(), args: copy_exprs(&c.args) }
}

/// A copy of an expression.
pub fn copy_expr(e: &Expr) -> (r: Expr)
    ensures
        r@ == e@,
    decreases e,
{
    match e {
        Expr::Int(n) => Expr::Int(*n),
        Expr::Bool(b) => Expr::Bool(*b),
        Expr::Str(s) => Expr::Str(s.clone()),
        Expr::Ident(p) => Expr::Ident(IdentPath(copy_strings(&p.0))),
        Expr::EnumVariant { ty, variant } => Expr::EnumVariant {
            ty: ty.clone(),
            variant: variant.clone(),
        },
        Expr::SetLiteral(v) => Expr::SetLiteral(copy_exprs(v)),
        Expr::In { elem, set } => Expr::In {
            elem: Box::new(copy_expr(elem)),
            set: Box::new(copy_expr(set)),
        },
        Expr::SetOp { op, lhs, rhs } => Expr::SetOp {
            op: *op,
            lhs: Box::new(copy_expr(lhs)),
            rhs: Box::new(copy_expr(rhs)),
        },
        Expr::Cardinality(x) => Expr::Cardinality(Box::new(copy_expr(x))),
        Expr::Interval(iv) => Expr::Interval(
            IntervalExpr { lo: copy_bound(&iv.lo), hi: copy_bound(&iv.hi) },
        ),
        Expr::Infinity(k) => Expr::Infinity(*k),
        Expr::Lambda { params, body } => Expr::Lambda {
            params: copy_strings(params),
            body: Box::new(copy_expr(body)),
        },
        Expr::Call(c) => Expr::Call(copy_call(c)),
        Expr::Pipe { lhs, call } => Expr::Pipe {
            lhs: Box::new(copy_expr(lhs)),
            call: copy_call(call),
        },
        Expr::WithSemiring { name, body } => Expr::WithSemiring {
            name: name.clone(),
            body: Box::new(copy_expr(body)),
        },
        Expr::Unary { op, expr } => Expr::Unary { op: *op, expr: Box::new(copy_expr(expr)) },
        Expr::Binary { left, op, right } => Expr::Binary {
            left: Box::new(copy_expr(left)),
            op: *op,
            right: Box::new(copy_expr(right)),
        },
    }
}

impl Clone for Expr {
    fn clone(&self) -> (r: Self)
        ensures
            r@ == self@,
    {
        copy_expr(self)
    }
}

impl Clone for IntervalExpr {
    fn clone(&self) -> (r: Self)
        ensures
            r.lo@ == self.lo@,
            r.hi@ == self.hi@,
    {
        IntervalExpr { lo: copy_bound(&self.lo), hi: copy_bound(&self.hi) }
    }
}

impl Clone for BoundExpr {
    fn clone(&self) -> (r: Self)
        ensures
            r@ == self@,
    {
        copy_bound(self)
    }
}

impl Clone for Call {
    fn clone(&self) -> (r: Self)
        ensures
            r.func@ == self.func@,
            exprs_model(r.args@) == exprs_model(self.args@),
    {
        copy_call(self)
    }
}

impl Clone for IdentPath {
    fn clone(&self) -> (r: Self)
        ensures
            r.0@ == self.0@,
    {
        IdentPath(copy_strings(&self.0))
    }
}

} // verus!
