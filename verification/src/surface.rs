//! Surface AST — what the grammar produces before desugaring. Every form here
//! that is not already a kernel node lowers through [`crate::desugar`].

use crate::rational::{same_value, value_lt, Rational};
use vstd::prelude::*;

verus! {

/// A whole program: an optional `module` header and its statements.
#[derive(Debug, PartialEq)]
pub struct SProgram {
    pub header: Option<Vec<String>>,
    pub statements: Vec<SStmt>,
}

#[derive(Debug, PartialEq)]
pub enum SStmt {
    Binding(SBinding),
    Import { names: Option<Vec<String>>, module: Vec<String> },
    Where { name: String, inputs: Vec<SExpr>, ret: SExpr },
    At(SAt),
    Mutation { path: SPath, op: MutOp, value: SExpr },
    Expr(SExpr),
    /// `when guard => result` inside a block.
    WhenArm { guard: SExpr, result: SExpr },
    /// `=> result` inside a block.
    ElseArm { result: SExpr },
}

#[derive(Debug, PartialEq)]
pub struct SBinding {
    pub target: SBindTarget,
    pub value: SExpr,
    pub exported: bool,
}

#[derive(Debug, PartialEq)]
pub enum SBindTarget {
    Name(String),
    Tuple(Vec<SPatElem>),
    /// Fields and whether the pattern is exact.
    Record(Vec<SPatField>, bool),
}

/// A privileged `@op` declaration.
#[derive(Debug, PartialEq)]
pub enum SAt {
    Binding { op: String, binding: SBinding },
    Anon { op: String, arrow: SExpr },
}

#[derive(Debug, PartialEq)]
pub enum SExpr {
    Number(Rational),
    Str(Vec<u16>),
    Template(Vec<STemplatePart>),
    Ident(String),
    Hole(Hole),
    Grouping(Box<SExpr>),
    Tuple(Vec<SElem>),
    Record(Vec<SField>),
    Block(Vec<SStmt>),
    Arrow(SArrow),
    Hask(Box<SExpr>),
    Match { scrutinee: Box<SExpr>, arms: Vec<SArm> },
    Pipe { dir: PipeDir, left: Box<SExpr>, right: Box<SExpr> },
    Ternary { cond: Box<SExpr>, then: Box<SExpr>, els: Box<SExpr> },
    Binary { op: BinOp, left: Box<SExpr>, right: Box<SExpr> },
    Unary { op: UnOp, operand: Box<SExpr> },
    Access { target: Box<SExpr>, form: SAccessForm, total: bool },
    Call { callee: Box<SExpr>, args: Vec<SArg> },
}

#[derive(Debug, PartialEq)]
pub enum STemplatePart {
    Str(Vec<u16>),
    Interp(SExpr),
}

/// A hole: `_` or `_n`.
#[derive(Clone, Copy, Debug, PartialEq, Eq, Structural)]
pub enum Hole {
    Anon,
    Indexed(u32),
}

#[derive(Debug, PartialEq)]
pub enum SElem {
    Expr(SExpr),
    Spread(SExpr),
}

#[derive(Debug, PartialEq)]
pub enum SField {
    Shorthand(String),
    KeyValue(String, SExpr),
    Computed(SExpr, SExpr),
    Spread(SExpr),
}

#[derive(Debug, PartialEq)]
pub struct SArrow {
    pub params: Vec<SParam>,
    pub body: Box<SArrowBody>,
}

#[derive(Debug, PartialEq)]
pub enum SArrowBody {
    Expr(SExpr),
    Block(Vec<SStmt>),
}

#[derive(Debug, PartialEq)]
pub enum SParam {
    Ident(String),
    Tuple(Vec<SPatElem>),
    Record(Vec<SPatField>, bool),
    Rest(String),
}

#[derive(Debug, PartialEq)]
pub struct SArm {
    pub pattern: Option<SPattern>,
    pub guard: Option<SExpr>,
    pub result: SExpr,
}

#[derive(Debug, PartialEq)]
pub enum SPattern {
    Number(Rational),
    Str(Vec<u16>),
    /// `true`, `false` or `null`.
    Prelude(String),
    Bind(String),
    Wild,
    Contract(String),
    Tuple(Vec<SPatElem>),
    Record(Vec<SPatField>, bool),
    /// `^name`.
    Pin(String),
    /// `^_n`.
    PinHole(Hole),
    /// `p1 | p2 | ...`.
    Alt(Vec<SPattern>),
}

#[derive(Debug, PartialEq)]
pub enum SPatElem {
    Pat(SPattern),
    Rest(Option<String>),
}

#[derive(Debug, PartialEq)]
pub enum SPatField {
    /// `key: pat`, or the shorthand `key` (no pattern).
    Field(String, Option<SPattern>),
    Rest(Option<String>),
}

#[derive(Debug, PartialEq)]
pub enum SAccessForm {
    Field(String),
    Index(Box<SExpr>),
    Slice { lo: Option<Box<SExpr>>, hi: Option<Box<SExpr>> },
}

#[derive(Debug, PartialEq)]
pub enum SArg {
    Expr(SExpr),
    Spread(SExpr),
}

#[derive(Clone, Copy, Debug, PartialEq, Eq, Structural)]
pub enum PipeDir {
    Forward,
    Backward,
}

#[derive(Clone, Copy, Debug, PartialEq, Eq, Structural)]
pub enum BinOp {
    Eq,
    Ne,
    Lt,
    Le,
    Gt,
    Ge,
    Add,
    Sub,
    Mul,
    Div,
    Rem,
    Pow,
    And,
    Or,
    NullOr,
}

/// What a surface comparison says of two numbers `p` and `q` (fractions).
pub open spec fn op_compares(op: BinOp, p: (int, int), q: (int, int)) -> Option<bool> {
    match op {
        BinOp::Eq => Some(same_value(p, q)),
        BinOp::Ne => Some(!same_value(p, q)),
        BinOp::Lt => Some(value_lt(p, q)),
        BinOp::Le => Some(!value_lt(q, p)),
        BinOp::Gt => Some(value_lt(q, p)),
        BinOp::Ge => Some(!value_lt(p, q)),
        _ => None,
    }
}

/// The number a surface arithmetic operator computes from `p` and `q`, as a
/// fraction: the quotient and the remainder (its sign following the dividend)
/// only for a nonzero divisor, a power only for a whole exponent `>= 0`.
pub open spec fn op_computes(op: BinOp, p: (int, int), q: (int, int)) -> Option<(int, int)> {
    match op {
        BinOp::Add => Some((p.0 * q.1 + q.0 * p.1, p.1 * q.1)),
        BinOp::Sub => Some((p.0 * q.1 - q.0 * p.1, p.1 * q.1)),
        BinOp::Mul => Some((p.0 * q.0, p.1 * q.1)),
        BinOp::Div => if q.0 != 0 {
            Some((p.0 * q.1, p.1 * q.0))
        } else {
            None
        },
        BinOp::Rem => if q.0 != 0 {
            Some(crate::rational::frac_rem(p, q))
        } else {
            None
        },
        BinOp::Pow => if q.1 > 0 && q.0 >= 0 && q.0 % q.1 == 0 {
            Some(crate::contract::frac_pow(p, (q.0 / q.1) as nat))
        } else {
            None
        },
        _ => None,
    }
}

#[derive(Clone, Copy, Debug, PartialEq, Eq, Structural)]
pub enum UnOp {
    Neg,
    Not,
    /// `~`, the truthiness loosening.
    Loosen,
}

/// A mutation target path: a root name and field/index/slice segments.
#[derive(Debug, PartialEq)]
pub struct SPath {
    pub root: String,
    pub segments: Vec<SPathSeg>,
}

#[derive(Debug, PartialEq)]
pub enum SPathSeg {
    Field(String),
    Index(SExpr),
    Slice { lo: Option<SExpr>, hi: Option<SExpr> },
}

/// A mutation operator: `:=` or a compound `op:=`.
#[derive(Clone, Copy, Debug, PartialEq, Eq, Structural)]
pub enum MutOp {
    Assign,
    Add,
    Sub,
    Mul,
    Div,
    Rem,
    Pow,
    And,
    Or,
    Null,
}

} // verus!
