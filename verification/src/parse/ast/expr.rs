use vstd::prelude::*;
use vstd::std_specs::convert::TryFromSpecImpl;

use crate::parse::token::{Token, TokenTag};

verus! {

/// The binary operators of Lox expressions; `Seq` is the comma operator.
#[derive(Debug, Clone, Copy, PartialEq, Eq, Structural)]
pub enum BinOp {
    Eq,
    Neq,
    Lt,
    Lte,
    Gt,
    Gte,
    Plus,
    Minus,
    Times,
    Divide,
    Sequence,
}

/// The binary operator that a token kind stands for.
pub open spec fn bin_op_of(tag: TokenTag) -> Result<BinOp, ()> {
    match tag {
        TokenTag::EqualEqual => Ok(BinOp::Eq),
        TokenTag::BangEqual => Ok(BinOp::Neq),
        TokenTag::Less => Ok(BinOp::Lt),
        TokenTag::LessEqual => Ok(BinOp::Lte),
        TokenTag::Greater => Ok(BinOp::Gt),
        TokenTag::GreaterEqual => Ok(BinOp::Gte),
        TokenTag::Minus => Ok(BinOp::Minus),
        TokenTag::Plus => Ok(BinOp::Plus),
        TokenTag::Slash => Ok(BinOp::Divide),
        TokenTag::Star => Ok(BinOp::Times),
        TokenTag::Comma => Ok(BinOp::Sequence),
        _ => Err(()),
    }
}

impl TryFrom<&TokenTag> for BinOp {
    type Error = ();

    fn try_from(value: &TokenTag) -> (r: Result<Self, Self::Error>) {
        match value {
            TokenTag::EqualEqual => Ok(BinOp::Eq),
            TokenTag::BangEqual => Ok(BinOp::Neq),
            TokenTag::Less => Ok(BinOp::Lt),
            TokenTag::LessEqual => Ok(BinOp::Lte),
            TokenTag::Greater => Ok(BinOp::Gt),
            TokenTag::GreaterEqual => Ok(BinOp::Gte),
            TokenTag::Minus => Ok(BinOp::Minus),
            TokenTag::Plus => Ok(BinOp::Plus),
            TokenTag::Slash => Ok(BinOp::Divide),
            TokenTag::Star => Ok(BinOp::Times),
            TokenTag::Comma => Ok(BinOp::Sequence),
            _ => Err(()),
        }
    }
}

impl TryFromSpecImpl<&TokenTag> for BinOp {
    open spec fn obeys_try_from_spec() -> bool {
        true
    }

    open spec fn try_from_spec(v: &TokenTag) -> Result<Self, Self::Error> {
        bin_op_of(*v)
    }
}

impl TryFrom<&Token> for BinOp {
    type Error = ();

    fn try_from(value: &Token) -> (r: Result<Self, Self::Error>) {
        BinOp::try_from(&value.tag)
    }
}

impl TryFromSpecImpl<&Token> for BinOp {
    open spec fn obeys_try_from_spec() -> bool {
        true
    }

    open spec fn try_from_spec(v: &Token) -> Result<Self, Self::Error> {
        bin_op_of(v.tag)
    }
}

pub open spec fn bin_op_text(op: BinOp) -> Seq<char> {
    match op {
        BinOp::Eq => "=="@,
        BinOp::Neq => "!="@,
        BinOp::Lt => "<"@,
        BinOp::Lte => "<="@,
        BinOp::Gt => ">"@,
        BinOp::Gte => ">="@,
        BinOp::Plus => "+"@,
        BinOp::Minus => "-"@,
        BinOp::Times => "*"@,
        BinOp::Divide => "/"@,
        BinOp::Sequence => ","@,
    }
}

impl BinOp {
    /// The operator's symbol.
    pub fn symbol(&self) -> (s: &'static str)
        ensures
            s@ == bin_op_text(*self),
    {
        match self {
            BinOp::Eq => "==",
            BinOp::Neq => "!=",
            BinOp::Lt => "<",
            BinOp::Lte => "<=",
            BinOp::Gt => ">",
            BinOp::Gte => ">=",
            BinOp::Plus => "+",
            BinOp::Minus => "-",
            BinOp::Times => "*",
            BinOp::Divide => "/",
            BinOp::Sequence => ",",
        }
    }

    /// The operator as it is displayed: its symbol between two spaces.
    pub fn to_string(&self) -> (s: String)
        ensures
            s@ == seq![' '] + bin_op_text(*self) + seq![' '],
    {
        let sp = " ";
        proof {
            reveal_strlit(" ");
        }
        let mut s = String::from_str(sp);
        s.append(self.symbol());
        s.append(sp);
        assert(s@ =~= seq![' '] + bin_op_text(*self) + seq![' ']);
        s
    }
}

/// The unary operators of Lox expressions.
#[derive(Debug, Clone, Copy, PartialEq, Eq, Structural)]
pub enum UnOp {
    Not,
    Neg,
}

pub open spec fn un_op_of(tag: TokenTag) -> Result<UnOp, ()> {
    match tag {
        TokenTag::Bang => Ok(UnOp::Not),
        TokenTag::Minus => Ok(UnOp::Neg),
        _ => Err(()),
    }
}

impl TryFrom<&TokenTag> for UnOp {
    type Error = ();

    fn try_from(value: &TokenTag) -> (r: Result<Self, Self::Error>) {
        match value {
            TokenTag::Bang => Ok(UnOp::Not),
            TokenTag::Minus => Ok(UnOp::Neg),
            _ => Err(()),
        }
    }
}

impl TryFromSpecImpl<&TokenTag> for UnOp {
    open spec fn obeys_try_from_spec() -> bool {
        true
    }

    open spec fn try_from_spec(v: &TokenTag) -> Result<Self, Self::Error> {
        un_op_of(*v)
    }
}

impl TryFrom<&Token> for UnOp {
    type Error = ();

    fn try_from(value: &Token) -> (r: Result<Self, Self::Error>) {
        UnOp::try_from(&value.tag)
    }
}

impl TryFromSpecImpl<&Token> for UnOp {
    open spec fn obeys_try_from_spec() -> bool {
        true
    }

    open spec fn try_from_spec(v: &Token) -> Result<Self, Self::Error> {
        un_op_of(v.tag)
    }
}

pub open spec fn un_op_text(op: UnOp) -> Seq<char> {
    match op {
        UnOp::Not => "!"@,
        UnOp::Neg => "-"@,
    }
}

impl UnOp {
    /// The operator's symbol, as it is displayed.
    pub fn to_string(&self) -> (s: String)
        ensures
            s@ == un_op_text(*self),
    {
        match self {
            UnOp::Not => String::from_str("!"),
            UnOp::Neg => String::from_str("-"),
        }
    }
}

/// A Lox expression. A number literal holds the text it was written with.
#[derive(Debug)]
#[allow(inconsistent_fields)]
pub enum Expr {
    NumLiteral { val: String },
    StrLiteral { val: String },
    BoolLiteral { val: bool },
    Nil,
    Unary { op: UnOp, arg: Box<Expr> },
    Binary { op: BinOp, lhs: Box<Expr>, rhs: Box<Expr> },
    Grouping { val: Box<Expr> },
    Ternary { cond: Box<Expr>, then_branch: Box<Expr>, else_branch: Box<Expr> },
}

/// The mathematical value of an [`Expr`].
pub enum ExprV {
    NumLiteral(Seq<char>),
    StrLiteral(Seq<char>),
    BoolLiteral(bool),
    Nil,
    Unary(UnOp, Box<ExprV>),
    Binary(BinOp, Box<ExprV>, Box<ExprV>),
    Grouping(Box<ExprV>),
    Ternary(Box<ExprV>, Box<ExprV>, Box<ExprV>),
}

impl Expr {
    pub open spec fn model(&self) -> ExprV
        decreases self,
    {
        match self {
            Expr::NumLiteral { val } => ExprV::NumLiteral(val@),
            Expr::StrLiteral { val } => ExprV::StrLiteral(val@),
            Expr::BoolLiteral { val } => ExprV::BoolLiteral(*val),
            Expr::Nil => ExprV::Nil,
            Expr::Unary { op, arg } => ExprV::Unary(*op, Box::new(arg.model())),
            Expr::Binary { op, lhs, rhs } => ExprV::Binary(*op, Box::new(lhs.model()), Box::new(rhs.model())),
            Expr::Grouping { val } => ExprV::Grouping(Box::new(val.model())),
            Expr::Ternary { cond, then_branch, else_branch } => ExprV::Ternary(
                Box::new(cond.model()),
                Box::new(then_branch.model()),
                Box::new(else_branch.model()),
            ),
        }
    }
}

impl View for Expr {
    type V = ExprV;

    open spec fn view(&self) -> ExprV {
        self.model()
    }
}

pub open spec fn unary_v(op: UnOp, arg: ExprV) -> ExprV {
    ExprV::Unary(op, Box::new(arg))
}

pub open spec fn binary_v(op: BinOp, lhs: ExprV, rhs: ExprV) -> ExprV {
    ExprV::Binary(op, Box::new(lhs), Box::new(rhs))
}

pub open spec fn grouping_v(val: ExprV) -> ExprV {
    ExprV::Grouping(Box::new(val))
}

pub open spec fn ternary_v(c: ExprV, t: ExprV, e: ExprV) -> ExprV {
    ExprV::Ternary(Box::new(c), Box::new(t), Box::new(e))
}

/// The text of an expression, as `Display` writes it: operators between
/// spaces, groupings in parentheses, literals as they are.
pub open spec fn expr_text(e: ExprV) -> Seq<char>
    decreases e,
{
    match e {
        ExprV::NumLiteral(v) => v,
        ExprV::StrLiteral(v) => v,
        ExprV::BoolLiteral(b) => if b {
            "true"@
        } else {
            "false"@
        },
        ExprV::Nil => "nil"@,
        ExprV::Unary(op, arg) => un_op_text(op) + expr_text(*arg),
        ExprV::Binary(op, lhs, rhs) => expr_text(*lhs) + seq![' '] + bin_op_text(op) + seq![' ']
            + expr_text(*rhs),
        ExprV::Grouping(val) => seq!['('] + expr_text(*val) + seq![')'],
        ExprV::Ternary(c, t, f) => expr_text(*c) + " ? "@ + expr_text(*t) + " : "@ + expr_text(*f),
    }
}

impl Expr {
    pub fn tr() -> (e: Expr)
        ensures
            e@ == ExprV::BoolLiteral(true),
    {
        Expr::BoolLiteral { val: true }
    }

    pub fn fls() -> (e: Expr)
        ensures
            e@ == ExprV::BoolLiteral(false),
    {
        Expr::BoolLiteral { val: false }
    }

    pub fn unary(op: UnOp, arg: Expr) -> (e: Expr)
        ensures
            e@ == unary_v(op, arg@),
    {
        Expr::Unary { op, arg: Box::new(arg) }
    }

    pub fn binary(op: BinOp, lhs: Expr, rhs: Expr) -> (e: Expr)
        ensures
            e@ == binary_v(op, lhs@, rhs@),
    {
        Expr::Binary { op, lhs: Box::new(lhs), rhs: Box::new(rhs) }
    }

    pub fn grouping(val: Expr) -> (e: Expr)
        ensures
            e@ == grouping_v(val@),
    {
        Expr::Grouping { val: Box::new(val) }
    }

    pub fn ternary(cond: Expr, then_branch: Expr, else_branch: Expr) -> (e: Expr)
        ensures
            e@ == ternary_v(cond@, then_branch@, else_branch@),
    {
        Expr::Ternary {
            cond: Box::new(cond),
            then_branch: Box::new(then_branch),
            else_branch: Box::new(else_branch),
        }
    }

    /// The text of the expression.
    pub fn to_string(&self) -> (s: String)
        ensures
            s@ == expr_text(self@),
        decreases self,
    {
        match self {
            Expr::NumLiteral { val } => val.clone(),
            Expr::StrLiteral { val } => val.clone(),
            Expr::BoolLiteral { val } => if *val {
                String::from_str("true")
            } else {
                String::from_str("false")
            },
            Expr::Nil => String::from_str("nil"),
            Expr::Unary { op, arg } => {
                let mut s = op.to_string();
                s.append(arg.to_string().as_str());
                s
            },
            Expr::Binary { op, lhs, rhs } => {
                let mut s = lhs.to_string();
                s.append(op.to_string().as_str());
                s.append(rhs.to_string().as_str());
                assert(s@ =~= expr_text(self@));
                s
            },
            Expr::Grouping { val } => {
                let open = "(";
                let close = ")";
                proof {
                    reveal_strlit("(");
                    reveal_strlit(")");
                }
                let mut s = String::from_str(open);
                s.append(val.to_string().as_str());
                s.append(close);
                assert(s@ =~= expr_text(self@));
                s
            },
            Expr::Ternary { cond, then_branch, else_branch } => {
                let mut s = cond.to_string();
                s.append(" ? ");
                s.append(then_branch.to_string().as_str());
                s.append(" : ");
                s.append(else_branch.to_string().as_str());
                s
            },
        }
    }
}

} // verus!
