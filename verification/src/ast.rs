//! The operators of the simple syntax tree.
use vstd::prelude::*;

verus! {

#[derive(Debug, Clone, Copy, PartialEq, Eq, Structural)]
pub enum BinOp {
    Eq,
    Neq,
    Lt,
    Lte,
    Gt,
    Gte,
    Plus,
    Minus,
    Times,
    Divide,
}

pub open spec fn bin_op_text(op: BinOp) -> Seq<char> {
    match op {
        BinOp::Eq => "=="@,
        BinOp::Neq => "!="@,
        BinOp::Lt => "<"@,
        BinOp::Lte => "<="@,
        BinOp::Gt => ">"@,
        BinOp::Gte => ">="@,
        BinOp::Plus => "+"@,
        BinOp::Minus => "-"@,
        BinOp::Times => "*"@,
        BinOp::Divide => "/"@,
    }
}

impl BinOp {
    /// The operator's symbol, as it is displayed.
    pub fn to_string(&self) -> (s: String)
        ensures
            s@ == bin_op_text(*self),
    {
        let op = match self {
            BinOp::Eq => "==",
            BinOp::Neq => "!=",
            BinOp::Lt => "<",
            BinOp::Lte => "<=",
            BinOp::Gt => ">",
            BinOp::Gte => ">=",
            BinOp::Plus => "+",
            BinOp::Minus => "-",
            BinOp::Times => "*",
            BinOp::Divide => "/",
        };
        String::from_str(op)
    }
}

#[derive(Debug, Clone, Copy, PartialEq, Eq, Structural)]
pub enum UnOp {
    Not,
    Neg,
}

pub open spec fn un_op_text(op: UnOp) -> Seq<char> {
    match op {
        UnOp::Not => "!"@,
        UnOp::Neg => "-"@,
    }
}

impl UnOp {
    /// The operator's symbol, as it is displayed.
    pub fn to_string(&self) -> (s: String)
        ensures
            s@ == un_op_text(*self),
    {
        let op = match self {
            UnOp::Not => "!",
            UnOp::Neg => "-",
        };
        String::from_str(op)
    }
}

} // verus!
