//! The precedence and associativity of Lox's binary operators, as the
//! parser applies them to three operands.
use vstd::prelude::*;

use crate::parse::ast::expr::{BinOp, ExprV, UnOp};
use crate::parse::parse::parser::{is_tag, level_ops, op_at, parse_level, parse_rest, parse_spec};
use crate::parse::token::{TokenTag, TokenV};

verus! {

/// How tightly a binary operator binds: factors (`*`, `/`) tightest, then
/// terms (`+`, `-`), comparisons, equalities, and the sequence `,` loosest;
/// 0 for a token that is no binary operator.
pub open spec fn binding(tag: TokenTag) -> int {
    match tag {
        TokenTag::Star | TokenTag::Slash => 5,
        TokenTag::Plus | TokenTag::Minus => 4,
        TokenTag::Greater | TokenTag::GreaterEqual | TokenTag::Less | TokenTag::LessEqual => 3,
        TokenTag::EqualEqual | TokenTag::BangEqual => 2,
        TokenTag::Comma => 1,
        _ => 0,
    }
}

/// The operator that a binary operator token is read as.
pub open spec fn named_op(tag: TokenTag) -> BinOp {
    match tag {
        TokenTag::Star => BinOp::Times,
        TokenTag::Slash => BinOp::Divide,
        TokenTag::Plus => BinOp::Plus,
        TokenTag::Minus => BinOp::Minus,
        TokenTag::Greater => BinOp::Gt,
        TokenTag::GreaterEqual => BinOp::Gte,
        TokenTag::Less => BinOp::Lt,
        TokenTag::LessEqual => BinOp::Lte,
        TokenTag::EqualEqual => BinOp::Eq,
        TokenTag::BangEqual => BinOp::Neq,
        _ => BinOp::Sequence,
    }
}

pub open spec fn bin(op: BinOp, l: ExprV, r: ExprV) -> ExprV {
    ExprV::Binary(op, Box::new(l), Box::new(r))
}

/// The parser's level of a binary operator.
spec fn lvl(tag: TokenTag) -> nat {
    match tag {
        TokenTag::Star | TokenTag::Slash => 2,
        TokenTag::Plus | TokenTag::Minus => 3,
        TokenTag::Greater | TokenTag::GreaterEqual | TokenTag::Less | TokenTag::LessEqual => 4,
        TokenTag::EqualEqual | TokenTag::BangEqual => 5,
        _ => 7,
    }
}

proof fn lemma_levels(tag: TokenTag, k: nat)
    requires
        binding(tag) > 0,
        k != 1,
    ensures
        level_ops(k, tag) <==> k == lvl(tag),
        crate::parse::ast::expr::bin_op_of(tag) == Ok::<BinOp, ()>(named_op(tag)),
        tag != TokenTag::EOF,
        tag != TokenTag::Question,
{
}

/// Three number tokens with two operators between them, then the end.
pub open spec fn three(a: TokenV, o1: TokenV, b: TokenV, o2: TokenV, c: TokenV, z: TokenV) -> bool {
    &&& a.tag == TokenTag::Number
    &&& b.tag == TokenTag::Number
    &&& c.tag == TokenTag::Number
    &&& binding(o1.tag) > 0
    &&& binding(o2.tag) > 0
    &&& z.tag == TokenTag::EOF
}

proof fn lemma_c(ts: Seq<TokenV>, f: Seq<char>, k: nat)
    requires
        ts.len() == 6,
        three(ts[0], ts[1], ts[2], ts[3], ts[4], ts[5]),
        k <= 7,
    ensures
        parse_level(ts, f, k, 4) == Ok::<(ExprV, int), crate::parse::parse::err::ParseErrV>(
            (ExprV::NumLiteral(ts[4].lexeme), 5),
        ),
    decreases k,
{
    let nc = ExprV::NumLiteral(ts[4].lexeme);
    if k == 0 {
        assert(ts[4].tag == TokenTag::Number);
        assert(!is_tag(ts, 4, TokenTag::True));
        assert(is_tag(ts, 4, TokenTag::Number));
    } else {
        lemma_c(ts, f, (k - 1) as nat);
        if k == 1 {
            assert(!op_at(ts, 1, 4));
        } else if k == 6 {
            assert(!is_tag(ts, 5, TokenTag::Question));
        } else {
            assert(!op_at(ts, k, 5));
            assert(parse_rest(ts, f, k, nc, 5) == Ok::<(ExprV, int), crate::parse::parse::err::ParseErrV>((nc, 5)));
        }
    }
}

spec fn exp_b(ts: Seq<TokenV>, k: nat) -> (ExprV, int) {
    let nb = ExprV::NumLiteral(ts[2].lexeme);
    let nc = ExprV::NumLiteral(ts[4].lexeme);
    if k < lvl(ts[3].tag) {
        (nb, 3)
    } else {
        (bin(named_op(ts[3].tag), nb, nc), 5)
    }
}

proof fn lemma_b(ts: Seq<TokenV>, f: Seq<char>, k: nat)
    requires
        ts.len() == 6,
        three(ts[0], ts[1], ts[2], ts[3], ts[4], ts[5]),
        k <= 7,
    ensures
        parse_level(ts, f, k, 2) == Ok::<(ExprV, int), crate::parse::parse::err::ParseErrV>(exp_b(ts, k)),
    decreases k,
{
    let o2 = ts[3].tag;
    let nb = ExprV::NumLiteral(ts[2].lexeme);
    let nc = ExprV::NumLiteral(ts[4].lexeme);
    lemma_levels(o2, 0);
    if k == 0 {
        assert(!is_tag(ts, 2, TokenTag::True));
        assert(is_tag(ts, 2, TokenTag::Number));
    } else {
        lemma_b(ts, f, (k - 1) as nat);
        if k == 1 {
            assert(!op_at(ts, 1, 2));
        } else if k == 6 {
            assert(!is_tag(ts, 3, TokenTag::Question));
            assert(!is_tag(ts, 5, TokenTag::Question));
        } else {
            lemma_levels(o2, k);
            let (lhs, j) = exp_b(ts, (k - 1) as nat);
            assert(!op_at(ts, k, 5));
            if j == 3 {
                if k == lvl(o2) {
                    lemma_c(ts, f, (k - 1) as nat);
                    let e = bin(named_op(o2), lhs, nc);
                    assert(parse_rest(ts, f, k, e, 5) == Ok::<(ExprV, int), crate::parse::parse::err::ParseErrV>((e, 5)));
                    assert(op_at(ts, k, 3));
                    assert(parse_rest(ts, f, k, lhs, 3) == Ok::<(ExprV, int), crate::parse::parse::err::ParseErrV>((e, 5)));
                } else {
                    assert(!op_at(ts, k, 3));
                    assert(parse_rest(ts, f, k, lhs, 3) == Ok::<(ExprV, int), crate::parse::parse::err::ParseErrV>((lhs, 3)));
                }
            } else {
                assert(parse_rest(ts, f, k, lhs, 5) == Ok::<(ExprV, int), crate::parse::parse::err::ParseErrV>((lhs, 5)));
            }
        }
    }
}

spec fn exp_a(ts: Seq<TokenV>, k: nat) -> (ExprV, int) {
    let na = ExprV::NumLiteral(ts[0].lexeme);
    let nb = ExprV::NumLiteral(ts[2].lexeme);
    let nc = ExprV::NumLiteral(ts[4].lexeme);
    let k1 = lvl(ts[1].tag);
    let k2 = lvl(ts[3].tag);
    let p1 = named_op(ts[1].tag);
    let p2 = named_op(ts[3].tag);
    if k1 <= k2 {
        if k < k1 {
            (na, 1)
        } else if k < k2 {
            (bin(p1, na, nb), 3)
        } else {
            (bin(p2, bin(p1, na, nb), nc), 5)
        }
    } else {
        if k < k1 {
            (na, 1)
        } else {
            (bin(p1, na, bin(p2, nb, nc)), 5)
        }
    }
}

#[verifier::rlimit(80)]
#[verifier::spinoff_prover]
proof fn lemma_a(ts: Seq<TokenV>, f: Seq<char>, k: nat)
    requires
        ts.len() == 6,
        three(ts[0], ts[1], ts[2], ts[3], ts[4], ts[5]),
        k <= 7,
    ensures
        parse_level(ts, f, k, 0) == Ok::<(ExprV, int), crate::parse::parse::err::ParseErrV>(exp_a(ts, k)),
    decreases k,
{
    let o1 = ts[1].tag;
    let o2 = ts[3].tag;
    let na = ExprV::NumLiteral(ts[0].lexeme);
    let nc = ExprV::NumLiteral(ts[4].lexeme);
    lemma_levels(o1, 0);
    lemma_levels(o2, 0);
    if k == 0 {
        assert(!is_tag(ts, 0, TokenTag::True));
        assert(is_tag(ts, 0, TokenTag::Number));
    } else {
        lemma_a(ts, f, (k - 1) as nat);
        if k == 1 {
            assert(!op_at(ts, 1, 0));
        } else if k == 6 {
            assert(!is_tag(ts, 1, TokenTag::Question));
            assert(!is_tag(ts, 3, TokenTag::Question));
            assert(!is_tag(ts, 5, TokenTag::Question));
        } else {
            lemma_levels(o1, k);
            lemma_levels(o2, k);
            let (lhs, j) = exp_a(ts, (k - 1) as nat);
            assert(!op_at(ts, k, 5));
            if j == 1 {
                if k == lvl(o1) {
                    lemma_b(ts, f, (k - 1) as nat);
                    let (r, m) = exp_b(ts, (k - 1) as nat);
                    let e = bin(named_op(o1), na, r);
                    assert(op_at(ts, k, 1));
                    if m == 3 {
                        if k == lvl(o2) {
                            lemma_c(ts, f, (k - 1) as nat);
                            let e2 = bin(named_op(o2), e, nc);
                            assert(op_at(ts, k, 3));
                            assert(parse_rest(ts, f, k, e2, 5) == Ok::<(ExprV, int), crate::parse::parse::err::ParseErrV>((e2, 5)));
                            assert(parse_rest(ts, f, k, e, 3) == Ok::<(ExprV, int), crate::parse::parse::err::ParseErrV>((e2, 5)));
                        } else {
                            assert(!op_at(ts, k, 3));
                            assert(parse_rest(ts, f, k, e, 3) == Ok::<(ExprV, int), crate::parse::parse::err::ParseErrV>((e, 3)));
                        }
                    } else {
                        assert(parse_rest(ts, f, k, e, 5) == Ok::<(ExprV, int), crate::parse::parse::err::ParseErrV>((e, 5)));
                    }
                    assert(parse_rest(ts, f, k, na, 1) == Ok::<(ExprV, int), crate::parse::parse::err::ParseErrV>(exp_a(ts, k)));
                } else {
                    assert(!op_at(ts, k, 1));
                    assert(parse_rest(ts, f, k, lhs, 1) == Ok::<(ExprV, int), crate::parse::parse::err::ParseErrV>((lhs, 1)));
                }
            } else if j == 3 {
                if k == lvl(o2) {
                    lemma_c(ts, f, (k - 1) as nat);
                    let e2 = bin(named_op(o2), lhs, nc);
                    assert(op_at(ts, k, 3));
                    assert(parse_rest(ts, f, k, e2, 5) == Ok::<(ExprV, int), crate::parse::parse::err::ParseErrV>((e2, 5)));
                    assert(parse_rest(ts, f, k, lhs, 3) == Ok::<(ExprV, int), crate::parse::parse::err::ParseErrV>((e2, 5)));
                } else {
                    assert(!op_at(ts, k, 3));
                    assert(parse_rest(ts, f, k, lhs, 3) == Ok::<(ExprV, int), crate::parse::parse::err::ParseErrV>((lhs, 3)));
                }
            } else {
                assert(parse_rest(ts, f, k, lhs, 5) == Ok::<(ExprV, int), crate::parse::parse::err::ParseErrV>((lhs, 5)));
            }
        }
    }
}

/// The precedence of the binary operators: of `a o1 b o2 c`, with numbers
/// `a`, `b`, `c`, the operator that binds tighter takes its neighbours
/// first, and of two that bind alike the left one does: `1 + 2 < 3` is
/// `(1 + 2) < 3`, `1 < 2 + 3` is `1 < (2 + 3)`, `1 - 2 - 3` is `(1 - 2) - 3`.
pub proof fn law_binary_precedence(
    a: TokenV,
    o1: TokenV,
    b: TokenV,
    o2: TokenV,
    c: TokenV,
    z: TokenV,
    f: Seq<char>,
)
    requires
        three(a, o1, b, o2, c, z),
    ensures
        ({
            let ts = seq![a, o1, b, o2, c, z];
            let na = ExprV::NumLiteral(a.lexeme);
            let nb = ExprV::NumLiteral(b.lexeme);
            let nc = ExprV::NumLiteral(c.lexeme);
            &&& binding(o1.tag) >= binding(o2.tag) ==> parse_spec(ts, f, 0) == Ok::<
                (ExprV, int),
                crate::parse::parse::err::ParseErrV,
            >((bin(named_op(o2.tag), bin(named_op(o1.tag), na, nb), nc), 5))
            &&& binding(o1.tag) < binding(o2.tag) ==> parse_spec(ts, f, 0) == Ok::<
                (ExprV, int),
                crate::parse::parse::err::ParseErrV,
            >((bin(named_op(o1.tag), na, bin(named_op(o2.tag), nb, nc)), 5))
        }),
{
    let ts = seq![a, o1, b, o2, c, z];
    assert(ts[0] == a && ts[1] == o1 && ts[2] == b && ts[3] == o2 && ts[4] == c && ts[5] == z);
    lemma_a(ts, f, 7);
}

/// The operator that a unary operator token is read as.
pub open spec fn named_un(tag: TokenTag) -> UnOp {
    match tag {
        TokenTag::Bang => UnOp::Not,
        _ => UnOp::Neg,
    }
}

proof fn lemma_unary_levels(ts: Seq<TokenV>, f: Seq<char>, k: nat)
    requires
        ts.len() == 3,
        ts[0].tag == TokenTag::Bang || ts[0].tag == TokenTag::Minus,
        ts[1].tag == TokenTag::Number,
        ts[2].tag == TokenTag::EOF,
        1 <= k <= 7,
    ensures
        parse_level(ts, f, k, 0) == Ok::<(ExprV, int), crate::parse::parse::err::ParseErrV>(
            (ExprV::Unary(named_un(ts[0].tag), Box::new(ExprV::NumLiteral(ts[1].lexeme))), 2),
        ),
    decreases k,
{
    let e = ExprV::Unary(named_un(ts[0].tag), Box::new(ExprV::NumLiteral(ts[1].lexeme)));
    if k == 1 {
        assert(op_at(ts, 1, 0));
        assert(!op_at(ts, 1, 1));
        assert(!is_tag(ts, 1, TokenTag::True));
        assert(is_tag(ts, 1, TokenTag::Number));
        assert(parse_level(ts, f, 0, 1) == Ok::<(ExprV, int), crate::parse::parse::err::ParseErrV>(
            (ExprV::NumLiteral(ts[1].lexeme), 2),
        ));
        assert(parse_level(ts, f, 1, 1) == Ok::<(ExprV, int), crate::parse::parse::err::ParseErrV>(
            (ExprV::NumLiteral(ts[1].lexeme), 2),
        ));
    } else {
        lemma_unary_levels(ts, f, (k - 1) as nat);
        if k == 6 {
            assert(!is_tag(ts, 2, TokenTag::Question));
        } else {
            assert(!op_at(ts, k, 2));
            assert(parse_rest(ts, f, k, e, 2) == Ok::<(ExprV, int), crate::parse::parse::err::ParseErrV>((e, 2)));
        }
    }
}

/// A unary operator applies to what follows it: `!` negates logically and
/// `-` arithmetically, so `-1` is `Unary(Neg, 1)` and `!1` is `Unary(Not, 1)`.
pub proof fn law_unary(o: TokenV, a: TokenV, z: TokenV, f: Seq<char>)
    requires
        o.tag == TokenTag::Bang || o.tag == TokenTag::Minus,
        a.tag == TokenTag::Number,
        z.tag == TokenTag::EOF,
    ensures
        parse_spec(seq![o, a, z], f, 0) == Ok::<(ExprV, int), crate::parse::parse::err::ParseErrV>(
            (ExprV::Unary(named_un(o.tag), Box::new(ExprV::NumLiteral(a.lexeme))), 2),
        ),
{
    let ts = seq![o, a, z];
    assert(ts[0] == o && ts[1] == a && ts[2] == z);
    lemma_unary_levels(ts, f, 7);
}

} // verus!
