//! Reading back what is printed: the text of a parsed expression scans and
//! parses to the same expression.
use vstd::prelude::*;

use crate::format::pretty::is_ws;
use crate::parse::ast::expr::{bin_op_of, bin_op_text, expr_text, un_op_of, un_op_text, BinOp, ExprV, UnOp};
use crate::parse::lex::err::LexErrTag;
use crate::parse::lex::scan::{
    all_digits, alnum_end, at_end, digits_end, is_alnum, is_alpha, is_digit, is_num_lex, is_str_lex,
    keyword_tag, lemma_alnum_end_at, lemma_digits_end, lemma_digits_end_at, lemma_placed_pos_ok,
    lemma_position_bounds, lemma_scan_token, lemma_scan_token_placed, lemma_step_placed,
    lemma_str_stop_local, lemma_string_end_offset, lemma_ws_end, number_end, placed, position_of,
    scan_spec, scan_token_spec, scannable, step, str_stop, string_end, ws_end,
};
use crate::driver::{drop_comments, is_comment, lemma_drop_comments_eof};
use crate::parse::lex::scan::{law_scan_tokens, token_in_text};
use crate::parse::parse::parser::parse_spec;
use crate::parse::position::{start_pos, DocumentPosition};
use crate::parse::parse::parser::{
    eof_after, is_tag, lemma_eof_step, lemma_parse_level, lemma_parse_rest, op_at, parse_level,
    parse_rest,
};
use crate::parse::token::{TokenTag, TokenV};

verus! {

/// What parsing reads of a token: its kind, and the text of a literal.
pub open spec fn shape(t: TokenV) -> (TokenTag, Seq<char>) {
    (t.tag, if t.tag == TokenTag::Number || t.tag == TokenTag::String {
        t.lexeme
    } else {
        Seq::empty()
    })
}

pub open spec fn shapes(ts: Seq<TokenV>) -> Seq<(TokenTag, Seq<char>)> {
    ts.map_values(|t: TokenV| shape(t))
}

/// The shape of a token that carries no text of interest.
pub open spec fn bare(tag: TokenTag) -> (TokenTag, Seq<char>) {
    (tag, Seq::empty())
}

pub open spec fn un_tag(op: UnOp) -> TokenTag {
    match op {
        UnOp::Not => TokenTag::Bang,
        UnOp::Neg => TokenTag::Minus,
    }
}

pub open spec fn bin_tag(op: BinOp) -> TokenTag {
    match op {
        BinOp::Eq => TokenTag::EqualEqual,
        BinOp::Neq => TokenTag::BangEqual,
        BinOp::Lt => TokenTag::Less,
        BinOp::Lte => TokenTag::LessEqual,
        BinOp::Gt => TokenTag::Greater,
        BinOp::Gte => TokenTag::GreaterEqual,
        BinOp::Plus => TokenTag::Plus,
        BinOp::Minus => TokenTag::Minus,
        BinOp::Times => TokenTag::Star,
        BinOp::Divide => TokenTag::Slash,
        BinOp::Sequence => TokenTag::Comma,
    }
}

/// The shapes of the tokens that an expression is read from.
pub open spec fn shape_list(e: ExprV) -> Seq<(TokenTag, Seq<char>)>
    decreases e,
{
    match e {
        ExprV::NumLiteral(v) => seq![(TokenTag::Number, v)],
        ExprV::StrLiteral(v) => seq![(TokenTag::String, v)],
        ExprV::BoolLiteral(b) => seq![bare(if b { TokenTag::True } else { TokenTag::False })],
        ExprV::Nil => seq![bare(TokenTag::Nil)],
        ExprV::Unary(op, a) => seq![bare(un_tag(op))] + shape_list(*a),
        ExprV::Binary(op, l, r) => shape_list(*l) + seq![bare(bin_tag(op))] + shape_list(*r),
        ExprV::Grouping(v) => seq![bare(TokenTag::LeftParen)] + shape_list(*v) + seq![
            bare(TokenTag::RightParen),
        ],
        ExprV::Ternary(c, t, f) => shape_list(*c) + seq![bare(TokenTag::Question)] + shape_list(*t)
            + seq![bare(TokenTag::Colon)] + shape_list(*f),
    }
}

proof fn lemma_shape_op(ts: Seq<TokenV>, k: nat, j: int)
    requires
        op_at(ts, k, j),
        2 <= k <= 7,
    ensures
        shapes(ts)[j] == bare(bin_tag(bin_op_of(ts[j].tag)->Ok_0)),
{
}

/// A successful parse reads exactly the tokens of the expression it gives.
pub proof fn lemma_parse_shapes(ts: Seq<TokenV>, f: Seq<char>, k: nat, i: int)
    requires
        eof_after(ts, i),
    ensures
        parse_level(ts, f, k, i) matches Ok((e, j)) ==> shapes(ts).subrange(i, j) == shape_list(e),
    decreases ts.len() - i, k, 0nat,
{
    let ss = shapes(ts);
    lemma_parse_level(ts, f, k, i);
    if !(0 <= i < ts.len()) || k > 7 {
    } else if k == 0 {
        if is_tag(ts, i, TokenTag::LeftParen) {
            lemma_eof_step(ts, i);
            lemma_parse_level(ts, f, 7, i + 1);
            lemma_parse_shapes(ts, f, 7, i + 1);
            if let Ok((e, j)) = parse_level(ts, f, 7, i + 1) {
                if is_tag(ts, j, TokenTag::RightParen) {
                    assert(ss.subrange(i, j + 1) =~= seq![ss[i]] + ss.subrange(i + 1, j) + seq![ss[j]]);
                }
            }
        } else if let Ok((e, j)) = parse_level(ts, f, k, i) {
            assert(ss.subrange(i, j) =~= seq![ss[i]]);
        }
    } else if k == 1 {
        if op_at(ts, 1, i) {
            lemma_eof_step(ts, i);
            lemma_parse_level(ts, f, 1, i + 1);
            lemma_parse_shapes(ts, f, 1, i + 1);
            if let Ok((a, j)) = parse_level(ts, f, 1, i + 1) {
                assert(ss.subrange(i, j) =~= seq![ss[i]] + ss.subrange(i + 1, j));
            }
        } else {
            lemma_parse_shapes(ts, f, 0, i);
        }
    } else if k == 6 {
        lemma_parse_level(ts, f, 5, i);
        lemma_parse_shapes(ts, f, 5, i);
        if let Ok((c, j)) = parse_level(ts, f, 5, i) {
            if is_tag(ts, j, TokenTag::Question) && j >= i {
                lemma_eof_step(ts, j);
                lemma_parse_level(ts, f, 6, j + 1);
                lemma_parse_shapes(ts, f, 6, j + 1);
                if let Ok((t, m)) = parse_level(ts, f, 6, j + 1) {
                    if is_tag(ts, m, TokenTag::Colon) && m > j {
                        lemma_eof_step(ts, m);
                        lemma_parse_level(ts, f, 6, m + 1);
                        lemma_parse_shapes(ts, f, 6, m + 1);
                        if let Ok((x, n)) = parse_level(ts, f, 6, m + 1) {
                            assert(ss.subrange(i, n) =~= ss.subrange(i, j) + seq![ss[j]] + ss.subrange(
                                j + 1,
                                m,
                            ) + seq![ss[m]] + ss.subrange(m + 1, n));
                        }
                    }
                }
            }
        }
    } else {
        lemma_parse_level(ts, f, (k - 1) as nat, i);
        lemma_parse_shapes(ts, f, (k - 1) as nat, i);
        if let Ok((lhs, j)) = parse_level(ts, f, (k - 1) as nat, i) {
            if i < j <= ts.len() {
                assert(2 <= k);
                lemma_rest_shapes(ts, f, k, lhs, j, i);
            }
        }
    }
}

pub proof fn lemma_rest_shapes(ts: Seq<TokenV>, f: Seq<char>, k: nat, lhs: ExprV, j: int, i0: int)
    requires
        eof_after(ts, j),
        0 <= i0 <= j,
        2 <= k,
        shapes(ts).subrange(i0, j) == shape_list(lhs),
    ensures
        parse_rest(ts, f, k, lhs, j) matches Ok((e, n)) ==> shapes(ts).subrange(i0, n) == shape_list(e),
    decreases ts.len() - j, k, 1nat,
{
    let ss = shapes(ts);
    if op_at(ts, k, j) && 1 <= k <= 7 {
        lemma_eof_step(ts, j);
        lemma_parse_level(ts, f, (k - 1) as nat, j + 1);
        lemma_parse_shapes(ts, f, (k - 1) as nat, j + 1);
        if let Ok((r, m)) = parse_level(ts, f, (k - 1) as nat, j + 1) {
            let e = crate::parse::ast::expr::binary_v(bin_op_of(ts[j].tag)->Ok_0, lhs, r);
            lemma_shape_op(ts, k, j);
            assert(ss.subrange(i0, m) =~= ss.subrange(i0, j) + seq![ss[j]] + ss.subrange(j + 1, m));
            assert(ss.subrange(i0, m) == shape_list(e));
            if j < m <= ts.len() {
                lemma_rest_shapes(ts, f, k, e, m, i0);
            }
        }
    } else {
    }
}

/// `ts2` reads as `ts` does before index `j`; at `j` it reads as `ts` or
/// holds the end of file.
pub open spec fn reads_like(ts: Seq<TokenV>, ts2: Seq<TokenV>, j: int) -> bool {
    &&& 0 <= j < ts.len()
    &&& j < ts2.len()
    &&& forall|m: int|
        #![trigger ts[m]]
        #![trigger ts2[m]]
        0 <= m < j ==> shape(ts2[m]) == shape(ts[m])
    &&& (shape(ts2[j]) == shape(ts[j]) || ts2[j].tag == TokenTag::EOF)
}

proof fn lemma_reads_like_before(ts: Seq<TokenV>, ts2: Seq<TokenV>, j: int, x: int)
    requires
        reads_like(ts, ts2, j),
        0 <= x <= j,
    ensures
        reads_like(ts, ts2, x),
{
    if x < j {
        assert(shape(ts2[x]) == shape(ts[x]));
    }
}

/// A parse depends only on the shapes of the tokens it reads, and reads
/// the same where the token after it is replaced by the end of file.
pub proof fn lemma_parse_agree(ts: Seq<TokenV>, ts2: Seq<TokenV>, f: Seq<char>, k: nat, i: int, j: int)
    requires
        eof_after(ts, i),
        parse_level(ts, f, k, i) matches Ok((_, n)) && n == j,
        reads_like(ts, ts2, j),
    ensures
        parse_level(ts2, f, k, i) == parse_level(ts, f, k, i),
    decreases ts.len() - i, k, 0nat,
{
    lemma_parse_level(ts, f, k, i);
    assert(shape(ts2[i]) == shape(ts[i]));
    if k == 0 {
        if is_tag(ts, i, TokenTag::LeftParen) {
            lemma_eof_step(ts, i);
            lemma_parse_level(ts, f, 7, i + 1);
            if let Ok((e, j1)) = parse_level(ts, f, 7, i + 1) {
                lemma_reads_like_before(ts, ts2, j, j1);
                lemma_parse_agree(ts, ts2, f, 7, i + 1, j1);
                assert(shape(ts2[j1]) == shape(ts[j1]));
            }
        }
    } else if k == 1 {
        if op_at(ts, 1, i) {
            lemma_eof_step(ts, i);
            lemma_parse_agree(ts, ts2, f, 1, i + 1, j);
        } else {
            lemma_parse_agree(ts, ts2, f, 0, i, j);
        }
    } else if k == 6 {
        lemma_parse_level(ts, f, 5, i);
        let (c, j1) = parse_level(ts, f, 5, i)->Ok_0;
        if is_tag(ts, j1, TokenTag::Question) && j1 >= i {
            lemma_eof_step(ts, j1);
            lemma_parse_level(ts, f, 6, j1 + 1);
            let (t, m) = parse_level(ts, f, 6, j1 + 1)->Ok_0;
            lemma_eof_step(ts, m);
            lemma_parse_level(ts, f, 6, m + 1);
            lemma_reads_like_before(ts, ts2, j, j1);
            lemma_parse_agree(ts, ts2, f, 5, i, j1);
            assert(shape(ts2[j1]) == shape(ts[j1]));
            lemma_reads_like_before(ts, ts2, j, m);
            lemma_parse_agree(ts, ts2, f, 6, j1 + 1, m);
            assert(shape(ts2[m]) == shape(ts[m]));
            lemma_parse_agree(ts, ts2, f, 6, m + 1, j);
        } else {
            lemma_parse_agree(ts, ts2, f, 5, i, j);
        }
    } else {
        lemma_parse_level(ts, f, (k - 1) as nat, i);
        let (lhs, j1) = parse_level(ts, f, (k - 1) as nat, i)->Ok_0;
        lemma_parse_rest(ts, f, k, lhs, j1);
        lemma_reads_like_before(ts, ts2, j, j1);
        lemma_parse_agree(ts, ts2, f, (k - 1) as nat, i, j1);
        lemma_rest_agree(ts, ts2, f, k, lhs, j1, j);
    }
}

pub proof fn lemma_rest_agree(
    ts: Seq<TokenV>,
    ts2: Seq<TokenV>,
    f: Seq<char>,
    k: nat,
    lhs: ExprV,
    j0: int,
    j: int,
)
    requires
        eof_after(ts, j0),
        parse_rest(ts, f, k, lhs, j0) matches Ok((_, n)) && n == j,
        reads_like(ts, ts2, j),
    ensures
        parse_rest(ts2, f, k, lhs, j0) == parse_rest(ts, f, k, lhs, j0),
    decreases ts.len() - j0, k, 1nat,
{
    lemma_parse_rest(ts, f, k, lhs, j0);
    if op_at(ts, k, j0) && 1 <= k <= 7 {
        lemma_eof_step(ts, j0);
        lemma_parse_level(ts, f, (k - 1) as nat, j0 + 1);
        let (r, m) = parse_level(ts, f, (k - 1) as nat, j0 + 1)->Ok_0;
        let e = crate::parse::ast::expr::binary_v(bin_op_of(ts[j0].tag)->Ok_0, lhs, r);
        lemma_parse_rest(ts, f, k, e, m);
        assert(shape(ts2[j0]) == shape(ts[j0]));
        lemma_reads_like_before(ts, ts2, j, m);
        lemma_parse_agree(ts, ts2, f, (k - 1) as nat, j0 + 1, m);
        if j0 < m <= ts.len() {
            lemma_rest_agree(ts, ts2, f, k, e, m, j);
        }
    }
}

/// The shape of a token that the scanner gives and the parser reads: a
/// literal has the text of its kind, in ASCII; no token is a `?`, a `:` or
/// a comment.
pub open spec fn shape_ok(x: (TokenTag, Seq<char>)) -> bool {
    &&& x.0 == TokenTag::Number ==> is_num_lex(x.1) && vstd::utf8::is_ascii_chars(x.1)
    &&& x.0 == TokenTag::String ==> is_str_lex(x.1) && vstd::utf8::is_ascii_chars(x.1)
    &&& x.0 != TokenTag::Question && x.0 != TokenTag::Colon
    &&& x.0 != TokenTag::Comment && x.0 != TokenTag::InlineComment
}

pub open spec fn shapes_ok(ss: Seq<(TokenTag, Seq<char>)>) -> bool {
    forall|m: int| 0 <= m < ss.len() ==> shape_ok(#[trigger] ss[m])
}

/// A character that the text of an expression can start with.
pub open spec fn lead(c: char) -> bool {
    is_digit(c) || c == '"' || is_alpha(c) || c == '(' || c == '!' || c == '-'
}

/// A place where a printed expression may end: the end of the text, a
/// space or a closing parenthesis.
pub open spec fn ends_ok(s: Seq<char>, b: int) -> bool {
    b == s.len() || (0 <= b < s.len() && (s[b] == ' ' || s[b] == ')'))
}

/// What scanning the text from offset `x` on gives.
pub open spec fn scan_from(s: Seq<char>, f: Seq<char>, x: int) -> (Seq<TokenV>, Seq<crate::parse::lex::err::LexErrV>) {
    scan_spec(s, f, position_of(s, x))
}

proof fn lemma_shapes_ok_split(a: Seq<(TokenTag, Seq<char>)>, b: Seq<(TokenTag, Seq<char>)>)
    requires
        shapes_ok(a + b),
    ensures
        shapes_ok(a),
        shapes_ok(b),
{
    assert forall|m: int| 0 <= m < a.len() implies shape_ok(#[trigger] a[m]) by {
        assert((a + b)[m] == a[m]);
    }
    assert forall|m: int| 0 <= m < b.len() implies shape_ok(#[trigger] b[m]) by {
        assert((a + b)[a.len() + m] == b[m]);
    }
}

proof fn lemma_literal_texts()
    ensures
        "true"@ == seq!['t', 'r', 'u', 'e'],
        "false"@ == seq!['f', 'a', 'l', 's', 'e'],
        "nil"@ == seq!['n', 'i', 'l'],
        " ? "@ == seq![' ', '?', ' '],
        " : "@ == seq![' ', ':', ' '],
        un_op_text(UnOp::Not) == seq!['!'],
        un_op_text(UnOp::Neg) == seq!['-'],
        bin_op_text(BinOp::Eq) == seq!['=', '='],
        bin_op_text(BinOp::Neq) == seq!['!', '='],
        bin_op_text(BinOp::Lt) == seq!['<'],
        bin_op_text(BinOp::Lte) == seq!['<', '='],
        bin_op_text(BinOp::Gt) == seq!['>'],
        bin_op_text(BinOp::Gte) == seq!['>', '='],
        bin_op_text(BinOp::Plus) == seq!['+'],
        bin_op_text(BinOp::Minus) == seq!['-'],
        bin_op_text(BinOp::Times) == seq!['*'],
        bin_op_text(BinOp::Divide) == seq!['/'],
        bin_op_text(BinOp::Sequence) == seq![','],
{
    reveal_strlit("true");
    reveal_strlit("false");
    reveal_strlit("nil");
    reveal_strlit(" ? ");
    reveal_strlit(" : ");
    reveal_strlit("!");
    reveal_strlit("-");
    reveal_strlit("==");
    reveal_strlit("!=");
    reveal_strlit("<");
    reveal_strlit("<=");
    reveal_strlit(">");
    reveal_strlit(">=");
    reveal_strlit("+");
    reveal_strlit("*");
    reveal_strlit("/");
    reveal_strlit(",");
}

proof fn lemma_keyword_tags()
    ensures
        keyword_tag("true"@) == TokenTag::True,
        keyword_tag("false"@) == TokenTag::False,
        keyword_tag("nil"@) == TokenTag::Nil,
{
    reveal_strlit("true");
    reveal_strlit("false");
    reveal_strlit("nil");
    reveal_strlit("and");
    reveal_strlit("class");
    reveal_strlit("else");
    reveal_strlit("for");
    reveal_strlit("fun");
    reveal_strlit("if");
    reveal_strlit("or");
    reveal_strlit("print");
    reveal_strlit("return");
    reveal_strlit("super");
    reveal_strlit("this");
    reveal_strlit("var");
    reveal_strlit("while");
    assert("true"@[0] != "and"@[0]);
    assert("true"@[0] != "class"@[0]);
    assert("true"@[0] != "else"@[0]);
    assert("true"@[0] != "false"@[0]);
    assert("true"@[0] != "for"@[0]);
    assert("true"@[0] != "fun"@[0]);
    assert("true"@[0] != "if"@[0]);
    assert("true"@[0] != "nil"@[0]);
    assert("true"@[0] != "or"@[0]);
    assert("true"@[0] != "print"@[0]);
    assert("true"@[0] != "return"@[0]);
    assert("true"@[0] != "super"@[0]);
    assert("true"@[1] != "this"@[1]);
    assert("false"@[0] != "and"@[0]);
    assert("false"@[0] != "class"@[0]);
    assert("false"@[0] != "else"@[0]);
    assert("nil"@[0] != "and"@[0]);
    assert("nil"@[0] != "class"@[0]);
    assert("nil"@[0] != "else"@[0]);
    assert("nil"@[0] != "false"@[0]);
    assert("nil"@[0] != "for"@[0]);
    assert("nil"@[0] != "fun"@[0]);
    assert("nil"@[0] != "if"@[0]);
}

/// The text of an expression read from scanned tokens starts with a
/// character that begins a token, and is in ASCII.
#[verifier::rlimit(50)]
#[verifier::spinoff_prover]
proof fn lemma_text_lead(e: ExprV)
    requires
        shapes_ok(shape_list(e)),
    ensures
        expr_text(e).len() >= 1,
        lead(expr_text(e)[0]),
        vstd::utf8::is_ascii_chars(expr_text(e)),
    decreases e,
{
    lemma_literal_texts();
    let t = expr_text(e);
    match e {
        ExprV::NumLiteral(v) => {
            assert(shape_ok(shape_list(e)[0]));
            let k = choose|k: int| #![trigger all_digits(v, 0, k)] 1 <= k <= v.len() && all_digits(v, 0, k) && (k == v.len() || (v[k] == '.' && k + 1 < v.len()
                && all_digits(v, k + 1, v.len() as int)));
            assert(is_digit(v[0]));
        },
        ExprV::StrLiteral(v) => {
            assert(shape_ok(shape_list(e)[0]));
        },
        ExprV::BoolLiteral(b) => {},
        ExprV::Nil => {},
        ExprV::Unary(op, a) => {
            lemma_shapes_ok_split(seq![bare(un_tag(op))], shape_list(*a));
            lemma_text_lead(*a);
            assert(t == un_op_text(op) + expr_text(*a));
            assert(t[0] == un_op_text(op)[0]);
            assert forall|i: int| 0 <= i < t.len() implies '\0' <= #[trigger] t[i] <= '\u{7f}' by {
                if i >= 1 {
                    assert(t[i] == expr_text(*a)[i - 1]);
                }
            }
        },
        ExprV::Binary(op, l, r) => {
            let sl = shape_list(*l);
            let sr = shape_list(*r);
            assert(shape_list(e) == sl + (seq![bare(bin_tag(op))] + sr));
            lemma_shapes_ok_split(sl, seq![bare(bin_tag(op))] + sr);
            lemma_shapes_ok_split(seq![bare(bin_tag(op))], sr);
            lemma_text_lead(*l);
            lemma_text_lead(*r);
            let tl = expr_text(*l);
            let mid = seq![' '] + bin_op_text(op) + seq![' '];
            assert(t =~= tl + (mid + expr_text(*r)));
            assert(t[0] == tl[0]);
            assert(vstd::utf8::is_ascii_chars(mid));
            assert forall|i: int| 0 <= i < t.len() implies '\0' <= #[trigger] t[i] <= '\u{7f}' by {
                if i < tl.len() {
                    assert(t[i] == tl[i]);
                } else if i < tl.len() + mid.len() {
                    assert(t[i] == mid[i - tl.len()]);
                } else {
                    assert(t[i] == expr_text(*r)[i - tl.len() - mid.len()]);
                }
            }
        },
        ExprV::Grouping(v) => {
            assert(shape_list(e) == seq![bare(TokenTag::LeftParen)] + (shape_list(*v) + seq![bare(TokenTag::RightParen)]));
            lemma_shapes_ok_split(seq![bare(TokenTag::LeftParen)], shape_list(*v) + seq![bare(TokenTag::RightParen)]);
            lemma_shapes_ok_split(shape_list(*v), seq![bare(TokenTag::RightParen)]);
            lemma_text_lead(*v);
            let tv = expr_text(*v);
            assert forall|i: int| 0 <= i < t.len() implies '\0' <= #[trigger] t[i] <= '\u{7f}' by {
                if 1 <= i <= tv.len() {
                    assert(t[i] == tv[i - 1]);
                }
            }
        },
        ExprV::Ternary(c, x, y) => {
            let sc = shape_list(*c);
            assert(shape_list(e)[sc.len() as int] == bare(TokenTag::Question));
            assert(shape_ok(shape_list(e)[sc.len() as int]));
        },
    }
}

pub proof fn lemma_position_of_ok(s: Seq<char>, o: int)
    requires
        scannable(s),
        0 <= o <= s.len(),
    ensures
        placed(s, position_of(s, o)),
        position_of(s, o).offset == o,
        crate::parse::lex::scan::pos_ok(s, position_of(s, o)),
{
    lemma_position_bounds(s, o);
    lemma_placed_pos_ok(s, position_of(s, o));
}

proof fn lemma_shapes_cons(t: TokenV, x: Seq<TokenV>)
    ensures
        shapes(seq![t] + x) == seq![shape(t)] + shapes(x),
{
    assert(shapes(seq![t] + x) =~= seq![shape(t)] + shapes(x));
}

/// Scanning from a token that ends at `o + w`.
proof fn lemma_scan_tok(s: Seq<char>, f: Seq<char>, o: int, w: int, tag: TokenTag)
    requires
        scannable(s),
        0 <= o < s.len(),
        !is_ws(s[o]),
        0 < w,
        o + w <= s.len(),
        scan_token_spec(s, position_of(s, o)).0 == Ok::<TokenTag, LexErrTag>(tag),
        scan_token_spec(s, position_of(s, o)).1.offset == o + w,
    ensures
        shapes(scan_from(s, f, o).0) == seq![
            (tag, if tag == TokenTag::Number || tag == TokenTag::String {
                s.subrange(o, o + w)
            } else {
                Seq::empty()
            }),
        ] + shapes(scan_from(s, f, o + w).0),
        scan_from(s, f, o).1 == scan_from(s, f, o + w).1,
{
    let p = position_of(s, o);
    lemma_position_of_ok(s, o);
    lemma_position_of_ok(s, o + w);
    lemma_scan_token_placed(s, p);
    lemma_scan_token(s, p);
    let e = scan_token_spec(s, p).1;
    assert(e == position_of(s, o + w));
    assert(ws_end(s, p) == p);
    let t = TokenV { tag, lexeme: s.subrange(o, o + w), position: p };
    assert(scan_spec(s, f, p).0 == seq![t] + scan_spec(s, f, e).0);
    lemma_shapes_cons(t, scan_spec(s, f, e).0);
}

/// Scanning from white space is scanning from the character after it.
proof fn lemma_scan_space(s: Seq<char>, f: Seq<char>, o: int)
    requires
        scannable(s),
        0 <= o < s.len(),
        is_ws(s[o]),
    ensures
        scan_from(s, f, o) == scan_from(s, f, o + 1),
{
    let p = position_of(s, o);
    lemma_position_of_ok(s, o);
    lemma_position_of_ok(s, o + 1);
    lemma_step_placed(s, p);
    assert(step(s, p) == position_of(s, o + 1));
    lemma_ws_end(s, step(s, p));
    assert(ws_end(s, p) == ws_end(s, step(s, p)));
}

/// A number literal followed by a place where an expression may end is
/// read as one number token.
proof fn lemma_num_token(s: Seq<char>, o: int, v: Seq<char>)
    requires
        scannable(s),
        0 <= o,
        o + v.len() <= s.len(),
        s.subrange(o, o + v.len()) == v,
        is_num_lex(v),
        ends_ok(s, o + v.len()),
    ensures
        !is_ws(s[o]),
        scan_token_spec(s, position_of(s, o)).0 == Ok::<TokenTag, LexErrTag>(TokenTag::Number),
        scan_token_spec(s, position_of(s, o)).1.offset == o + v.len(),
{
    let w = v.len() as int;
    let k = choose|k: int|
        #![trigger all_digits(v, 0, k)]
        1 <= k <= v.len() && all_digits(v, 0, k) && (k == v.len() || (v[k] == '.' && k + 1 < v.len()
            && all_digits(v, k + 1, v.len() as int)));
    assert forall|m: int| 0 <= m < w implies s[o + m] == #[trigger] v[m] by {
        assert(s.subrange(o, o + w)[m] == s[o + m]);
    }
    assert(is_digit(v[0]));
    let p = position_of(s, o);
    lemma_position_of_ok(s, o);
    lemma_position_of_ok(s, o + 1);
    let p1 = crate::parse::position::adv(p);
    assert(p1 == position_of(s, o + 1)) by {
        lemma_step_placed(s, p);
    }
    assert(all_digits(s, o + 1, o + k)) by {
        assert forall|m: int| o + 1 <= m < o + k implies is_digit(#[trigger] s[m]) by {
            assert(s[m] == v[m - o]);
        }
    }
    lemma_digits_end_at(s, p1, o + k);
    let q = digits_end(s, p1);
    lemma_digits_end(s, p1);
    if k == w {
    } else {
        assert(s[o + k] == v[k]);
        assert(s[o + k + 1] == v[k + 1]);
        lemma_digits_end(s, crate::parse::position::adv(q));
        assert(all_digits(s, o + k + 1, o + w)) by {
            assert forall|m: int| o + k + 1 <= m < o + w implies is_digit(#[trigger] s[m]) by {
                assert(s[m] == v[m - o]);
            }
        }
        lemma_digits_end_at(s, crate::parse::position::adv(q), o + w);
    }
}

/// A string literal is read as one string token.
proof fn lemma_str_token(s: Seq<char>, o: int, v: Seq<char>)
    requires
        scannable(s),
        0 <= o,
        o + v.len() <= s.len(),
        s.subrange(o, o + v.len()) == v,
        is_str_lex(v),
    ensures
        !is_ws(s[o]),
        scan_token_spec(s, position_of(s, o)).0 == Ok::<TokenTag, LexErrTag>(TokenTag::String),
        scan_token_spec(s, position_of(s, o)).1.offset == o + v.len(),
{
    let w = v.len() as int;
    assert forall|m: int| 0 <= m < w implies s[o + m] == #[trigger] v[m] by {
        assert(s.subrange(o, o + w)[m] == s[o + m]);
    }
    assert(s[o] == v[0]);
    let p = position_of(s, o);
    lemma_position_of_ok(s, o);
    lemma_position_of_ok(s, o + 1);
    let p1 = crate::parse::position::adv(p);
    assert(p1 == position_of(s, o + 1)) by {
        lemma_step_placed(s, p);
    }
    lemma_string_end_offset(s, p1);
    assert forall|m: int| 1 <= m <= w - 1 implies 0 <= m + o < s.len() && s[m + o] == #[trigger] v[m] by {
        assert(s[o + m] == v[m]);
    }
    lemma_str_stop_local(v, s, o, 1, w - 1);
}

/// A keyword followed by a place where an expression may end is read as
/// its keyword token.
proof fn lemma_kw_token(s: Seq<char>, o: int, v: Seq<char>, tag: TokenTag)
    requires
        scannable(s),
        0 <= o,
        o + v.len() <= s.len(),
        s.subrange(o, o + v.len()) == v,
        v.len() >= 1,
        forall|m: int| 0 <= m < v.len() ==> is_alpha(#[trigger] v[m]),
        keyword_tag(v) == tag,
        ends_ok(s, o + v.len()),
    ensures
        !is_ws(s[o]),
        scan_token_spec(s, position_of(s, o)).0 == Ok::<TokenTag, LexErrTag>(tag),
        scan_token_spec(s, position_of(s, o)).1.offset == o + v.len(),
{
    let w = v.len() as int;
    assert forall|m: int| 0 <= m < w implies s[o + m] == #[trigger] v[m] by {
        assert(s.subrange(o, o + w)[m] == s[o + m]);
    }
    assert(is_alpha(v[0]));
    let p = position_of(s, o);
    lemma_position_of_ok(s, o);
    lemma_position_of_ok(s, o + 1);
    let p1 = crate::parse::position::adv(p);
    assert(p1 == position_of(s, o + 1)) by {
        lemma_step_placed(s, p);
    }
    assert forall|m: int| o + 1 <= m < o + w implies is_alnum(#[trigger] s[m]) by {
        assert(s[m] == v[m - o]);
        assert(is_alpha(v[m - o]));
    }
    lemma_alnum_end_at(s, p1, o + w);
}

proof fn lemma_piece(s: Seq<char>, o: int, t: Seq<char>, a: int, b: int)
    requires
        0 <= o,
        o + t.len() <= s.len(),
        s.subrange(o, o + t.len()) == t,
        0 <= a <= b <= t.len(),
    ensures
        s.subrange(o + a, o + b) == t.subrange(a, b),
        forall|m: int| a <= m < b ==> s[o + m] == #[trigger] t[m],
{
    assert forall|m: int| a <= m < b implies s[o + m] == #[trigger] t[m] by {
        assert(s.subrange(o, o + t.len())[m] == s[o + m]);
    }
    assert(s.subrange(o + a, o + b) =~= t.subrange(a, b));
}

/// A binary operator followed by a space is read as its token.
proof fn lemma_bin_token(s: Seq<char>, x: int, op: BinOp)
    requires
        scannable(s),
        0 <= x,
        x + bin_op_text(op).len() < s.len(),
        forall|m: int| 0 <= m < bin_op_text(op).len() ==> s[x + m] == #[trigger] bin_op_text(op)[m],
        s[x + bin_op_text(op).len()] == ' ',
    ensures
        !is_ws(s[x]),
        scan_token_spec(s, position_of(s, x)).0 == Ok::<TokenTag, LexErrTag>(bin_tag(op)),
        scan_token_spec(s, position_of(s, x)).1.offset == x + bin_op_text(op).len(),
{
    lemma_literal_texts();
    lemma_position_of_ok(s, x);
    let sym = bin_op_text(op);
    assert(s[x] == sym[0]);
    if sym.len() == 2 {
        assert(s[x + 1] == sym[1]);
    }
}

/// A unary operator followed by the start of an expression is read as its token.
proof fn lemma_un_token(s: Seq<char>, x: int, op: UnOp)
    requires
        scannable(s),
        0 <= x,
        x + 1 < s.len(),
        s[x] == un_op_text(op)[0],
        lead(s[x + 1]),
    ensures
        !is_ws(s[x]),
        scan_token_spec(s, position_of(s, x)).0 == Ok::<TokenTag, LexErrTag>(un_tag(op)),
        scan_token_spec(s, position_of(s, x)).1.offset == x + 1,
{
    lemma_literal_texts();
    lemma_position_of_ok(s, x);
}

/// A one-character token.
proof fn lemma_char_token(s: Seq<char>, x: int, c: char, tag: TokenTag)
    requires
        scannable(s),
        0 <= x < s.len(),
        s[x] == c,
        (c == '(' && tag == TokenTag::LeftParen) || (c == ')' && tag == TokenTag::RightParen),
    ensures
        !is_ws(s[x]),
        scan_token_spec(s, position_of(s, x)).0 == Ok::<TokenTag, LexErrTag>(tag),
        scan_token_spec(s, position_of(s, x)).1.offset == x + 1,
{
    lemma_position_of_ok(s, x);
}

/// Scanning the printed text of an expression, standing at `o` and
/// followed by a place where an expression may end, reads the tokens the
/// expression was read from, then what follows.
#[verifier::rlimit(100)]
#[verifier::spinoff_prover]
pub proof fn lemma_scan_printed(s: Seq<char>, f: Seq<char>, e: ExprV, o: int)
    requires
        scannable(s),
        0 <= o,
        o + expr_text(e).len() <= s.len(),
        s.subrange(o, o + expr_text(e).len()) == expr_text(e),
        ends_ok(s, o + expr_text(e).len()),
        shapes_ok(shape_list(e)),
    ensures
        shapes(scan_from(s, f, o).0) == shape_list(e) + shapes(scan_from(s, f, o + expr_text(e).len()).0),
        scan_from(s, f, o).1 == scan_from(s, f, o + expr_text(e).len()).1,
    decreases e,
{
    lemma_literal_texts();
    let t = expr_text(e);
    let n = t.len() as int;
    lemma_piece(s, o, t, 0, n);
    match e {
        ExprV::NumLiteral(v) => {
            assert(shape_ok(shape_list(e)[0]));
            lemma_num_token(s, o, v);
            lemma_scan_tok(s, f, o, n, TokenTag::Number);
        },
        ExprV::StrLiteral(v) => {
            assert(shape_ok(shape_list(e)[0]));
            lemma_str_token(s, o, v);
            lemma_scan_tok(s, f, o, n, TokenTag::String);
        },
        ExprV::BoolLiteral(b) => {
            lemma_keyword_tags();
            let tag = if b { TokenTag::True } else { TokenTag::False };
            assert forall|m: int| 0 <= m < t.len() implies is_alpha(#[trigger] t[m]) by {
                if b {
                    assert(t == seq!['t', 'r', 'u', 'e']);
                } else {
                    assert(t == seq!['f', 'a', 'l', 's', 'e']);
                }
            }
            lemma_kw_token(s, o, t, tag);
            lemma_scan_tok(s, f, o, n, tag);
        },
        ExprV::Nil => {
            lemma_keyword_tags();
            assert forall|m: int| 0 <= m < t.len() implies is_alpha(#[trigger] t[m]) by {
                assert(t == seq!['n', 'i', 'l']);
            }
            lemma_kw_token(s, o, t, TokenTag::Nil);
            lemma_scan_tok(s, f, o, n, TokenTag::Nil);
        },
        ExprV::Unary(op, a) => {
            let ta = expr_text(*a);
            lemma_shapes_ok_split(seq![bare(un_tag(op))], shape_list(*a));
            lemma_text_lead(*a);
            assert(t == un_op_text(op) + ta);
            assert(t.subrange(1, n) =~= ta);
            lemma_piece(s, o, t, 1, n);
            assert(s[o] == t[0]);
            assert(s[o + 1] == t[1]);
            lemma_un_token(s, o, op);
            lemma_scan_tok(s, f, o, 1, un_tag(op));
            lemma_scan_printed(s, f, *a, o + 1);
            assert(shape_list(e) == seq![bare(un_tag(op))] + shape_list(*a));
            assert(shapes(scan_from(s, f, o).0) =~= shape_list(e) + shapes(scan_from(s, f, o + n).0));
        },
        ExprV::Binary(op, l, r) => {
            let tl = expr_text(*l);
            let tr = expr_text(*r);
            let sym = bin_op_text(op);
            let sl = shape_list(*l);
            let sr = shape_list(*r);
            assert(shape_list(e) == sl + (seq![bare(bin_tag(op))] + sr));
            lemma_shapes_ok_split(sl, seq![bare(bin_tag(op))] + sr);
            lemma_shapes_ok_split(seq![bare(bin_tag(op))], sr);
            lemma_text_lead(*l);
            lemma_text_lead(*r);
            let a = tl.len() as int;
            let w = sym.len() as int;
            let b = a + w + 2;
            assert(t =~= tl + seq![' '] + sym + seq![' '] + tr);
            assert(n == b + tr.len());
            assert(t.subrange(0, a) =~= tl);
            assert(t.subrange(b, n) =~= tr);
            lemma_piece(s, o, t, 0, a);
            lemma_piece(s, o, t, b, n);
            assert(s[o + a] == t[a]);
            assert(s[o + a + 1 + w] == t[a + 1 + w]);
            assert forall|m: int| 0 <= m < w implies s[o + a + 1 + m] == #[trigger] sym[m] by {
                assert(s[o + (a + 1 + m)] == t[a + 1 + m]);
            }
            lemma_scan_printed(s, f, *l, o);
            lemma_scan_space(s, f, o + a);
            lemma_bin_token(s, o + a + 1, op);
            lemma_scan_tok(s, f, o + a + 1, w, bin_tag(op));
            lemma_scan_space(s, f, o + a + 1 + w);
            lemma_scan_printed(s, f, *r, o + b);
            assert(shapes(scan_from(s, f, o).0) =~= shape_list(e) + shapes(scan_from(s, f, o + n).0));
        },
        ExprV::Grouping(v) => {
            let tv = expr_text(*v);
            let sv = shape_list(*v);
            assert(shape_list(e) == seq![bare(TokenTag::LeftParen)] + (sv + seq![bare(TokenTag::RightParen)]));
            lemma_shapes_ok_split(seq![bare(TokenTag::LeftParen)], sv + seq![bare(TokenTag::RightParen)]);
            lemma_shapes_ok_split(sv, seq![bare(TokenTag::RightParen)]);
            let m = tv.len() as int;
            assert(t =~= seq!['('] + tv + seq![')']);
            assert(t.subrange(1, m + 1) =~= tv);
            lemma_piece(s, o, t, 1, m + 1);
            assert(s[o] == t[0]);
            assert(s[o + m + 1] == t[m + 1]);
            lemma_char_token(s, o, '(', TokenTag::LeftParen);
            lemma_scan_tok(s, f, o, 1, TokenTag::LeftParen);
            lemma_scan_printed(s, f, *v, o + 1);
            lemma_char_token(s, o + m + 1, ')', TokenTag::RightParen);
            lemma_scan_tok(s, f, o + m + 1, 1, TokenTag::RightParen);
            assert(shapes(scan_from(s, f, o).0) =~= shape_list(e) + shapes(scan_from(s, f, o + n).0));
        },
        ExprV::Ternary(c, x, y) => {
            let sc = shape_list(*c);
            assert(shape_list(e)[sc.len() as int] == bare(TokenTag::Question));
            assert(shape_ok(shape_list(e)[sc.len() as int]));
        },
    }
}

proof fn lemma_drop_comments_from(ts: Seq<TokenV>)
    ensures
        forall|m: int|
            0 <= m < drop_comments(ts).len() ==> !is_comment(#[trigger] drop_comments(ts)[m].tag) && exists|
                x: int,
            |
                0 <= x < ts.len() && ts[x] == drop_comments(ts)[m],
    decreases ts.len(),
{
    if ts.len() > 0 {
        let rest = ts.drop_last();
        lemma_drop_comments_from(rest);
        let d = drop_comments(ts);
        let dr = drop_comments(rest);
        assert forall|m: int| 0 <= m < d.len() implies !is_comment(#[trigger] d[m].tag) && exists|x: int|
            0 <= x < ts.len() && ts[x] == d[m] by {
            if m < dr.len() {
                assert(d[m] == dr[m]);
                let x = choose|x: int| 0 <= x < rest.len() && rest[x] == dr[m];
                assert(ts[x] == rest[x]);
            } else {
                assert(d[m] == ts.last());
                assert(ts[ts.len() - 1] == d[m]);
            }
        }
    }
}

proof fn lemma_drop_no_comments(ts: Seq<TokenV>)
    requires
        forall|m: int| 0 <= m < ts.len() ==> !is_comment(#[trigger] ts[m].tag),
    ensures
        drop_comments(ts) == ts,
    decreases ts.len(),
{
    if ts.len() > 0 {
        let rest = ts.drop_last();
        assert forall|m: int| 0 <= m < rest.len() implies !is_comment(#[trigger] rest[m].tag) by {
            assert(rest[m] == ts[m]);
        }
        lemma_drop_no_comments(rest);
        assert(!is_comment(ts[ts.len() - 1].tag));
        assert(rest.push(ts.last()) =~= ts);
    }
}

/// Printing what was read gives a text that reads back the same: where a
/// source text scans without error and its tokens, comments left out,
/// begin with an expression, the printed expression (where it fits in a
/// `usize`) scans without error and its tokens give that expression again.
#[verifier::rlimit(50)]
#[verifier::spinoff_prover]
pub proof fn law_print_then_read(src: Seq<char>, f: Seq<char>)
    requires
        scannable(src),
        scan_spec(src, f, start_pos()).1.len() == 0,
        parse_spec(drop_comments(scan_spec(src, f, start_pos()).0), f, 0) is Ok,
    ensures
        ({
            let e = parse_spec(drop_comments(scan_spec(src, f, start_pos()).0), f, 0)->Ok_0.0;
            let t = expr_text(e);
            t.len() < usize::MAX ==> {
                &&& scannable(t)
                &&& scan_spec(t, f, start_pos()).1.len() == 0
                &&& parse_spec(drop_comments(scan_spec(t, f, start_pos()).0), f, 0) matches Ok((e2, _))
                    && e2 == e
            }
        }),
{
    let raw = scan_spec(src, f, start_pos()).0;
    let ts = drop_comments(raw);
    let (e, j) = parse_spec(ts, f, 0)->Ok_0;
    let t = expr_text(e);
    law_scan_tokens(src, f, start_pos());
    lemma_drop_comments_eof(raw);
    lemma_drop_comments_from(raw);
    assert(eof_after(ts, 0)) by {
        assert(ts[ts.len() - 1].tag == TokenTag::EOF);
    }
    lemma_parse_level(ts, f, 7, 0);
    lemma_parse_shapes(ts, f, 7, 0);
    let sl = shape_list(e);
    assert(sl.len() == j);
    assert(shapes_ok(sl)) by {
        assert forall|m: int| 0 <= m < sl.len() implies shape_ok(#[trigger] sl[m]) by {
            assert(sl[m] == shapes(ts).subrange(0, j)[m]);
            assert(sl[m] == shape(ts[m]));
            assert(ts[m].tag != TokenTag::EOF);
            assert(!is_comment(ts[m].tag));
            let x = choose|x: int| 0 <= x < raw.len() && raw[x] == ts[m];
            assert(x < raw.len() - 1);
            assert(token_in_text(src, raw[x]));
            let l = raw[x].lexeme;
            assert forall|i: int| 0 <= i < l.len() implies '\0' <= #[trigger] l[i] <= '\u{7f}' by {
                assert(l[i] == src[raw[x].position.offset + i]);
            }
        }
    }
    if t.len() < usize::MAX {
        let n = t.len() as int;
        lemma_text_lead(e);
        assert(scannable(t));
        assert(t.subrange(0, n) =~= t);
        lemma_scan_printed(t, f, e, 0);
        assert(position_of(t, 0) == start_pos());
        lemma_position_of_ok(t, n);
        let ts2 = scan_spec(t, f, start_pos()).0;
        let tail = scan_from(t, f, n);
        assert(tail.0 == seq![crate::parse::token::eof_spec(position_of(t, n))]);
        assert(shapes(tail.0) =~= seq![bare(TokenTag::EOF)]);
        let all = sl + seq![bare(TokenTag::EOF)];
        assert(shapes(ts2) == all);
        assert(shapes(ts2).len() == ts2.len());
        assert(all.len() == j + 1);
        assert(ts2.len() == j + 1);
        assert forall|m: int| 0 <= m < ts2.len() implies !is_comment(#[trigger] ts2[m].tag) by {
            assert(shapes(ts2)[m] == shape(ts2[m]));
            if m < j {
                assert(all[m] == sl[m]);
                assert(shape_ok(sl[m]));
            } else {
                assert(all[m] == bare(TokenTag::EOF));
            }
        }
        lemma_drop_no_comments(ts2);
        assert(reads_like(ts, ts2, j)) by {
            assert forall|m: int| 0 <= m < j implies shape(ts2[m]) == shape(ts[m]) by {
                assert(shapes(ts2)[m] == shape(ts2[m]));
                assert(all[m] == sl[m]);
                assert(sl[m] == shapes(ts).subrange(0, j)[m]);
            }
            assert(shapes(ts2)[j] == shape(ts2[j]));
            assert(all[j] == bare(TokenTag::EOF));
        }
        lemma_parse_agree(ts, ts2, f, 7, 0, j);
    }
}

} // verus!
