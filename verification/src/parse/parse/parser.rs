use vstd::prelude::*;

use crate::parse::ast::expr::{
    bin_op_of, binary_v, grouping_v, ternary_v, un_op_of, unary_v, BinOp, Expr, ExprV, UnOp,
};
use crate::parse::parse::err::{ParseErr, ParseErrTag, ParseErrV};
use crate::parse::token::{tokens_view, Token, TokenTag, TokenV};

verus! {

/// Precedence levels of the grammar, loosest first:
/// sequence (`,`) 7, ternary (`? :`) 6, equality 5, comparison 4, term 3,
/// factor 2, unary 1, primary 0.
pub open spec fn level_ops(k: nat, tag: TokenTag) -> bool {
    if k == 7 {
        tag == TokenTag::Comma
    } else if k == 5 {
        tag == TokenTag::BangEqual || tag == TokenTag::EqualEqual
    } else if k == 4 {
        tag == TokenTag::Greater || tag == TokenTag::GreaterEqual || tag == TokenTag::Less || tag
            == TokenTag::LessEqual
    } else if k == 3 {
        tag == TokenTag::Plus || tag == TokenTag::Minus
    } else if k == 2 {
        tag == TokenTag::Slash || tag == TokenTag::Star
    } else if k == 1 {
        tag == TokenTag::Bang || tag == TokenTag::Minus
    } else {
        false
    }
}

/// The token at `i` is not the end of file and has kind `tag`.
pub open spec fn is_tag(ts: Seq<TokenV>, i: int, tag: TokenTag) -> bool {
    0 <= i < ts.len() && ts[i].tag != TokenTag::EOF && ts[i].tag == tag
}

/// The token at `i` is not the end of file and is an operator of level `k`.
pub open spec fn op_at(ts: Seq<TokenV>, k: nat, i: int) -> bool {
    0 <= i < ts.len() && ts[i].tag != TokenTag::EOF && level_ops(k, ts[i].tag)
}

/// An end-of-file token stands at `i` or after it.
pub open spec fn eof_after(ts: Seq<TokenV>, i: int) -> bool {
    0 <= i && exists|m: int| i <= m < ts.len() && #[trigger] ts[m].tag == TokenTag::EOF
}

pub open spec fn err_at(tag: ParseErrTag, f: Seq<char>, t: TokenV) -> ParseErrV {
    ParseErrV { tag, filename: f, position: t.position }
}

/// The result of parsing the tokens from `i` on at precedence level `k`:
/// the expression and the index of the first token after it, or the error.
pub open spec fn parse_level(ts: Seq<TokenV>, f: Seq<char>, k: nat, i: int) -> Result<(ExprV, int), ParseErrV>
    decreases ts.len() - i, k, 0nat,
{
    if !(0 <= i < ts.len()) || k > 7 {
        Err(err_at(ParseErrTag::MissingExpression, f, ts[i]))
    } else if k == 0 {
        let t = ts[i];
        if is_tag(ts, i, TokenTag::True) {
            Ok((ExprV::BoolLiteral(true), i + 1))
        } else if is_tag(ts, i, TokenTag::False) {
            Ok((ExprV::BoolLiteral(false), i + 1))
        } else if is_tag(ts, i, TokenTag::Nil) {
            Ok((ExprV::Nil, i + 1))
        } else if is_tag(ts, i, TokenTag::String) {
            Ok((ExprV::StrLiteral(t.lexeme), i + 1))
        } else if is_tag(ts, i, TokenTag::Number) {
            Ok((ExprV::NumLiteral(t.lexeme), i + 1))
        } else if is_tag(ts, i, TokenTag::LeftParen) {
            match parse_level(ts, f, 7, i + 1) {
                Err(e) => Err(e),
                Ok((e, j)) => if is_tag(ts, j, TokenTag::RightParen) {
                    Ok((grouping_v(e), j + 1))
                } else {
                    Err(err_at(ParseErrTag::UnmatchedParen, f, t))
                },
            }
        } else {
            Err(err_at(ParseErrTag::MissingExpression, f, t))
        }
    } else if k == 1 {
        if op_at(ts, 1, i) {
            match parse_level(ts, f, 1, i + 1) {
                Err(e) => Err(e),
                Ok((a, j)) => Ok((unary_v(un_op_of(ts[i].tag)->Ok_0, a), j)),
            }
        } else {
            parse_level(ts, f, 0, i)
        }
    } else if k == 6 {
        match parse_level(ts, f, 5, i) {
            Err(e) => Err(e),
            Ok((c, j)) => if is_tag(ts, j, TokenTag::Question) && j >= i {
                match parse_level(ts, f, 6, j + 1) {
                    Err(e) => Err(e),
                    Ok((t, m)) => if is_tag(ts, m, TokenTag::Colon) && m > j {
                        match parse_level(ts, f, 6, m + 1) {
                            Err(e) => Err(e),
                            Ok((e, n)) => Ok((ternary_v(c, t, e), n)),
                        }
                    } else {
                        Err(err_at(ParseErrTag::UnclosedTernary, f, ts[j]))
                    },
                }
            } else {
                Ok((c, j))
            },
        }
    } else {
        match parse_level(ts, f, (k - 1) as nat, i) {
            Err(e) => Err(e),
            Ok((lhs, j)) => if i < j <= ts.len() {
                parse_rest(ts, f, k, lhs, j)
            } else {
                Ok((lhs, j))
            },
        }
    }
}

/// The rest of a left-associative chain of level `k` after its operand `lhs`,
/// the next token being at `j`.
pub open spec fn parse_rest(ts: Seq<TokenV>, f: Seq<char>, k: nat, lhs: ExprV, j: int) -> Result<(ExprV, int), ParseErrV>
    decreases ts.len() - j, k, 1nat,
{
    if op_at(ts, k, j) && 1 <= k <= 7 {
        match parse_level(ts, f, (k - 1) as nat, j + 1) {
            Err(e) => Err(e),
            Ok((r, m)) => {
                let e = binary_v(bin_op_of(ts[j].tag)->Ok_0, lhs, r);
                if j < m <= ts.len() {
                    parse_rest(ts, f, k, e, m)
                } else {
                    Ok((e, m))
                }
            },
        }
    } else {
        Ok((lhs, j))
    }
}

/// The expression that the tokens from `i` on begin with.
pub open spec fn parse_spec(ts: Seq<TokenV>, f: Seq<char>, i: int) -> Result<(ExprV, int), ParseErrV> {
    parse_level(ts, f, 7, i)
}

pub proof fn lemma_eof_step(ts: Seq<TokenV>, i: int)
    requires
        eof_after(ts, i),
        ts[i].tag != TokenTag::EOF,
    ensures
        eof_after(ts, i + 1),
        i + 1 < ts.len(),
{
    let m = choose|m: int| i <= m < ts.len() && #[trigger] ts[m].tag == TokenTag::EOF;
    assert(m != i);
    assert(i + 1 <= m < ts.len() && ts[m].tag == TokenTag::EOF);
}

/// Where one step of the parser moves from `i`: to the next token, but
/// never past the end-of-file token.
pub open spec fn next_pos(ts: Seq<TokenV>, i: int) -> int {
    if ts[i].tag == TokenTag::EOF {
        i
    } else {
        i + 1
    }
}

/// Where `n` steps of the parser move from `i`.
pub open spec fn steps_from(ts: Seq<TokenV>, i: int, n: nat) -> int
    decreases n,
{
    if n == 0 {
        i
    } else {
        next_pos(ts, steps_from(ts, i, (n - 1) as nat))
    }
}

/// However many steps the parser takes, an end-of-file token still lies
/// ahead: the position stays on a token and never passes the end of file.
pub proof fn law_steps_stay_before_eof(ts: Seq<TokenV>, i: int, n: nat)
    requires
        eof_after(ts, i),
    ensures
        eof_after(ts, steps_from(ts, i, n)),
        i <= steps_from(ts, i, n) < ts.len(),
        steps_from(ts, i, n) <= i + n,
    decreases n,
{
    if n > 0 {
        let m = (n - 1) as nat;
        law_steps_stay_before_eof(ts, i, m);
        let j = steps_from(ts, i, m);
        if ts[j].tag != TokenTag::EOF {
            lemma_eof_step(ts, j);
        }
    }
}

/// No end-of-file token stands from `i` up to `j` (excluded).
pub open spec fn no_eof_between(ts: Seq<TokenV>, i: int, j: int) -> bool {
    forall|m: int| i <= m < j ==> #[trigger] ts[m].tag != TokenTag::EOF
}

/// A successful parse reads at least one token and never the end of file.
pub proof fn lemma_parse_level(ts: Seq<TokenV>, f: Seq<char>, k: nat, i: int)
    requires
        eof_after(ts, i),
    ensures
        parse_level(ts, f, k, i) matches Ok((_, j)) ==> i < j < ts.len() && eof_after(ts, j)
            && no_eof_between(ts, i, j),
    decreases ts.len() - i, k, 0nat,
{
    let m = choose|m: int| i <= m < ts.len() && #[trigger] ts[m].tag == TokenTag::EOF;
    if !(0 <= i < ts.len()) || k > 7 {
    } else if k == 0 {
        if is_tag(ts, i, TokenTag::LeftParen) {
            lemma_eof_step(ts, i);
            lemma_parse_level(ts, f, 7, i + 1);
            if let Ok((e, j)) = parse_level(ts, f, 7, i + 1) {
                if is_tag(ts, j, TokenTag::RightParen) {
                    lemma_eof_step(ts, j);
                }
            }
        } else if ts[i].tag != TokenTag::EOF {
            lemma_eof_step(ts, i);
        }
    } else if k == 1 {
        if op_at(ts, 1, i) {
            lemma_eof_step(ts, i);
            lemma_parse_level(ts, f, 1, i + 1);
        } else {
            lemma_parse_level(ts, f, 0, i);
        }
    } else if k == 6 {
        lemma_parse_level(ts, f, 5, i);
        if let Ok((c, j)) = parse_level(ts, f, 5, i) {
            if is_tag(ts, j, TokenTag::Question) && j >= i {
                lemma_eof_step(ts, j);
                lemma_parse_level(ts, f, 6, j + 1);
                if let Ok((t, mm)) = parse_level(ts, f, 6, j + 1) {
                    if is_tag(ts, mm, TokenTag::Colon) && mm > j {
                        lemma_eof_step(ts, mm);
                        lemma_parse_level(ts, f, 6, mm + 1);
                    }
                }
            }
        }
    } else {
        lemma_parse_level(ts, f, (k - 1) as nat, i);
        if let Ok((lhs, j)) = parse_level(ts, f, (k - 1) as nat, i) {
            if i < j <= ts.len() {
                lemma_parse_rest(ts, f, k, lhs, j);
            }
        }
    }
}

pub proof fn lemma_parse_rest(ts: Seq<TokenV>, f: Seq<char>, k: nat, lhs: ExprV, j: int)
    requires
        eof_after(ts, j),
    ensures
        parse_rest(ts, f, k, lhs, j) matches Ok((_, n)) ==> j <= n < ts.len() && eof_after(ts, n)
            && no_eof_between(ts, j, n),
    decreases ts.len() - j, k, 1nat,
{
    if op_at(ts, k, j) && 1 <= k <= 7 {
        lemma_eof_step(ts, j);
        lemma_parse_level(ts, f, (k - 1) as nat, j + 1);
        if let Ok((r, m)) = parse_level(ts, f, (k - 1) as nat, j + 1) {
            let e = binary_v(bin_op_of(ts[j].tag)->Ok_0, lhs, r);
            if j < m <= ts.len() {
                lemma_parse_rest(ts, f, k, e, m);
            }
        }
    }
}


/// The kinds of token that a primary expression starts with.
pub open spec fn starts_primary(tag: TokenTag) -> bool {
    ||| tag == TokenTag::True
    ||| tag == TokenTag::False
    ||| tag == TokenTag::Nil
    ||| tag == TokenTag::String
    ||| tag == TokenTag::Number
    ||| tag == TokenTag::LeftParen
}

/// The result of a parse as an expression and the next index, or the error.
pub open spec fn result_matches(
    r: Result<Expr, ParseErr>,
    spec: Result<(ExprV, int), ParseErrV>,
    current: int,
) -> bool {
    match spec {
        Ok((e, j)) => r matches Ok(x) && x@ == e && current == j,
        Err(pe) => r matches Err(x) && x@ == pe,
    }
}

fn sequence_ops() -> (v: Vec<TokenTag>)
    ensures
        forall|t: TokenTag| v@.contains(t) <==> level_ops(7, t),
{
    let mut v: Vec<TokenTag> = Vec::new();
    v.push(TokenTag::Comma);
    proof {
        assert forall|t: TokenTag| v@.contains(t) <==> level_ops(7, t) by {
            if level_ops(7, t) {
                if t == TokenTag::Comma { assert(v@[0] == t); }
            }
        }
    }
    v
}

fn equality_ops() -> (v: Vec<TokenTag>)
    ensures
        forall|t: TokenTag| v@.contains(t) <==> level_ops(5, t),
{
    let mut v: Vec<TokenTag> = Vec::new();
    v.push(TokenTag::BangEqual);
    v.push(TokenTag::EqualEqual);
    proof {
        assert forall|t: TokenTag| v@.contains(t) <==> level_ops(5, t) by {
            if level_ops(5, t) {
                if t == TokenTag::BangEqual { assert(v@[0] == t); } if t == TokenTag::EqualEqual { assert(v@[1] == t); }
            }
        }
    }
    v
}

fn comparison_ops() -> (v: Vec<TokenTag>)
    ensures
        forall|t: TokenTag| v@.contains(t) <==> level_ops(4, t),
{
    let mut v: Vec<TokenTag> = Vec::new();
    v.push(TokenTag::Greater);
    v.push(TokenTag::GreaterEqual);
    v.push(TokenTag::Less);
    v.push(TokenTag::LessEqual);
    proof {
        assert forall|t: TokenTag| v@.contains(t) <==> level_ops(4, t) by {
            if level_ops(4, t) {
                if t == TokenTag::Greater { assert(v@[0] == t); } if t == TokenTag::GreaterEqual { assert(v@[1] == t); } if t == TokenTag::Less { assert(v@[2] == t); } if t == TokenTag::LessEqual { assert(v@[3] == t); }
            }
        }
    }
    v
}

fn term_ops() -> (v: Vec<TokenTag>)
    ensures
        forall|t: TokenTag| v@.contains(t) <==> level_ops(3, t),
{
    let mut v: Vec<TokenTag> = Vec::new();
    v.push(TokenTag::Plus);
    v.push(TokenTag::Minus);
    proof {
        assert forall|t: TokenTag| v@.contains(t) <==> level_ops(3, t) by {
            if level_ops(3, t) {
                if t == TokenTag::Plus { assert(v@[0] == t); } if t == TokenTag::Minus { assert(v@[1] == t); }
            }
        }
    }
    v
}

fn factor_ops() -> (v: Vec<TokenTag>)
    ensures
        forall|t: TokenTag| v@.contains(t) <==> level_ops(2, t),
{
    let mut v: Vec<TokenTag> = Vec::new();
    v.push(TokenTag::Slash);
    v.push(TokenTag::Star);
    proof {
        assert forall|t: TokenTag| v@.contains(t) <==> level_ops(2, t) by {
            if level_ops(2, t) {
                if t == TokenTag::Slash { assert(v@[0] == t); } if t == TokenTag::Star { assert(v@[1] == t); }
            }
        }
    }
    v
}

fn unary_ops() -> (v: Vec<TokenTag>)
    ensures
        forall|t: TokenTag| v@.contains(t) <==> level_ops(1, t),
{
    let mut v: Vec<TokenTag> = Vec::new();
    v.push(TokenTag::Bang);
    v.push(TokenTag::Minus);
    proof {
        assert forall|t: TokenTag| v@.contains(t) <==> level_ops(1, t) by {
            if level_ops(1, t) {
                if t == TokenTag::Bang { assert(v@[0] == t); } if t == TokenTag::Minus { assert(v@[1] == t); }
            }
        }
    }
    v
}

fn only_question() -> (v: Vec<TokenTag>)
    ensures
        forall|t: TokenTag| v@.contains(t) <==> t == TokenTag::Question,
{
    let mut v: Vec<TokenTag> = Vec::new();
    v.push(TokenTag::Question);
    proof {
        assert forall|t: TokenTag| v@.contains(t) <==> t == TokenTag::Question by {
            if t == TokenTag::Question {
                assert(v@[0] == t);
            }
        }
    }
    v
}

fn only_colon() -> (v: Vec<TokenTag>)
    ensures
        forall|t: TokenTag| v@.contains(t) <==> t == TokenTag::Colon,
{
    let mut v: Vec<TokenTag> = Vec::new();
    v.push(TokenTag::Colon);
    proof {
        assert forall|t: TokenTag| v@.contains(t) <==> t == TokenTag::Colon by {
            if t == TokenTag::Colon {
                assert(v@[0] == t);
            }
        }
    }
    v
}

fn only_true() -> (v: Vec<TokenTag>)
    ensures
        forall|t: TokenTag| v@.contains(t) <==> t == TokenTag::True,
{
    let mut v: Vec<TokenTag> = Vec::new();
    v.push(TokenTag::True);
    proof {
        assert forall|t: TokenTag| v@.contains(t) <==> t == TokenTag::True by {
            if t == TokenTag::True {
                assert(v@[0] == t);
            }
        }
    }
    v
}

fn only_false() -> (v: Vec<TokenTag>)
    ensures
        forall|t: TokenTag| v@.contains(t) <==> t == TokenTag::False,
{
    let mut v: Vec<TokenTag> = Vec::new();
    v.push(TokenTag::False);
    proof {
        assert forall|t: TokenTag| v@.contains(t) <==> t == TokenTag::False by {
            if t == TokenTag::False {
                assert(v@[0] == t);
            }
        }
    }
    v
}

fn only_nil() -> (v: Vec<TokenTag>)
    ensures
        forall|t: TokenTag| v@.contains(t) <==> t == TokenTag::Nil,
{
    let mut v: Vec<TokenTag> = Vec::new();
    v.push(TokenTag::Nil);
    proof {
        assert forall|t: TokenTag| v@.contains(t) <==> t == TokenTag::Nil by {
            if t == TokenTag::Nil {
                assert(v@[0] == t);
            }
        }
    }
    v
}

fn only_string() -> (v: Vec<TokenTag>)
    ensures
        forall|t: TokenTag| v@.contains(t) <==> t == TokenTag::String,
{
    let mut v: Vec<TokenTag> = Vec::new();
    v.push(TokenTag::String);
    proof {
        assert forall|t: TokenTag| v@.contains(t) <==> t == TokenTag::String by {
            if t == TokenTag::String {
                assert(v@[0] == t);
            }
        }
    }
    v
}

fn only_number() -> (v: Vec<TokenTag>)
    ensures
        forall|t: TokenTag| v@.contains(t) <==> t == TokenTag::Number,
{
    let mut v: Vec<TokenTag> = Vec::new();
    v.push(TokenTag::Number);
    proof {
        assert forall|t: TokenTag| v@.contains(t) <==> t == TokenTag::Number by {
            if t == TokenTag::Number {
                assert(v@[0] == t);
            }
        }
    }
    v
}

fn only_leftparen() -> (v: Vec<TokenTag>)
    ensures
        forall|t: TokenTag| v@.contains(t) <==> t == TokenTag::LeftParen,
{
    let mut v: Vec<TokenTag> = Vec::new();
    v.push(TokenTag::LeftParen);
    proof {
        assert forall|t: TokenTag| v@.contains(t) <==> t == TokenTag::LeftParen by {
            if t == TokenTag::LeftParen {
                assert(v@[0] == t);
            }
        }
    }
    v
}

fn only_rightparen() -> (v: Vec<TokenTag>)
    ensures
        forall|t: TokenTag| v@.contains(t) <==> t == TokenTag::RightParen,
{
    let mut v: Vec<TokenTag> = Vec::new();
    v.push(TokenTag::RightParen);
    proof {
        assert forall|t: TokenTag| v@.contains(t) <==> t == TokenTag::RightParen by {
            if t == TokenTag::RightParen {
                assert(v@[0] == t);
            }
        }
    }
    v
}

/// A recursive-descent parser of Lox expressions over a list of tokens.
pub struct Parser {
    filename: String,
    tokens: Vec<Token>,
    current: usize,
}

impl Parser {
    pub closed spec fn toks(&self) -> Seq<TokenV> {
        tokens_view(self.tokens@)
    }

    pub closed spec fn file(&self) -> Seq<char> {
        self.filename@
    }

    pub closed spec fn pos(&self) -> int {
        self.current as int
    }

    /// An end-of-file token lies ahead, so the parser never reads past the tokens.
    pub open spec fn ready(&self) -> bool {
        eof_after(self.toks(), self.pos())
    }

    closed spec fn inv(&self) -> bool {
        eof_after(tokens_view(self.tokens@), self.current as int)
    }

    closed spec fn same(&self, other: &Self) -> bool {
        self.tokens == other.tokens && self.filename == other.filename
    }

    pub fn new(tokens: Vec<Token>, filename: String) -> (p: Parser)
        ensures
            p.toks() == tokens_view(tokens@),
            p.file() == filename@,
            p.pos() == 0,
    {
        Parser { filename, tokens, current: 0 }
    }

    fn peek(&self) -> (t: &Token)
        requires
            self.inv(),
        ensures
            t@ == self.toks()[self.current as int],
    {
        &self.tokens[self.current]
    }

    fn at_end(&self) -> (b: bool)
        requires
            self.inv(),
        ensures
            b == (self.toks()[self.current as int].tag == TokenTag::EOF),
    {
        self.peek().tag == TokenTag::EOF
    }

    fn previous(&self) -> (t: &Token)
        requires
            1 <= self.current <= self.tokens@.len(),
        ensures
            t@ == self.toks()[self.current - 1],
    {
        &self.tokens[self.current - 1]
    }

    fn advance(&mut self)
        requires
            old(self).inv(),
        ensures
            final(self).inv(),
            final(self).same(old(self)),
            final(self).current == next_pos(old(self).toks(), old(self).current as int),
            final(self).current < final(self).tokens@.len(),
    {
        if !self.at_end() {
            proof {
                lemma_eof_step(self.toks(), self.current as int);
            }
            assert(self.current + 1 < self.tokens.len());
            self.current += 1;
        }
    }

    fn check(&self, tag: TokenTag) -> (b: bool)
        requires
            self.inv(),
        ensures
            b == is_tag(self.toks(), self.current as int, tag),
    {
        if self.at_end() {
            return false;
        }
        self.peek().tag == tag
    }

    /// Reads the next token if it is one of `tags` (never the end of file).
    fn matches(&mut self, tags: Vec<TokenTag>) -> (r: Option<Token>)
        requires
            old(self).inv(),
        ensures
            final(self).inv(),
            final(self).same(old(self)),
            ({
                let ts = old(self).toks();
                let i = old(self).current as int;
                if ts[i].tag != TokenTag::EOF && tags@.contains(ts[i].tag) {
                    r matches Some(t) && t@ == ts[i] && final(self).current == i + 1
                } else {
                    r is None && final(self).current == i
                }
            }),
    {
        let mut k: usize = 0;
        while k < tags.len()
            invariant
                self.inv(),
                self.same(old(self)),
                self.current == old(self).current,
                k <= tags@.len(),
                forall|m: int| 0 <= m < k ==> !is_tag(self.toks(), self.current as int, #[trigger] tags@[m]),
            decreases tags@.len() - k,
        {
            if self.check(tags[k]) {
                self.advance();
                return Some(self.previous().copy());
            }
            k = k + 1;
        }
        proof {
            let ts = self.toks();
            let i = self.current as int;
            if ts[i].tag != TokenTag::EOF && tags@.contains(ts[i].tag) {
                let m = choose|m: int| 0 <= m < tags@.len() && tags@[m] == ts[i].tag;
                assert(!is_tag(ts, i, tags@[m]));
            }
        }
        return None;
    }
}

/// Parsing reads tokens up to the first end-of-file token at most: a
/// successful parse from `i` reads at least one token, stops at an index
/// before an end-of-file token, and reads none on the way.
pub proof fn law_parse_within_tokens(ts: Seq<TokenV>, f: Seq<char>, i: int)
    requires
        eof_after(ts, i),
    ensures
        parse_spec(ts, f, i) matches Ok((_, j)) ==> i < j < ts.len() && eof_after(ts, j)
            && no_eof_between(ts, i, j),
{
    lemma_parse_level(ts, f, 7, i);
}

/// The kinds of token that start a statement.
pub open spec fn starts_statement(tag: TokenTag) -> bool {
    ||| tag == TokenTag::Class
    ||| tag == TokenTag::Fun
    ||| tag == TokenTag::Var
    ||| tag == TokenTag::For
    ||| tag == TokenTag::If
    ||| tag == TokenTag::While
    ||| tag == TokenTag::Print
    ||| tag == TokenTag::Return
}

/// From `j` on, the first index that is the end of file, follows a
/// semicolon, or starts a statement.
pub open spec fn sync_from(ts: Seq<TokenV>, j: int) -> int
    decreases ts.len() - j,
{
    if !(0 <= j < ts.len()) || ts[j].tag == TokenTag::EOF {
        j
    } else if j >= 1 && ts[j - 1].tag == TokenTag::SemiColon {
        j
    } else if starts_statement(ts[j].tag) {
        j
    } else {
        sync_from(ts, j + 1)
    }
}

/// Where recovery after an error at `i` resumes: past the token at `i`, at
/// the next statement boundary.
pub open spec fn synchronise_spec(ts: Seq<TokenV>, i: int) -> int {
    if ts[i].tag == TokenTag::EOF {
        i
    } else {
        sync_from(ts, i + 1)
    }
}

// Main parser
impl Parser {
    /// The expression that the tokens begin with (from the current one on).
    pub fn parse(&mut self) -> (r: Result<Expr, ParseErr>)
        requires
            old(self).ready(),
        ensures
            result_matches(r, parse_spec(old(self).toks(), old(self).file(), old(self).pos()), final(self).pos()),
    {
        return self.expression();
    }

    /// Skips tokens up to the next statement boundary.
    fn synchronise(&mut self)
        requires
            old(self).inv(),
        ensures
            final(self).inv(),
            final(self).same(old(self)),
            final(self).current == synchronise_spec(old(self).toks(), old(self).current as int),
    {
        let ghost ts = self.toks();
        self.advance();
        while !self.at_end()
            invariant
                self.inv(),
                self.same(old(self)),
                ts == self.toks(),
                ts[self.current as int].tag != TokenTag::EOF ==> self.current >= 1,
                sync_from(ts, self.current as int) == synchronise_spec(ts, old(self).current as int),
            decreases ts.len() - self.current,
        {
            if self.previous().tag == TokenTag::SemiColon {
                return;
            }
            match self.peek().tag {
                TokenTag::Class
                | TokenTag::Fun
                | TokenTag::Var
                | TokenTag::For
                | TokenTag::If
                | TokenTag::While
                | TokenTag::Print
                | TokenTag::Return => return,
                _ => (),
            }
            self.advance();
        }
    }

    fn expression(&mut self) -> (r: Result<Expr, ParseErr>)
        requires
            old(self).inv(),
        ensures
            final(self).inv(),
            final(self).same(old(self)),
            result_matches(
                r,
                parse_level(old(self).toks(), old(self).file(), 7, old(self).current as int),
                final(self).current as int,
            ),
        decreases old(self).tokens@.len() - old(self).current, 8nat,
    {
        self.sequence()
    }

    fn sequence(&mut self) -> (r: Result<Expr, ParseErr>)
        requires
            old(self).inv(),
        ensures
            final(self).inv(),
            final(self).same(old(self)),
            result_matches(
                r,
                parse_level(old(self).toks(), old(self).file(), 7, old(self).current as int),
                final(self).current as int,
            ),
        decreases old(self).tokens@.len() - old(self).current, 7nat,
    {
        let ghost ts = self.toks();
        let ghost f = self.file();
        let ghost i = self.current as int;
        proof {
            lemma_parse_level(ts, f, 6nat, i);
        }
        let mut expr = match self.ternary() {
            Ok(e) => e,
            Err(e) => return Err(e),
        };
        loop
            invariant
                self.inv(),
                self.same(old(self)),
                ts == self.toks(),
                f == self.file(),
                i == old(self).current,
                self.current > i,
                parse_rest(ts, f, 7, expr@, self.current as int) == parse_level(ts, f, 7, i),
            decreases ts.len() - self.current,
        {
            let ghost j = self.current as int;
            match self.matches(sequence_ops()) {
                None => {
                    return Ok(expr);
                },
                Some(op) => {
                    proof {
                        lemma_eof_step(ts, j);
                        lemma_parse_level(ts, f, 6nat, j + 1);
                    }
                    let op = BinOp::try_from(&op).expect("',' to be a bin op");
                    let rhs = match self.ternary() {
                        Ok(e) => e,
                        Err(e) => return Err(e),
                    };
                    expr = Expr::binary(op, expr, rhs);
                },
            }
        }
    }

    fn equality(&mut self) -> (r: Result<Expr, ParseErr>)
        requires
            old(self).inv(),
        ensures
            final(self).inv(),
            final(self).same(old(self)),
            result_matches(
                r,
                parse_level(old(self).toks(), old(self).file(), 5, old(self).current as int),
                final(self).current as int,
            ),
        decreases old(self).tokens@.len() - old(self).current, 5nat,
    {
        let ghost ts = self.toks();
        let ghost f = self.file();
        let ghost i = self.current as int;
        proof {
            lemma_parse_level(ts, f, 4nat, i);
        }
        let mut expr = match self.comparison() {
            Ok(e) => e,
            Err(e) => return Err(e),
        };
        loop
            invariant
                self.inv(),
                self.same(old(self)),
                ts == self.toks(),
                f == self.file(),
                i == old(self).current,
                self.current > i,
                parse_rest(ts, f, 5, expr@, self.current as int) == parse_level(ts, f, 5, i),
            decreases ts.len() - self.current,
        {
            let ghost j = self.current as int;
            match self.matches(equality_ops()) {
                None => {
                    return Ok(expr);
                },
                Some(op) => {
                    proof {
                        lemma_eof_step(ts, j);
                        lemma_parse_level(ts, f, 4nat, j + 1);
                    }
                    let op = BinOp::try_from(&op).expect("== and != to be bin ops");
                    let rhs = match self.comparison() {
                        Ok(e) => e,
                        Err(e) => return Err(e),
                    };
                    expr = Expr::binary(op, expr, rhs);
                },
            }
        }
    }

    fn comparison(&mut self) -> (r: Result<Expr, ParseErr>)
        requires
            old(self).inv(),
        ensures
            final(self).inv(),
            final(self).same(old(self)),
            result_matches(
                r,
                parse_level(old(self).toks(), old(self).file(), 4, old(self).current as int),
                final(self).current as int,
            ),
        decreases old(self).tokens@.len() - old(self).current, 4nat,
    {
        let ghost ts = self.toks();
        let ghost f = self.file();
        let ghost i = self.current as int;
        proof {
            lemma_parse_level(ts, f, 3nat, i);
        }
        let mut expr = match self.term() {
            Ok(e) => e,
            Err(e) => return Err(e),
        };
        loop
            invariant
                self.inv(),
                self.same(old(self)),
                ts == self.toks(),
                f == self.file(),
                i == old(self).current,
                self.current > i,
                parse_rest(ts, f, 4, expr@, self.current as int) == parse_level(ts, f, 4, i),
            decreases ts.len() - self.current,
        {
            let ghost j = self.current as int;
            match self.matches(comparison_ops()) {
                None => {
                    return Ok(expr);
                },
                Some(op) => {
                    proof {
                        lemma_eof_step(ts, j);
                        lemma_parse_level(ts, f, 3nat, j + 1);
                    }
                    let op = BinOp::try_from(&op).expect(">, >=, <, <= to be bin ops");
                    let rhs = match self.term() {
                        Ok(e) => e,
                        Err(e) => return Err(e),
                    };
                    expr = Expr::binary(op, expr, rhs);
                },
            }
        }
    }

    fn term(&mut self) -> (r: Result<Expr, ParseErr>)
        requires
            old(self).inv(),
        ensures
            final(self).inv(),
            final(self).same(old(self)),
            result_matches(
                r,
                parse_level(old(self).toks(), old(self).file(), 3, old(self).current as int),
                final(self).current as int,
            ),
        decreases old(self).tokens@.len() - old(self).current, 3nat,
    {
        let ghost ts = self.toks();
        let ghost f = self.file();
        let ghost i = self.current as int;
        proof {
            lemma_parse_level(ts, f, 2nat, i);
        }
        let mut expr = match self.factor() {
            Ok(e) => e,
            Err(e) => return Err(e),
        };
        loop
            invariant
                self.inv(),
                self.same(old(self)),
                ts == self.toks(),
                f == self.file(),
                i == old(self).current,
                self.current > i,
                parse_rest(ts, f, 3, expr@, self.current as int) == parse_level(ts, f, 3, i),
            decreases ts.len() - self.current,
        {
            let ghost j = self.current as int;
            match self.matches(term_ops()) {
                None => {
                    return Ok(expr);
                },
                Some(op) => {
                    proof {
                        lemma_eof_step(ts, j);
                        lemma_parse_level(ts, f, 2nat, j + 1);
                    }
                    let op = BinOp::try_from(&op).expect("+, - to be bin ops");
                    let rhs = match self.factor() {
                        Ok(e) => e,
                        Err(e) => return Err(e),
                    };
                    expr = Expr::binary(op, expr, rhs);
                },
            }
        }
    }

    fn factor(&mut self) -> (r: Result<Expr, ParseErr>)
        requires
            old(self).inv(),
        ensures
            final(self).inv(),
            final(self).same(old(self)),
            result_matches(
                r,
                parse_level(old(self).toks(), old(self).file(), 2, old(self).current as int),
                final(self).current as int,
            ),
        decreases old(self).tokens@.len() - old(self).current, 2nat,
    {
        let ghost ts = self.toks();
        let ghost f = self.file();
        let ghost i = self.current as int;
        proof {
            lemma_parse_level(ts, f, 1nat, i);
        }
        let mut expr = match self.unary() {
            Ok(e) => e,
            Err(e) => return Err(e),
        };
        loop
            invariant
                self.inv(),
                self.same(old(self)),
                ts == self.toks(),
                f == self.file(),
                i == old(self).current,
                self.current > i,
                parse_rest(ts, f, 2, expr@, self.current as int) == parse_level(ts, f, 2, i),
            decreases ts.len() - self.current,
        {
            let ghost j = self.current as int;
            match self.matches(factor_ops()) {
                None => {
                    return Ok(expr);
                },
                Some(op) => {
                    proof {
                        lemma_eof_step(ts, j);
                        lemma_parse_level(ts, f, 1nat, j + 1);
                    }
                    let op = BinOp::try_from(&op).expect("/, * to be bin ops");
                    let rhs = match self.unary() {
                        Ok(e) => e,
                        Err(e) => return Err(e),
                    };
                    expr = Expr::binary(op, expr, rhs);
                },
            }
        }
    }

    fn ternary(&mut self) -> (r: Result<Expr, ParseErr>)
        requires
            old(self).inv(),
        ensures
            final(self).inv(),
            final(self).same(old(self)),
            result_matches(
                r,
                parse_level(old(self).toks(), old(self).file(), 6, old(self).current as int),
                final(self).current as int,
            ),
        decreases old(self).tokens@.len() - old(self).current, 6nat,
    {
        let ghost ts = self.toks();
        let ghost f = self.file();
        let ghost i = self.current as int;
        proof {
            lemma_parse_level(ts, f, 5, i);
        }
        let mut expr = match self.equality() {
            Ok(e) => e,
            Err(e) => return Err(e),
        };
        let ghost j = self.current as int;
        if let Some(token) = self.matches(only_question()) {
            proof {
                lemma_eof_step(ts, j);
                lemma_parse_level(ts, f, 6, j + 1);
            }
            let position = token.position;
            let true_branch = match self.ternary() {
                Ok(e) => e,
                Err(e) => return Err(e),
            };
            let ghost m = self.current as int;
            if let None = self.matches(only_colon()) {
                return Err(ParseErr::new(ParseErrTag::UnclosedTernary, self.filename.clone(), position));
            }
            proof {
                lemma_eof_step(ts, m);
            }
            let false_branch = match self.ternary() {
                Ok(e) => e,
                Err(e) => return Err(e),
            };
            expr = Expr::ternary(expr, true_branch, false_branch);
        }
        Ok(expr)
    }

    fn unary(&mut self) -> (r: Result<Expr, ParseErr>)
        requires
            old(self).inv(),
        ensures
            final(self).inv(),
            final(self).same(old(self)),
            result_matches(
                r,
                parse_level(old(self).toks(), old(self).file(), 1, old(self).current as int),
                final(self).current as int,
            ),
        decreases old(self).tokens@.len() - old(self).current, 1nat,
    {
        let ghost ts = self.toks();
        let ghost i = self.current as int;
        if let Some(op) = self.matches(unary_ops()) {
            proof {
                lemma_eof_step(ts, i);
            }
            let op = UnOp::try_from(&op).expect("!, - to be unary ops");
            let arg = match self.unary() {
                Ok(e) => e,
                Err(e) => return Err(e),
            };
            return Ok(Expr::unary(op, arg));
        }
        self.primary()
    }

    fn primary(&mut self) -> (r: Result<Expr, ParseErr>)
        requires
            old(self).inv(),
        ensures
            final(self).inv(),
            final(self).same(old(self)),
            result_matches(
                r,
                parse_level(old(self).toks(), old(self).file(), 0, old(self).current as int),
                final(self).current as int,
            ),
            // A token that starts no expression is reported and left unread.
            !starts_primary(old(self).toks()[old(self).current as int].tag) ==> final(self).current
                == old(self).current,
        decreases old(self).tokens@.len() - old(self).current, 0nat,
    {
        let ghost ts = self.toks();
        let ghost f = self.file();
        let ghost i = self.current as int;
        if let Some(_) = self.matches(only_true()) {
            return Ok(Expr::tr());
        }
        if let Some(_) = self.matches(only_false()) {
            return Ok(Expr::fls());
        }
        if let Some(_) = self.matches(only_nil()) {
            return Ok(Expr::Nil);
        }
        if let Some(token) = self.matches(only_string()) {
            return Ok(Expr::StrLiteral { val: token.lexeme });
        }
        if let Some(token) = self.matches(only_number()) {
            return Ok(Expr::NumLiteral { val: token.lexeme });
        }
        if let Some(opening_paren) = self.matches(only_leftparen()) {
            proof {
                lemma_eof_step(ts, i);
                lemma_parse_level(ts, f, 7, i + 1);
            }
            let position = opening_paren.position;
            let val = match self.expression() {
                Ok(e) => e,
                Err(e) => return Err(e),
            };
            if let None = self.matches(only_rightparen()) {
                return Err(ParseErr::new(ParseErrTag::UnmatchedParen, self.filename.clone(), position));
            }
            return Ok(Expr::grouping(val));
        }
        return Err(ParseErr::new(ParseErrTag::MissingExpression, self.filename.clone(), self.peek().position));
    }
}

} // verus!
