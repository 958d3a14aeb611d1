//! Reading a Lox source text: scanning it, then parsing its tokens.
use vstd::prelude::*;

use crate::parse::ast::expr::Expr;
use crate::parse::lex::err::{lex_errs_view, LexErr};
use crate::parse::lex::scan::{law_scan_tokens, scan_spec, scannable, Scanner};
use crate::parse::parse::err::ParseErr;
use crate::parse::parse::parser::{parse_spec, Parser};
use crate::parse::position::start_pos;
use crate::parse::token::{tokens_view, Token, TokenTag, TokenV};

verus! {

/// Whether a token is a comment, which the parser does not see.
pub open spec fn is_comment(tag: TokenTag) -> bool {
    tag == TokenTag::Comment || tag == TokenTag::InlineComment
}

/// The tokens without the comments, in their order.
pub open spec fn drop_comments(ts: Seq<TokenV>) -> Seq<TokenV>
    decreases ts.len(),
{
    if ts.len() == 0 {
        Seq::empty()
    } else {
        let r = drop_comments(ts.drop_last());
        if is_comment(ts.last().tag) {
            r
        } else {
            r.push(ts.last())
        }
    }
}

/// Dropping comments keeps a last end-of-file token last.
pub proof fn lemma_drop_comments_eof(ts: Seq<TokenV>)
    requires
        ts.len() > 0,
        ts.last().tag == TokenTag::EOF,
    ensures
        drop_comments(ts).len() > 0,
        drop_comments(ts).last().tag == TokenTag::EOF,
{
}

/// The tokens that are not comments.
pub fn without_comments(tokens: &Vec<Token>) -> (r: Vec<Token>)
    ensures
        tokens_view(r@) == drop_comments(tokens_view(tokens@)),
{
    let ghost all = tokens_view(tokens@);
    let mut out: Vec<Token> = Vec::new();
    let mut i: usize = 0;
    while i < tokens.len()
        invariant
            i <= tokens.len(),
            all == tokens_view(tokens@),
            tokens_view(out@) == drop_comments(all.take(i as int)),
        decreases tokens.len() - i,
    {
        let t = tokens[i].copy();
        proof {
            assert(all.take(i + 1).drop_last() =~= all.take(i as int));
            assert(all.take(i + 1).last() == t@);
        }
        if !(t.tag == TokenTag::Comment || t.tag == TokenTag::InlineComment) {
            proof {
                assert(tokens_view(out@.push(t)) =~= tokens_view(out@).push(t@));
            }
            out.push(t);
        }
        i = i + 1;
    }
    assert(all.take(tokens.len() as int) =~= all);
    out
}

/// What reading a source text comes to.
pub enum Outcome {
    /// The text holds characters that form no token: these errors.
    ScanErrors(Vec<LexErr>),
    /// The tokens, comments left out, begin with this expression.
    Parsed(Expr),
    /// The tokens, comments left out, do not begin with an expression.
    ParseFailed(ParseErr),
}

/// Scans the source text; where that gives no error, parses its tokens
/// with the comments left out.
pub fn run(filename: &str, source: &str) -> (o: Outcome)
    requires
        scannable(source@),
    ensures
        ({
            let (ts, es) = scan_spec(source@, filename@, start_pos());
            if es.len() > 0 {
                o matches Outcome::ScanErrors(v) && lex_errs_view(v@) == es
            } else {
                match parse_spec(drop_comments(ts), filename@, 0) {
                    Ok((e, _)) => o matches Outcome::Parsed(x) && x@ == e,
                    Err(pe) => o matches Outcome::ParseFailed(x) && x@ == pe,
                }
            }
        }),
{
    let mut scanner = Scanner::new(filename, source);
    let (tokens, errs) = scanner.scan();
    if errs.len() > 0 {
        return Outcome::ScanErrors(errs);
    }
    let ghost ts = scan_spec(source@, filename@, start_pos()).0;
    let kept = without_comments(&tokens);
    proof {
        law_scan_tokens(source@, filename@, start_pos());
        lemma_drop_comments_eof(ts);
        let ks = drop_comments(ts);
        assert(ks[ks.len() - 1].tag == TokenTag::EOF);
    }
    let mut parser = Parser::new(kept, String::from_str(filename));
    match parser.parse() {
        Ok(ast) => Outcome::Parsed(ast),
        Err(err) => Outcome::ParseFailed(err),
    }
}

} // verus!
