use lox::ast::{BinOp, UnOp};
use lox::lex::{ParseErr, Scanner, TokenTag};

#[test]
fn line_scanner_reads_tokens_with_lines_and_columns() {
    let (ts, errs) = Scanner::new("1 + x").scan();
    assert!(errs.is_empty());
    let tags: Vec<TokenTag> = ts.iter().map(|t| t.tag()).collect();
    assert_eq!(tags, vec![TokenTag::Number, TokenTag::Plus, TokenTag::Identifier, TokenTag::EOF]);
    assert_eq!(ts[2].lexeme(), "x");
    assert_eq!(ts[2].column(), 5);
    assert_eq!(ts[3].column(), 6);
    assert_eq!(ts[3].line(), 1);
}

#[test]
fn line_scanner_gives_a_string_the_line_where_it_ends() {
    let (ts, _) = Scanner::new("\"a\nb\"").scan();
    assert_eq!(ts[0].tag(), TokenTag::String);
    assert_eq!(ts[0].line(), 2);
    assert_eq!(ts[0].column(), 1);
}

#[test]
fn line_scanner_errors_carry_no_position() {
    let (ts, errs) = Scanner::new("x \"ab").scan();
    assert_eq!(errs, vec![ParseErr::UnterminatedString]);
    assert_eq!(ts.len(), 2);
    assert_eq!(ts[1].tag(), TokenTag::EOF);
    assert_eq!(ts[1].column(), 3);
    let (_, errs) = Scanner::new("$").scan();
    assert_eq!(errs, vec![ParseErr::UnexpectedCharacter]);
}

#[test]
fn line_scanner_block_comment() {
    let (ts, _) = Scanner::new("/* c */ 1").scan();
    assert_eq!(ts[0].tag(), TokenTag::InlineComment);
    assert_eq!(ts[0].lexeme(), "/* c */");
    assert_eq!(ts[1].tag(), TokenTag::Number);
}

#[test]
fn simple_ast_operators() {
    assert_eq!(BinOp::Neq.to_string(), "!=");
    assert_eq!(UnOp::Neg.to_string(), "-");
}

#[test]
fn line_scanner_block_comment_holding_a_slash() {
    let (ts, errs) = Scanner::new("/* a/b */").scan();
    assert!(errs.is_empty());
    assert_eq!(ts.len(), 2);
    assert_eq!(ts[0].tag(), TokenTag::InlineComment);
    assert_eq!(ts[0].lexeme(), "/* a/b */");
    assert_eq!(ts[0].column(), 1);
    assert_eq!(ts[1].tag(), TokenTag::EOF);
    assert_eq!(ts[1].column(), 10);
}

#[test]
fn line_scanner_counts_lines_in_comments() {
    let (ts, _) = Scanner::new("/* a\n*/ x").scan();
    assert_eq!(ts[0].line(), 2);
    assert_eq!(ts[1].lexeme(), "x");
    assert_eq!(ts[1].line(), 2);
    assert_eq!(ts[1].column(), 4);
}

#[test]
fn line_scanner_checked_scan_reports_an_open_comment() {
    assert!(Scanner::new("1 /* open").scan_checked().is_none());
    let (ts, errs) = Scanner::new("1 /* shut */").scan_checked().expect("the comment is closed");
    assert!(errs.is_empty());
    assert_eq!(ts.len(), 3);
    assert_eq!(ts[1].tag(), TokenTag::InlineComment);
    assert!(Scanner::new("\"/*\"").scan_checked().is_some());
}
