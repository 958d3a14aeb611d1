use lox::driver::{run, Outcome};
use lox::parse::ast::expr::{BinOp, Expr, UnOp};
use lox::parse::lex::scan::Scanner;
use lox::parse::parse::err::ParseErrTag;
use lox::parse::parse::parser::Parser;
use lox::parse::position::DocumentPosition;
use lox::parse::token::{Token, TokenTag};

fn parse(src: &str) -> Result<Expr, lox::parse::parse::err::ParseErr> {
    let (ts, errs) = Scanner::new("t.lox", src).scan();
    assert!(errs.is_empty());
    Parser::new(ts, "t.lox".to_string()).parse()
}

fn tok(tag: TokenTag, lexeme: &str, offset: usize) -> Token {
    Token::new(tag, lexeme.to_string(), DocumentPosition { offset, column: offset + 1, line: 1 })
}

#[test]
fn subtraction_is_left_associative() {
    let e = parse("1 - 2 - 3").unwrap();
    match &e {
        Expr::Binary { op: BinOp::Minus, lhs, rhs } => {
            assert!(matches!(**lhs, Expr::Binary { op: BinOp::Minus, .. }));
            assert!(matches!(&**rhs, Expr::NumLiteral { val } if val == "3"));
        },
        _ => panic!("expected a subtraction"),
    }
    assert_eq!(e.to_string(), "1 - 2 - 3");
}

#[test]
fn factors_bind_tighter_than_terms() {
    let e = parse("1 + 2 * 3").unwrap();
    match &e {
        Expr::Binary { op: BinOp::Plus, rhs, .. } => {
            assert!(matches!(**rhs, Expr::Binary { op: BinOp::Times, .. }));
        },
        _ => panic!("expected a sum"),
    }
}

#[test]
fn unary_grouping_and_product() {
    let e = parse("-(1 + 2) * 3").unwrap();
    match &e {
        Expr::Binary { op: BinOp::Times, lhs, .. } => match &**lhs {
            Expr::Unary { op: UnOp::Neg, arg } => assert!(matches!(**arg, Expr::Grouping { .. })),
            _ => panic!("expected a negation"),
        },
        _ => panic!("expected a product"),
    }
    assert_eq!(e.to_string(), "-(1 + 2) * 3");
}

#[test]
fn comparisons_equalities_and_sequences() {
    let e = parse("1 < 2 == true, !nil").unwrap();
    assert_eq!(e.to_string(), "1 < 2 == true , !nil");
    match &e {
        Expr::Binary { op: BinOp::Sequence, lhs, rhs } => {
            assert!(matches!(**lhs, Expr::Binary { op: BinOp::Eq, .. }));
            assert!(matches!(**rhs, Expr::Unary { op: UnOp::Not, .. }));
        },
        _ => panic!("expected a sequence"),
    }
}

#[test]
fn literals() {
    assert!(matches!(parse("true").unwrap(), Expr::BoolLiteral { val: true }));
    assert!(matches!(parse("false").unwrap(), Expr::BoolLiteral { val: false }));
    assert!(matches!(parse("nil").unwrap(), Expr::Nil));
    assert_eq!(parse("\"hi\"").unwrap().to_string(), "\"hi\"");
    assert_eq!(parse("2.50").unwrap().to_string(), "2.50");
}

#[test]
fn unmatched_paren_points_at_the_paren() {
    let err = parse("1 + (2 * 3").unwrap_err();
    assert!(matches!(err.tag(), ParseErrTag::UnmatchedParen));
    assert_eq!(err.position().offset, 4);
    let d = err.report();
    assert_eq!(d.code, 5);
    assert_eq!(d.message, "Unmatched Parenthesis");
    assert_eq!(d.note, "A paren is open, but never closed");
    assert_eq!(d.label, "Paren opened here");
    assert_eq!(d.offset, 4);
}

#[test]
fn missing_expression_points_at_the_token_found() {
    let err = parse("1 +").unwrap_err();
    assert!(matches!(err.tag(), ParseErrTag::MissingExpression));
    assert_eq!(err.position().offset, 3);
    let d = err.report();
    assert_eq!(d.code, 4);
    assert_eq!(d.message, "Missing expression");
    let err = parse("").unwrap_err();
    assert!(matches!(err.tag(), ParseErrTag::MissingExpression));
}

#[test]
fn parsing_stops_before_a_comment() {
    let e = parse("1 // one").unwrap();
    assert_eq!(e.to_string(), "1");
}

#[test]
fn conditional_expression() {
    let ts = vec![
        tok(TokenTag::Number, "1", 0),
        tok(TokenTag::Question, "?", 2),
        tok(TokenTag::Number, "2", 4),
        tok(TokenTag::Colon, ":", 6),
        tok(TokenTag::Number, "3", 8),
        tok(TokenTag::EOF, "", 9),
    ];
    let e = Parser::new(ts, "t".to_string()).parse().unwrap();
    assert!(matches!(e, Expr::Ternary { .. }));
    assert_eq!(e.to_string(), "1 ? 2 : 3");
}

#[test]
fn conditional_without_colon() {
    let ts = vec![
        tok(TokenTag::Number, "1", 0),
        tok(TokenTag::Question, "?", 2),
        tok(TokenTag::Number, "2", 4),
        tok(TokenTag::EOF, "", 5),
    ];
    let err = Parser::new(ts, "t".to_string()).parse().unwrap_err();
    assert!(matches!(err.tag(), ParseErrTag::UnclosedTernary));
    assert_eq!(err.position().offset, 2);
    assert_eq!(err.report().code, 6);
}

#[test]
fn parser_stops_at_the_first_end_of_file() {
    let ts = vec![tok(TokenTag::EOF, "", 0), tok(TokenTag::Number, "1", 1)];
    let err = Parser::new(ts, "t".to_string()).parse().unwrap_err();
    assert!(matches!(err.tag(), ParseErrTag::MissingExpression));
}

#[test]
fn operator_conversions() {
    assert_eq!(BinOp::try_from(&TokenTag::Comma), Ok(BinOp::Sequence));
    assert_eq!(BinOp::try_from(&TokenTag::Slash), Ok(BinOp::Divide));
    assert_eq!(BinOp::try_from(&TokenTag::Bang), Err(()));
    assert_eq!(UnOp::try_from(&TokenTag::Minus), Ok(UnOp::Neg));
    assert_eq!(UnOp::try_from(&TokenTag::Plus), Err(()));
    assert_eq!(UnOp::try_from(&tok(TokenTag::Bang, "!", 0)), Ok(UnOp::Not));
    assert_eq!(BinOp::try_from(&tok(TokenTag::Star, "*", 0)), Ok(BinOp::Times));
    assert_eq!(BinOp::Lte.to_string(), " <= ");
    assert_eq!(UnOp::Not.to_string(), "!");
}

#[test]
fn constructors() {
    let e = Expr::binary(BinOp::Gt, Expr::tr(), Expr::unary(UnOp::Not, Expr::grouping(Expr::fls())));
    assert_eq!(e.to_string(), "true > !(false)");
}

#[test]
fn run_parses_a_clean_text() {
    match run("f.lox", "(1 + 2) >= 3") {
        Outcome::Parsed(e) => assert_eq!(e.to_string(), "(1 + 2) >= 3"),
        _ => panic!("expected an expression"),
    }
}

#[test]
fn run_stops_at_scan_errors() {
    match run("f.lox", "1 + @ + #") {
        Outcome::ScanErrors(errs) => assert_eq!(errs.len(), 2),
        _ => panic!("expected scan errors"),
    }
}

#[test]
fn run_reports_parse_errors() {
    match run("f.lox", ")") {
        Outcome::ParseFailed(e) => assert!(matches!(e.tag(), ParseErrTag::MissingExpression)),
        _ => panic!("expected a parse error"),
    }
}

#[test]
fn run_ignores_comments() {
    match run("f.lox", "/* c */ 1 // done") {
        Outcome::Parsed(e) => assert_eq!(e.to_string(), "1"),
        _ => panic!("expected an expression"),
    }
    match run("f.lox", "// only a comment") {
        Outcome::ParseFailed(e) => assert!(matches!(e.tag(), ParseErrTag::MissingExpression)),
        _ => panic!("expected a parse error"),
    }
}

#[test]
fn printed_expression_reads_back_the_same() {
    for src in ["(1+2)*-3", "!true == nil != \"a\\\"b\"", "1 - 2 - 3, 4 >= 5 / 6.5"] {
        let first = match run("f.lox", src) {
            Outcome::Parsed(e) => e.to_string(),
            _ => panic!("expected an expression"),
        };
        match run("f.lox", &first) {
            Outcome::Parsed(e) => assert_eq!(e.to_string(), first),
            _ => panic!("the printed text should read back"),
        }
    }
    match run("f.lox", "(1+2)*-3") {
        Outcome::Parsed(e) => assert_eq!(e.to_string(), "(1 + 2) * -3"),
        _ => panic!("expected an expression"),
    }
}
