use lox::parse::report::to_decimal;
use lox::parse::lex::err::LexErrTag;
use lox::parse::lex::scan::Scanner;
use lox::parse::position::DocumentPosition;
use lox::parse::token::{Token, TokenTag};

fn scan(src: &str) -> (Vec<Token>, Vec<lox::parse::lex::err::LexErr>) {
    Scanner::new("test.lox", src).scan()
}

fn pos(offset: usize, column: usize, line: usize) -> DocumentPosition {
    DocumentPosition { offset, column, line }
}

fn tags(ts: &[Token]) -> Vec<TokenTag> {
    ts.iter().map(|t| t.tag).collect()
}

#[test]
fn sum_of_two_numbers() {
    let (ts, errs) = scan("1 + 2");
    assert!(errs.is_empty());
    assert_eq!(tags(&ts), vec![TokenTag::Number, TokenTag::Plus, TokenTag::Number, TokenTag::EOF]);
    assert_eq!(ts[0].lexeme, "1");
    assert_eq!(ts[1].position, pos(2, 3, 1));
    assert_eq!(ts[2].position, pos(4, 5, 1));
    assert_eq!(ts[3].position, pos(5, 6, 1));
    assert_eq!(ts[3].lexeme, "");
}

#[test]
fn empty_text_gives_only_end_of_file() {
    let (ts, errs) = scan("");
    assert!(errs.is_empty());
    assert_eq!(tags(&ts), vec![TokenTag::EOF]);
    assert_eq!(ts[0].position, pos(0, 1, 1));
}

#[test]
fn newline_starts_the_next_line_at_column_one() {
    let (ts, _) = scan("a\nb");
    assert_eq!(ts[0].position, pos(0, 1, 1));
    assert_eq!(ts[1].position, pos(2, 1, 2));
    assert_eq!(ts[2].position, pos(3, 2, 2));
}

#[test]
fn newlines_inside_comments_and_strings_count() {
    let (ts, errs) = scan("/* a\nb */ x \"p\\\nq\" y");
    assert!(errs.is_empty());
    assert_eq!(tags(&ts), vec![TokenTag::InlineComment, TokenTag::Identifier, TokenTag::String, TokenTag::Identifier, TokenTag::EOF]);
    assert_eq!(ts[1].position, pos(10, 6, 2));
    assert_eq!(ts[2].lexeme, "\"p\\\nq\"");
    assert_eq!(ts[3].position, pos(19, 4, 3));
}

#[test]
fn keywords_and_identifiers() {
    let (ts, _) = scan("var x = nil; while classy");
    assert_eq!(
        tags(&ts),
        vec![
            TokenTag::Var,
            TokenTag::Identifier,
            TokenTag::Equal,
            TokenTag::Nil,
            TokenTag::SemiColon,
            TokenTag::While,
            TokenTag::Identifier,
            TokenTag::EOF
        ]
    );
    assert_eq!(ts[6].lexeme, "classy");
}

#[test]
fn two_character_operators() {
    let (ts, _) = scan("!= ! == = <= < >= >");
    assert_eq!(
        tags(&ts),
        vec![
            TokenTag::BangEqual,
            TokenTag::Bang,
            TokenTag::EqualEqual,
            TokenTag::Equal,
            TokenTag::LessEqual,
            TokenTag::Less,
            TokenTag::GreaterEqual,
            TokenTag::Greater,
            TokenTag::EOF
        ]
    );
}

#[test]
fn line_comment_runs_to_the_end_of_the_line() {
    let (ts, _) = scan("// hi\n1");
    assert_eq!(tags(&ts), vec![TokenTag::Comment, TokenTag::Number, TokenTag::EOF]);
    assert_eq!(ts[0].lexeme, "// hi");
    assert_eq!(ts[1].position, pos(6, 1, 2));
}

#[test]
fn block_comments_nest() {
    let (ts, errs) = scan("/* a /* b */ c */x");
    assert!(errs.is_empty());
    assert_eq!(tags(&ts), vec![TokenTag::InlineComment, TokenTag::Identifier, TokenTag::EOF]);
    assert_eq!(ts[0].lexeme, "/* a /* b */ c */");
    assert_eq!(ts[1].position.offset, 17);
}

#[test]
fn unterminated_block_comment() {
    let (ts, errs) = scan("/* open");
    assert_eq!(errs.len(), 1);
    assert!(matches!(errs[0].tag(), LexErrTag::UnterminatedComment));
    assert_eq!(errs[0].position(), pos(0, 1, 1));
    assert_eq!(tags(&ts), vec![TokenTag::EOF]);
    assert_eq!(ts[0].position, pos(7, 8, 1));
}

#[test]
fn strings_with_escapes() {
    let (ts, errs) = scan("\"a\\\"b\" 1");
    assert!(errs.is_empty());
    assert_eq!(tags(&ts), vec![TokenTag::String, TokenTag::Number, TokenTag::EOF]);
    assert_eq!(ts[0].lexeme, "\"a\\\"b\"");
}

#[test]
fn unterminated_string() {
    let (ts, errs) = scan("x \"abc");
    assert_eq!(errs.len(), 1);
    assert!(matches!(errs[0].tag(), LexErrTag::UnterminatedString));
    assert_eq!(errs[0].position(), pos(2, 3, 1));
    assert_eq!(tags(&ts), vec![TokenTag::Identifier, TokenTag::EOF]);
}

#[test]
fn unexpected_character_is_reported_and_skipped() {
    let (ts, errs) = scan("@ 1");
    assert_eq!(errs.len(), 1);
    assert!(matches!(errs[0].tag(), LexErrTag::UnexpectedCharacter));
    assert_eq!(errs[0].position(), pos(0, 1, 1));
    assert_eq!(tags(&ts), vec![TokenTag::Number, TokenTag::EOF]);
}

#[test]
fn numbers_with_and_without_fraction() {
    let (ts, _) = scan("3.14 3.");
    assert_eq!(tags(&ts), vec![TokenTag::Number, TokenTag::Number, TokenTag::Dot, TokenTag::EOF]);
    assert_eq!(ts[0].lexeme, "3.14");
    assert_eq!(ts[1].lexeme, "3");
}

#[test]
fn question_mark_is_not_a_token() {
    let (_, errs) = scan("?");
    assert!(matches!(errs[0].tag(), LexErrTag::UnexpectedCharacter));
}

#[test]
fn every_token_is_the_text_at_its_position() {
    let src = "var answer = (1 + 2.5) * \"x\"; // done";
    let (ts, _) = scan(src);
    let mut last_end = 0;
    for t in &ts[..ts.len() - 1] {
        let start = t.position.offset;
        assert!(start >= last_end);
        assert_eq!(&src[start..start + t.lexeme.len()], t.lexeme);
        last_end = start + t.lexeme.len();
    }
    assert_eq!(ts.last().unwrap().tag, TokenTag::EOF);
}

#[test]
fn lex_error_report() {
    let (_, errs) = scan("\n  \"abc");
    let d = errs[0].report();
    assert_eq!(d.code, 2);
    assert_eq!(d.message, "Unterminated string");
    assert_eq!(d.note, "A string is started at 2:3 but never closed");
    assert_eq!(d.label, "String starts here");
    assert_eq!(d.filename, "test.lox");
    assert_eq!(d.offset, 3);
}

#[test]
fn other_lex_error_reports() {
    let (_, errs) = scan("@");
    let d = errs[0].report();
    assert_eq!(d.code, 1);
    assert_eq!(d.message, "Unexpected character");
    assert_eq!(d.note, "This doesn't seem like valid syntax...");
    let (_, errs) = scan("/*");
    let d = errs[0].report();
    assert_eq!(d.code, 3);
    assert_eq!(d.note, "A comment is started at 1:1 but never closed");
    assert_eq!(d.label, "Comment is starts here");
}

#[test]
fn error_codes() {
    assert_eq!(LexErrTag::UnexpectedCharacter.to_err_code(), 1);
    assert_eq!(LexErrTag::UnterminatedString.to_err_code(), 2);
    assert_eq!(LexErrTag::UnterminatedComment.to_err_code(), 3);
}

#[test]
fn decimal_numbers() {
    assert_eq!(to_decimal(0), "0");
    assert_eq!(to_decimal(7), "7");
    assert_eq!(to_decimal(1234), "1234");
    assert_eq!(to_decimal(usize::MAX), usize::MAX.to_string());
}

#[test]
fn position_moves() {
    let mut p = DocumentPosition::default();
    assert_eq!(p, pos(0, 1, 1));
    p.advance();
    assert_eq!(p, pos(1, 2, 1));
    p.newline();
    assert_eq!(p, pos(1, 1, 2));
    let mut q = DocumentPosition::default();
    q.set(&p);
    assert_eq!(q, p);
}

#[test]
fn scanning_keeps_every_visible_character() {
    let text = "  x = (1 + 22)\n  / y ";
    let (ts, errs) = scan(text);
    assert!(errs.is_empty());
    for (k, c) in text.chars().enumerate() {
        if !c.is_whitespace() {
            assert!(ts.iter().any(|t| t.position.offset <= k && k < t.position.offset + t.lexeme.len()));
        }
    }
    assert_eq!(ts[ts.len() - 2].position, pos(19, 5, 2));
}
