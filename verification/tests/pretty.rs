use lox::format::html::{Attr, XML};
use lox::format::pretty::Fillable;
use lox::format::pretty::{fill, Doc, Pretty};

fn layout(d: Doc, width: usize) -> String {
    d.pretty(width)
}

#[test]
fn sample_paragraph_width_30() {
    assert_eq!(
        lox::format::html::test(),
        "<p\n  color=\"red\" font=\"Times\"\n  size=\"10\"\n>\n  Here is some\n  <em> emphasized </em> text.\n  Here is a\n  <a\n    href=\"http://www.eg.com/\"\n  > link </a>\n  elsewhere.\n</p>"
    );
}

#[test]
fn prose_breaks_where_words_do_not_fit() {
    let d = Doc::prose("the quick brown fox jumps over the lazy dog");
    assert_eq!(layout(d, 15), "the quick brown\nfox jumps over\nthe lazy dog");
}

#[test]
fn bracket_stays_flat_when_it_fits() {
    let d = Doc::text("x").bracket("[", "]");
    assert_eq!(layout(d, 10), "[ x ]");
}

fn words(s: &str) -> Vec<Doc> {
    s.split(' ').map(Doc::text).collect()
}

#[test]
fn fill_packs_words_on_lines() {
    let ws = words("aaa bbb ccc ddd eee");
    assert_eq!(layout(fill(&ws), 8), "aaa bbb\nccc ddd\neee");
    assert_eq!(layout(fill(&ws), 100), "aaa bbb ccc ddd eee");
}

#[test]
fn fill_of_nothing_and_of_one() {
    assert!(matches!(fill(&[]), Doc::Nil));
    assert_eq!(layout(fill(&[Doc::text("solo")]), 1), "solo");
}

#[test]
fn join_puts_documents_on_lines() {
    let ds = vec![Doc::text("a"), Doc::text("b"), Doc::text("c")];
    assert_eq!(layout(ds.join(), 80), "a\nb\nc");
    let with_nil = vec![Doc::Nil, Doc::text("a"), Doc::text("b")];
    assert_eq!(layout(with_nil.join(), 80), "a\nb");
}

#[test]
fn nest_indents_line_breaks() {
    let d = Doc::Concat(Box::new(Doc::text("x")), Box::new(Doc::Concat(Box::new(Doc::Line), Box::new(Doc::text("y")))));
    assert_eq!(layout(d.nest(4), 80), "x\n    y");
}

#[test]
fn group_is_flat_when_it_fits_and_broken_otherwise() {
    let d = Doc::Concat(Box::new(Doc::text("x")), Box::new(Doc::Concat(Box::new(Doc::Line), Box::new(Doc::text("y")))));
    assert_eq!(layout(d.group(), 80), "x y");
    assert_eq!(layout(d.group(), 2), "x\ny");
}

#[test]
fn bracket_breaks_its_content_when_too_wide() {
    let d = Doc::prose("aa bb cc").bracket("[", "]");
    assert_eq!(layout(d, 6), "[\n  aa\n  bb\n  cc\n]");
}

#[test]
fn or_takes_the_second_layout_when_the_first_does_not_fit() {
    let d = Doc::or(&Doc::text("long text"), &Doc::text("short"));
    assert_eq!(layout(d, 5), "short");
    let d = Doc::or(&Doc::text("long text"), &Doc::text("short"));
    assert_eq!(layout(d, 9), "long text");
}

#[test]
fn zero_width_breaks_every_choice() {
    let d = Doc::Concat(
        Box::new(Doc::text("a")),
        Box::new(Doc::Concat(Box::new(Doc::break_space()), Box::new(Doc::text("b")))),
    );
    assert_eq!(layout(d, 0), "a\nb");
}

#[test]
fn line_at_indent_zero_is_a_bare_newline() {
    let d = Doc::Concat(Box::new(Doc::text("ab")), Box::new(Doc::Line));
    assert_eq!(layout(d, 80), "ab\n");
}

#[test]
fn flatten_turns_lines_into_spaces() {
    let d = Doc::Concat(Box::new(Doc::text("a")), Box::new(Doc::Concat(Box::new(Doc::Line), Box::new(Doc::text("b")))))
        .nest(3);
    let f = d.flatten();
    assert_eq!(layout(f.flatten(), 1), "a b");
    assert_eq!(layout(f, 1), "a b");
}

#[test]
fn flat_document_stays_on_one_line_at_any_width() {
    let d = Doc::prose("one two three four").flatten();
    for w in [0usize, 1, 5, 100] {
        assert_eq!(layout(d.copy(), w), "one two three four");
    }
}

#[test]
fn prose_skips_all_kinds_of_white_space() {
    let d = Doc::prose("  a\t\tb\n c  ");
    assert_eq!(layout(d, 80), "a b c");
    assert!(matches!(Doc::prose("   "), Doc::Nil));
}

#[test]
fn default_document_is_empty() {
    let d: Doc = Default::default();
    assert!(matches!(d, Doc::Nil));
    assert_eq!(layout(d, 10), "");
}

#[test]
fn limits_are_checked() {
    assert!(Doc::text("abc").nest(4).within_limits());
    assert!(!Doc::text("abc").nest(usize::MAX).within_limits());
}

#[test]
fn attribute_is_name_equals_quoted_value() {
    let a = Attr("color".to_string(), "red".to_string());
    assert_eq!(a.pretty(80), "color=\"red\"");
}

#[test]
fn xml_text_is_split_on_single_spaces() {
    let x = XML::Txt("  a  b ".to_string());
    assert_eq!(x.pretty(80), "ab");
}

#[test]
fn empty_element_closes_itself() {
    let x = XML::Elt("br".to_string(), vec![], vec![]);
    assert_eq!(x.pretty(80), "<br/>");
}

#[test]
fn sample_paragraph_width_60() {
    let x = XML::Elt(
        "p".to_string(),
        vec![
            Attr("color".into(), "red".into()),
            Attr("font".into(), "Times".into()),
            Attr("size".into(), "10".into()),
        ],
        vec![
            XML::Txt("Here is some".into()),
            XML::Elt("em".into(), vec![], vec![XML::Txt("emphasized".into())]),
            XML::Txt("text.".into()),
            XML::Txt("Here is a".into()),
            XML::Elt("a".into(), vec![Attr("href".into(), "http://www.eg.com/".into())], vec![XML::Txt("link".into())]),
            XML::Txt("elsewhere.".into()),
        ],
    );
    assert_eq!(
        x.pretty(60),
        "<p color=\"red\" font=\"Times\" size=\"10\" >\n  Here is some <em> emphasized </em> text. Here is a\n  <a href=\"http://www.eg.com/\" > link </a> elsewhere.\n</p>"
    );
}

#[test]
fn operators_build_documents() {
    let a = Doc::text("a");
    let b = Doc::text("b");
    let both = &a + &b;
    assert_eq!(layout(both, 80), "ab");
    let choice = &Doc::text("wide text") | &Doc::text("w");
    assert_eq!(layout(choice, 3), "w");
    let owned = Doc::text("x") + Doc::Line + Doc::text("y");
    assert_eq!(layout(owned, 80), "x\ny");
    let owned_choice = Doc::text("long") | Doc::text("s");
    assert_eq!(layout(owned_choice, 2), "s");
}

#[test]
fn documents_from_text() {
    let d: Doc = "hello".into();
    assert_eq!(layout(d, 80), "hello");
    let d = Doc::from(String::from("owned"));
    assert_eq!(layout(d, 80), "owned");
}

#[test]
fn fill_choices_have_equal_flat_forms() {
    let ws = words("a b c d");
    match fill(&ws) {
        Doc::Or(left, right) => {
            assert_eq!(layout(left.flatten(), 80), layout(right.flatten(), 80));
            assert_eq!(layout(left.flatten(), 80), "a b c d");
        },
        _ => panic!("fill of several documents is a choice"),
    }
}

#[test]
fn group_choices_have_equal_flat_forms() {
    let d = Doc::prose("x y z").bracket("(", ")");
    match d {
        Doc::Or(a, b) => assert_eq!(layout(a.flatten(), 1), layout(b.flatten(), 1)),
        _ => panic!("a bracket is a group"),
    }
}

#[test]
fn layout_only_moves_line_breaks() {
    let text = "the quick brown fox jumps over the lazy dog";
    for w in [0usize, 5, 15, 100] {
        let out = layout(Doc::prose(text), w);
        let joined: Vec<&str> = out.split('\n').map(|l| l.trim_start()).collect();
        assert_eq!(joined.join(" "), text);
    }
}

#[test]
fn document_without_choices_ignores_the_width() {
    let d = Doc::Concat(Box::new(Doc::text("x")), Box::new(Doc::Concat(Box::new(Doc::Line), Box::new(Doc::text("y")))))
        .nest(2);
    assert_eq!(layout(d.copy(), 0), "x\n  y");
    assert_eq!(layout(d, 100), "x\n  y");
}

#[test]
fn fill_flat_text_is_words_joined_by_spaces() {
    let ws = words("aa b ccc");
    assert_eq!(layout(fill(&ws).flatten(), 0), "aa b ccc");
}
