use vstd::prelude::*;

use crate::parse::position::DocumentPosition;
use crate::parse::report::Diagnostic;

verus! {

/// The kinds of error that parsing reports.
#[derive(Debug, Clone, Copy, PartialEq, Eq, Structural)]
pub enum ParseErrTag {
    MissingExpression,
    UnmatchedParen,
    /// A `?` whose `:` branch is missing. This kind, its code (6, after the
    /// other parse errors) and its wording are this library's own: the
    /// conditional form has no earlier report to follow.
    UnclosedTernary,
}

pub open spec fn parse_err_code(tag: ParseErrTag) -> usize {
    match tag {
        ParseErrTag::MissingExpression => 4,
        ParseErrTag::UnmatchedParen => 5,
        ParseErrTag::UnclosedTernary => 6,
    }
}

impl ParseErrTag {
    /// The code under which the error is reported.
    pub fn to_err_code(&self) -> (c: usize)
        ensures
            c == parse_err_code(*self),
    {
        match self {
            ParseErrTag::MissingExpression => 4,
            ParseErrTag::UnmatchedParen => 5,
            ParseErrTag::UnclosedTernary => 6,
        }
    }
}

/// A parsing error: its kind, the file and the position it points at.
#[derive(Debug)]
pub struct ParseErr {
    tag: ParseErrTag,
    filename: String,
    position: DocumentPosition,
}

/// The mathematical value of a [`ParseErr`].
pub struct ParseErrV {
    pub tag: ParseErrTag,
    pub filename: Seq<char>,
    pub position: DocumentPosition,
}

impl View for ParseErr {
    type V = ParseErrV;

    closed spec fn view(&self) -> ParseErrV {
        ParseErrV { tag: self.tag, filename: self.filename@, position: self.position }
    }
}

/// What the report of a parsing error shows: code, message, note, label.
pub open spec fn parse_report_spec(tag: ParseErrTag) -> (usize, Seq<char>, Seq<char>, Seq<char>) {
    match tag {
        ParseErrTag::MissingExpression => (
            4,
            "Missing expression"@,
            "Expected an expression, but didn't find one"@,
            "Expression expected here"@,
        ),
        ParseErrTag::UnmatchedParen => (
            5,
            "Unmatched Parenthesis"@,
            "A paren is open, but never closed"@,
            "Paren opened here"@,
        ),
        ParseErrTag::UnclosedTernary => (
            6,
            "Unclosed conditional"@,
            "A `?` is not followed by its `:` branch"@,
            "Conditional starts here"@,
        ),
    }
}

impl ParseErr {
    pub fn new(tag: ParseErrTag, filename: String, position: DocumentPosition) -> (e: Self)
        ensures
            e@ == (ParseErrV { tag, filename: filename@, position }),
    {
        Self { tag, filename, position }
    }

    pub fn tag(&self) -> (t: ParseErrTag)
        ensures
            t == self@.tag,
    {
        self.tag
    }

    pub fn position(&self) -> (p: DocumentPosition)
        ensures
            p == self@.position,
    {
        self.position
    }

    /// What the error's report shows: its code, message, note and label,
    /// with the file and the offset that the report points at.
    pub fn report(&self) -> (d: Diagnostic)
        ensures
            (d.code, d.message@, d.note@, d.label@) == parse_report_spec(self@.tag),
            d.filename@ == self@.filename,
            d.offset == self@.position.offset,
    {
        let code = self.tag.to_err_code();
        let (message, note, label) = match self.tag {
            ParseErrTag::MissingExpression => (
                String::from_str("Missing expression"),
                String::from_str("Expected an expression, but didn't find one"),
                String::from_str("Expression expected here"),
            ),
            ParseErrTag::UnmatchedParen => (
                String::from_str("Unmatched Parenthesis"),
                String::from_str("A paren is open, but never closed"),
                String::from_str("Paren opened here"),
            ),
            ParseErrTag::UnclosedTernary => (
                String::from_str("Unclosed conditional"),
                String::from_str("A `?` is not followed by its `:` branch"),
                String::from_str("Conditional starts here"),
            ),
        };
        Diagnostic {
            code,
            message,
            note,
            label,
            filename: self.filename.clone(),
            offset: self.position.offset,
        }
    }
}

} // verus!
