use vstd::prelude::*;

use crate::parse::position::DocumentPosition;
use crate::parse::report::{at_line_column, decimal, Diagnostic};

verus! {

/// The kinds of error that scanning reports.
#[derive(Debug, Clone, Copy, PartialEq, Eq, Structural)]
pub enum LexErrTag {
    UnexpectedCharacter,
    UnterminatedString,
    UnterminatedComment,
}

pub open spec fn lex_err_code(tag: LexErrTag) -> usize {
    match tag {
        LexErrTag::UnexpectedCharacter => 1,
        LexErrTag::UnterminatedString => 2,
        LexErrTag::UnterminatedComment => 3,
    }
}

impl LexErrTag {
    /// The code under which the error is reported.
    pub fn to_err_code(&self) -> (c: usize)
        ensures
            c == lex_err_code(*self),
    {
        match self {
            LexErrTag::UnexpectedCharacter => 1,
            LexErrTag::UnterminatedString => 2,
            LexErrTag::UnterminatedComment => 3,
        }
    }
}

/// A scanning error: its kind, the file and where the offending token starts.
#[derive(Debug)]
pub struct LexErr {
    tag: LexErrTag,
    filename: String,
    position: DocumentPosition,
}

/// The mathematical value of a [`LexErr`].
pub struct LexErrV {
    pub tag: LexErrTag,
    pub filename: Seq<char>,
    pub position: DocumentPosition,
}

impl View for LexErr {
    type V = LexErrV;

    closed spec fn view(&self) -> LexErrV {
        LexErrV { tag: self.tag, filename: self.filename@, position: self.position }
    }
}

pub open spec fn lex_errs_view(es: Seq<LexErr>) -> Seq<LexErrV> {
    es.map_values(|e: LexErr| e@)
}

/// What the report of a scanning error shows: code, message, note, label.
pub open spec fn lex_report_spec(e: LexErrV) -> (usize, Seq<char>, Seq<char>, Seq<char>) {
    let at = decimal(e.position.line as nat) + seq![':'] + decimal(e.position.column as nat);
    match e.tag {
        LexErrTag::UnexpectedCharacter => (
            1,
            "Unexpected character"@,
            "This doesn't seem like valid syntax..."@,
            "This character"@,
        ),
        LexErrTag::UnterminatedString => (
            2,
            "Unterminated string"@,
            "A string is started at "@ + at + " but never closed"@,
            "String starts here"@,
        ),
        LexErrTag::UnterminatedComment => (
            3,
            "Unterminated comment"@,
            "A comment is started at "@ + at + " but never closed"@,
            "Comment is starts here"@,
        ),
    }
}

impl LexErr {
    pub fn new(tag: LexErrTag, filename: String, position: DocumentPosition) -> (e: Self)
        ensures
            e@ == (LexErrV { tag, filename: filename@, position }),
    {
        Self { tag, filename, position }
    }

    pub fn tag(&self) -> (t: LexErrTag)
        ensures
            t == self@.tag,
    {
        self.tag
    }

    pub fn position(&self) -> (p: DocumentPosition)
        ensures
            p == self@.position,
    {
        self.position
    }

    /// What the error's report shows: its code, message, note and label,
    /// with the file and the offset that the report points at.
    pub fn report(&self) -> (d: Diagnostic)
        ensures
            (d.code, d.message@, d.note@, d.label@) == lex_report_spec(self@),
            d.filename@ == self@.filename,
            d.offset == self@.position.offset,
    {
        let code = self.tag.to_err_code();
        let (message, note, label) = match self.tag {
            LexErrTag::UnexpectedCharacter => (
                String::from_str("Unexpected character"),
                String::from_str("This doesn't seem like valid syntax..."),
                String::from_str("This character"),
            ),
            LexErrTag::UnterminatedString => (
                String::from_str("Unterminated string"),
                at_line_column(
                    "A string is started at ",
                    self.position.line,
                    self.position.column,
                    " but never closed",
                ),
                String::from_str("String starts here"),
            ),
            LexErrTag::UnterminatedComment => (
                String::from_str("Unterminated comment"),
                at_line_column(
                    "A comment is started at ",
                    self.position.line,
                    self.position.column,
                    " but never closed",
                ),
                String::from_str("Comment is starts here"),
            ),
        };
        proof {
            let at = decimal(self.position.line as nat) + seq![':'] + decimal(self.position.column as nat);
            assert("A string is started at "@ + decimal(self.position.line as nat) + seq![':']
                + decimal(self.position.column as nat) + " but never closed"@ =~= "A string is started at "@
                + at + " but never closed"@);
            assert("A comment is started at "@ + decimal(self.position.line as nat) + seq![':']
                + decimal(self.position.column as nat) + " but never closed"@ =~= "A comment is started at "@
                + at + " but never closed"@);
        }
        Diagnostic {
            code,
            message,
            note,
            label,
            filename: self.filename.clone(),
            offset: self.position.offset,
        }
    }
}

} // verus!
