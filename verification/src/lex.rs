//! A simpler scanner: tokens carry the line where they end and the column
//! where they start, and errors carry no position.
use vstd::prelude::*;
use vstd::string::StringSliceAdditionalSpecFns;

use crate::format::pretty::{is_whitespace, is_ws};
use crate::parse::lex::scan::{
    alnum_end, at_end, digits_end, is_alphabetic, is_alpha, is_alphanumeric, is_digit, is_numeric,
    lemma_alnum_end, lemma_digits_end, lemma_line_comment_end, lemma_ws_end,
    lemma_ws_end_idempotent, line_comment_end, moves_on, number_end, peek_at, pos_ok, scannable,
    step, str_eq, word_char, is_alnum, ws_end,
};
use crate::parse::lex::words::reserved_word;
use crate::parse::position::{adv, nl, DocumentPosition};

verus! {

/// The kinds of token that this scanner reads.
#[derive(Debug, Clone, Copy, PartialEq, Eq, Structural)]
pub enum TokenTag {
    // Single-character tokens.
    LeftParen,
    RightParen,
    LeftBrace,
    RightBrace,
    Comma,
    Dot,
    Minus,
    Plus,
    SemiColon,
    Slash,
    Star,
    // One or two character tokens.
    Bang,
    BangEqual,
    Equal,
    EqualEqual,
    Greater,
    GreaterEqual,
    Less,
    LessEqual,
    // Literals.
    Identifier,
    String,
    Number,
    Comment,
    InlineComment,
    // Keywords
    And,
    Class,
    Else,
    False,
    Fun,
    For,
    If,
    Nil,
    Or,
    Print,
    Return,
    Super,
    This,
    True,
    Var,
    While,
    EOF,
}

/// The errors of this scanner.
#[derive(Debug, Clone, Copy, PartialEq, Eq, Structural)]
pub enum ParseErr {
    UnterminatedString,
    UnexpectedCharacter,
}

/// A token: its kind, its text, the line where it ends and the column where
/// it starts.
#[derive(Debug)]
pub struct Token {
    tag: TokenTag,
    lexeme: String,
    line: usize,
    column: usize,
}

/// The mathematical value of a [`Token`].
pub struct TokenV {
    pub tag: TokenTag,
    pub lexeme: Seq<char>,
    pub line: usize,
    pub column: usize,
}

impl View for Token {
    type V = TokenV;

    closed spec fn view(&self) -> TokenV {
        TokenV { tag: self.tag, lexeme: self.lexeme@, line: self.line, column: self.column }
    }
}

pub open spec fn tokens_view(ts: Seq<Token>) -> Seq<TokenV> {
    ts.map_values(|t: Token| t@)
}

impl Token {
    fn new(tag: TokenTag, lexeme: String, line: usize, column: usize) -> (t: Self)
        ensures
            t@ == (TokenV { tag, lexeme: lexeme@, line, column }),
    {
        Token { tag, lexeme, line, column }
    }

    pub fn tag(&self) -> (t: TokenTag)
        ensures
            t == self@.tag,
    {
        self.tag
    }

    pub fn lexeme(&self) -> (s: &str)
        ensures
            s@ == self@.lexeme,
    {
        self.lexeme.as_str()
    }

    pub fn line(&self) -> (l: usize)
        ensures
            l == self@.line,
    {
        self.line
    }

    pub fn column(&self) -> (c: usize)
        ensures
            c == self@.column,
    {
        self.column
    }
}

/// Where a string literal whose opening quote ends at `p` stops: at its
/// closing quote, or at the end.
pub open spec fn string_end(s: Seq<char>, p: DocumentPosition) -> DocumentPosition
    decreases s.len() - p.offset when s.len() < usize::MAX
{
    if at_end(s, p) || s[p.offset as int] == '"' {
        p
    } else {
        string_end(s, step(s, p))
    }
}

/// Where the body of a block comment stops: at the first `*/`, or at the end.
pub open spec fn comment_body_end(s: Seq<char>, p: DocumentPosition) -> DocumentPosition
    decreases s.len() - p.offset when s.len() < usize::MAX
{
    if !at_end(s, p) && !(s[p.offset as int] == '*' && peek_at(s, p.offset + 1) == '/') {
        comment_body_end(s, step(s, p))
    } else {
        p
    }
}

pub open spec fn keyword_tag(w: Seq<char>) -> TokenTag {
    if w == "and"@ {
        TokenTag::And
    } else if w == "class"@ {
        TokenTag::Class
    } else if w == "else"@ {
        TokenTag::Else
    } else if w == "false"@ {
        TokenTag::False
    } else if w == "for"@ {
        TokenTag::For
    } else if w == "fun"@ {
        TokenTag::Fun
    } else if w == "if"@ {
        TokenTag::If
    } else if w == "nil"@ {
        TokenTag::Nil
    } else if w == "or"@ {
        TokenTag::Or
    } else if w == "print"@ {
        TokenTag::Print
    } else if w == "return"@ {
        TokenTag::Return
    } else if w == "super"@ {
        TokenTag::Super
    } else if w == "this"@ {
        TokenTag::This
    } else if w == "true"@ {
        TokenTag::True
    } else if w == "var"@ {
        TokenTag::Var
    } else if w == "while"@ {
        TokenTag::While
    } else {
        TokenTag::Identifier
    }
}

pub open spec fn with_equal(s: Seq<char>, p1: DocumentPosition, one: TokenTag, two: TokenTag) -> Option<(Result<TokenTag, ParseErr>, DocumentPosition)> {
    if peek_at(s, p1.offset as int) == '=' {
        Some((Ok(two), adv(p1)))
    } else {
        Some((Ok(one), p1))
    }
}

/// The token (or error) that starts at `p`, a character that is not white
/// space, and where it ends; `None` where reading it would run past the end
/// of the text (a block comment without its `*/`).
pub open spec fn scan_token_spec(s: Seq<char>, p: DocumentPosition) -> Option<(Result<TokenTag, ParseErr>, DocumentPosition)> {
    let c = s[p.offset as int];
    let p1 = adv(p);
    if c == '(' {
        Some((Ok(TokenTag::LeftParen), p1))
    } else if c == ')' {
        Some((Ok(TokenTag::RightParen), p1))
    } else if c == '{' {
        Some((Ok(TokenTag::LeftBrace), p1))
    } else if c == '}' {
        Some((Ok(TokenTag::RightBrace), p1))
    } else if c == ',' {
        Some((Ok(TokenTag::Comma), p1))
    } else if c == '.' {
        Some((Ok(TokenTag::Dot), p1))
    } else if c == '-' {
        Some((Ok(TokenTag::Minus), p1))
    } else if c == '+' {
        Some((Ok(TokenTag::Plus), p1))
    } else if c == ';' {
        Some((Ok(TokenTag::SemiColon), p1))
    } else if c == '*' {
        Some((Ok(TokenTag::Star), p1))
    } else if c == '!' {
        with_equal(s, p1, TokenTag::Bang, TokenTag::BangEqual)
    } else if c == '=' {
        with_equal(s, p1, TokenTag::Equal, TokenTag::EqualEqual)
    } else if c == '<' {
        with_equal(s, p1, TokenTag::Less, TokenTag::LessEqual)
    } else if c == '>' {
        with_equal(s, p1, TokenTag::Greater, TokenTag::GreaterEqual)
    } else if c == '/' {
        if peek_at(s, p1.offset as int) == '/' {
            Some((Ok(TokenTag::Comment), line_comment_end(s, adv(p1))))
        } else if peek_at(s, p1.offset as int) == '*' {
            let q = comment_body_end(s, adv(p1));
            if q.offset + 1 < s.len() {
                Some((Ok(TokenTag::InlineComment), adv(adv(q))))
            } else {
                None
            }
        } else {
            Some((Ok(TokenTag::Slash), p1))
        }
    } else if c == '"' {
        let q = string_end(s, p1);
        if at_end(s, q) {
            Some((Err(ParseErr::UnterminatedString), q))
        } else {
            Some((Ok(TokenTag::String), adv(q)))
        }
    } else if is_digit(c) {
        Some((Ok(TokenTag::Number), number_end(s, p1)))
    } else if is_alpha(c) {
        let q = alnum_end(s, p1);
        Some((Ok(keyword_tag(s.subrange(p.offset as int, q.offset as int))), q))
    } else {
        Some((Err(ParseErr::UnexpectedCharacter), p1))
    }
}

pub proof fn lemma_string_end(s: Seq<char>, p: DocumentPosition)
    requires
        s.len() < usize::MAX,
        pos_ok(s, p),
    ensures
        moves_on(s, p, string_end(s, p)),
    decreases s.len() - p.offset,
{
    if !(at_end(s, p) || s[p.offset as int] == '"') {
        lemma_string_end(s, step(s, p));
    }
}

pub proof fn lemma_comment_body_end(s: Seq<char>, p: DocumentPosition)
    requires
        s.len() < usize::MAX,
        pos_ok(s, p),
    ensures
        moves_on(s, p, comment_body_end(s, p)),
    decreases s.len() - p.offset,
{
    if !at_end(s, p) && !(s[p.offset as int] == '*' && peek_at(s, p.offset + 1) == '/') {
        lemma_comment_body_end(s, step(s, p));
    }
}

pub proof fn lemma_scan_token(s: Seq<char>, p: DocumentPosition)
    requires
        s.len() < usize::MAX,
        pos_ok(s, p),
        p.offset < s.len(),
    ensures
        scan_token_spec(s, p) matches Some((_, q)) ==> pos_ok(s, q) && p.offset < q.offset,
{
    let p1 = adv(p);
    let c = s[p.offset as int];
    assert(pos_ok(s, p1));
    if c == '/' {
        if peek_at(s, p1.offset as int) == '/' {
            lemma_line_comment_end(s, adv(p1));
        } else if peek_at(s, p1.offset as int) == '*' {
            lemma_comment_body_end(s, adv(p1));
        }
    } else if c == '"' {
        lemma_string_end(s, p1);
    } else if is_digit(c) {
        let q = digits_end(s, p1);
        lemma_digits_end(s, p1);
        if peek_at(s, q.offset as int) == '.' && is_digit(peek_at(s, q.offset + 1)) {
            lemma_digits_end(s, adv(q));
        }
    } else if is_alpha(c) {
        lemma_alnum_end(s, p1);
    }
}

pub open spec fn eof_token(line: usize, column: usize) -> TokenV {
    TokenV { tag: TokenTag::EOF, lexeme: Seq::empty(), line, column }
}

/// The tokens and errors of the text from `p` on, `start_column` being the
/// column where the last token read started; `None` where scanning would
/// run past the end of the text.
pub open spec fn scan_spec(s: Seq<char>, p: DocumentPosition, start_column: usize) -> Option<(Seq<TokenV>, Seq<ParseErr>)>
    decreases s.len() - p.offset when s.len() < usize::MAX && pos_ok(s, p)
{
    if at_end(s, p) {
        Some((seq![eof_token(p.line, start_column)], Seq::empty()))
    } else {
        let q = ws_end(s, p);
        proof {
            lemma_ws_end(s, p);
        }
        if at_end(s, q) {
            Some((seq![eof_token(q.line, q.column)], Seq::empty()))
        } else {
            proof {
                lemma_scan_token(s, q);
            }
            match scan_token_spec(s, q) {
                None => None,
                Some((Ok(tag), e)) => match scan_spec(s, e, e.column) {
                    None => None,
                    Some((ts, es)) => Some((
                        seq![TokenV {
                            tag,
                            lexeme: s.subrange(q.offset as int, e.offset as int),
                            line: e.line,
                            column: q.column,
                        }] + ts,
                        es,
                    )),
                },
                Some((Err(err), e)) => match scan_spec(s, e, q.column) {
                    None => None,
                    Some((ts, es)) => Some((ts, seq![err] + es)),
                },
            }
        }
    }
}


/// Whether the scanner reads to the end of the text without running past it.
pub open spec fn scans_fully(s: Seq<char>) -> bool {
    scannable(s) && scan_spec(s, DocumentPosition { offset: 0, column: 1, line: 1 }, 1) is Some
}

pub fn keyword(w: &str) -> (t: TokenTag)
    ensures
        t == keyword_tag(w@),
{
    if str_eq(w, "and") {
        TokenTag::And
    } else if str_eq(w, "class") {
        TokenTag::Class
    } else if str_eq(w, "else") {
        TokenTag::Else
    } else if str_eq(w, "false") {
        TokenTag::False
    } else if str_eq(w, "for") {
        TokenTag::For
    } else if str_eq(w, "fun") {
        TokenTag::Fun
    } else if str_eq(w, "if") {
        TokenTag::If
    } else if str_eq(w, "nil") {
        TokenTag::Nil
    } else if str_eq(w, "or") {
        TokenTag::Or
    } else if str_eq(w, "print") {
        TokenTag::Print
    } else if str_eq(w, "return") {
        TokenTag::Return
    } else if str_eq(w, "super") {
        TokenTag::Super
    } else if str_eq(w, "this") {
        TokenTag::This
    } else if str_eq(w, "true") {
        TokenTag::True
    } else if str_eq(w, "var") {
        TokenTag::Var
    } else if str_eq(w, "while") {
        TokenTag::While
    } else {
        TokenTag::Identifier
    }
}

/// A scanner of Lox source text that tracks lines and columns by hand.
pub struct Scanner<'a> {
    content: &'a str,
    start: usize,
    pos: usize,
    line: usize,
    start_col: usize,
    current_col: usize,
}

pub open spec fn token_result_matches(
    r: Result<Token, ParseErr>,
    spec: Result<TokenTag, ParseErr>,
    s: Seq<char>,
    start: DocumentPosition,
    end: DocumentPosition,
) -> bool {
    match spec {
        Ok(tag) => r matches Ok(t) && t@ == (TokenV {
            tag,
            lexeme: s.subrange(start.offset as int, end.offset as int),
            line: end.line,
            column: start.column,
        }),
        Err(e) => r == Err::<Token, ParseErr>(e),
    }
}

impl<'a> Scanner<'a> {
    pub closed spec fn text(&self) -> Seq<char> {
        self.content@
    }

    /// The position of the next character to read.
    pub closed spec fn cur(&self) -> DocumentPosition {
        DocumentPosition { offset: self.pos, column: self.current_col, line: self.line }
    }

    pub closed spec fn start_column(&self) -> usize {
        self.start_col
    }

    closed spec fn inv(&self) -> bool {
        &&& scannable(self.content@)
        &&& pos_ok(self.content@, self.cur())
        &&& self.start <= self.pos
        &&& 1 <= self.start_col <= self.start + 1
    }

    pub fn new(content: &'a str) -> (s: Self)
        ensures
            s.text() == content@,
            s.cur() == (DocumentPosition { offset: 0, column: 1, line: 1 }),
            s.start_column() == 1,
            scannable(content@) ==> s.consistent(),
            scans_fully(content@) ==> s.ready(),
    {
        Scanner { content, start: 0, pos: 0, line: 1, start_col: 1, current_col: 1 }
    }

    proof fn lemma_len(&self)
        requires
            vstd::utf8::is_ascii_chars(self.content@),
        ensures
            self.content.spec_bytes().len() == self.content@.len(),
    {
        vstd::string::is_ascii_spec_bytes(self.content);
    }

    fn newline(&mut self)
        requires
            old(self).inv(),
            old(self).line <= old(self).pos,
        ensures
            final(self).inv(),
            final(self).content == old(self).content,
            final(self).start == old(self).start,
            final(self).start_col == old(self).start_col,
            final(self).cur() == nl(old(self).cur()),
    {
        self.line += 1;
        self.current_col = 1;
    }

    fn at_end(&self) -> (b: bool)
        requires
            self.inv(),
        ensures
            b == at_end(self.content@, self.cur()),
    {
        proof {
            self.lemma_len();
        }
        self.pos == self.content.len()
    }

    fn peek(&self) -> (c: char)
        requires
            self.inv(),
        ensures
            c == peek_at(self.content@, self.pos as int),
    {
        if self.at_end() {
            return '\0';
        }
        self.content.get_char(self.pos)
    }

    fn peek_next(&self) -> (c: char)
        requires
            self.inv(),
        ensures
            c == peek_at(self.content@, self.pos + 1),
    {
        proof {
            self.lemma_len();
        }
        if self.pos + 1 >= self.content.len() {
            return '\0';
        }
        self.content.get_char(self.pos + 1)
    }

    fn advance(&mut self) -> (c: char)
        requires
            old(self).inv(),
            old(self).pos < old(self).content@.len(),
        ensures
            final(self).inv(),
            final(self).content == old(self).content,
            final(self).start == old(self).start,
            final(self).start_col == old(self).start_col,
            final(self).cur() == adv(old(self).cur()),
            c == old(self).content@[old(self).pos as int],
    {
        let c = self.content.get_char(self.pos);
        self.pos += 1;
        self.current_col += 1;
        c
    }

    /// Reads one character; a newline starts a new line.
    fn step(&mut self)
        requires
            old(self).inv(),
            old(self).pos < old(self).content@.len(),
        ensures
            final(self).inv(),
            final(self).content == old(self).content,
            final(self).start == old(self).start,
            final(self).start_col == old(self).start_col,
            final(self).cur() == step(old(self).content@, old(self).cur()),
    {
        let c = self.advance();
        if c == '\n' {
            self.newline();
        }
    }

    fn matches(&mut self, expected: char) -> (b: bool)
        requires
            old(self).inv(),
            expected != '\0',
        ensures
            final(self).inv(),
            final(self).content == old(self).content,
            final(self).start == old(self).start,
            final(self).start_col == old(self).start_col,
            b == (peek_at(old(self).content@, old(self).pos as int) == expected),
            final(self).cur() == if b {
                adv(old(self).cur())
            } else {
                old(self).cur()
            },
    {
        if self.at_end() {
            return false;
        }
        if self.content.get_char(self.pos) != expected {
            return false;
        }
        self.pos += 1;
        self.current_col += 1;
        return true;
    }

    fn mk_token(&mut self, tag: TokenTag) -> (r: Result<Token, ParseErr>)
        requires
            old(self).inv(),
        ensures
            final(self).inv(),
            final(self).content == old(self).content,
            final(self).cur() == old(self).cur(),
            final(self).start == old(self).pos,
            final(self).start_col == old(self).current_col,
            r matches Ok(t) && t@ == (TokenV {
                tag,
                lexeme: old(self).content@.subrange(old(self).start as int, old(self).pos as int),
                line: old(self).line,
                column: old(self).start_col,
            }),
    {
        let lexeme = String::from_str(self.content.substring_char(self.start, self.pos));
        let token = Token::new(tag, lexeme, self.line, self.start_col);
        self.start = self.pos;
        self.start_col = self.current_col;
        Ok(token)
    }

    fn string(&mut self) -> (r: Result<Token, ParseErr>)
        requires
            old(self).inv(),
        ensures
            final(self).inv(),
            final(self).content == old(self).content,
            ({
                let s = old(self).content@;
                let q = string_end(s, old(self).cur());
                let st = DocumentPosition { offset: old(self).start, column: old(self).start_col, line: 0 };
                if at_end(s, q) {
                    &&& final(self).cur() == q
                    &&& final(self).start_col == old(self).start_col
                    &&& token_result_matches(r, Err(ParseErr::UnterminatedString), s, st, q)
                } else {
                    &&& final(self).cur() == adv(q)
                    &&& final(self).start_col == adv(q).column
                    &&& token_result_matches(r, Ok(TokenTag::String), s, st, adv(q))
                }
            }),
    {
        let ghost s = self.content@;
        let ghost target = string_end(s, self.cur());
        let ghost start = self.start;
        let ghost start_col = self.start_col;
        while self.peek() != '"' && !self.at_end()
            invariant
                self.inv(),
                self.content == old(self).content,
                self.start == start,
                self.start_col == start_col,
                s == self.content@,
                string_end(s, self.cur()) == target,
            decreases s.len() - self.pos,
        {
            self.step();
        }
        if self.at_end() {
            return Err(ParseErr::UnterminatedString);
        }
        // The closing ".
        self.advance();
        self.mk_token(TokenTag::String)
    }

    fn digits(&mut self)
        requires
            old(self).inv(),
        ensures
            final(self).inv(),
            final(self).content == old(self).content,
            final(self).start == old(self).start,
            final(self).start_col == old(self).start_col,
            final(self).cur() == digits_end(old(self).content@, old(self).cur()),
    {
        let ghost s = self.content@;
        let ghost target = digits_end(s, self.cur());
        while is_numeric(self.peek())
            invariant
                self.inv(),
                self.content == old(self).content,
                self.start == old(self).start,
                self.start_col == old(self).start_col,
                s == self.content@,
                digits_end(s, self.cur()) == target,
            decreases s.len() - self.pos,
        {
            self.advance();
        }
    }

    fn number(&mut self) -> (r: Result<Token, ParseErr>)
        requires
            old(self).inv(),
        ensures
            final(self).inv(),
            final(self).content == old(self).content,
            ({
                let s = old(self).content@;
                let q = number_end(s, old(self).cur());
                let st = DocumentPosition { offset: old(self).start, column: old(self).start_col, line: 0 };
                &&& final(self).cur() == q
                &&& final(self).start_col == q.column
                &&& token_result_matches(r, Ok(TokenTag::Number), s, st, q)
            }),
    {
        self.digits();
        if self.peek() == '.' && is_numeric(self.peek_next()) {
            self.advance();
            self.digits();
        }
        self.mk_token(TokenTag::Number)
    }

    fn identifier(&mut self) -> (r: Result<Token, ParseErr>)
        requires
            old(self).inv(),
        ensures
            final(self).inv(),
            final(self).content == old(self).content,
            ({
                let s = old(self).content@;
                let q = alnum_end(s, old(self).cur());
                let st = DocumentPosition { offset: old(self).start, column: old(self).start_col, line: 0 };
                &&& final(self).cur() == q
                &&& final(self).start_col == q.column
                &&& token_result_matches(r,
                    Ok(keyword_tag(s.subrange(old(self).start as int, q.offset as int))), s, st, q)
            }),
    {
        let ghost s = self.content@;
        let ghost target = alnum_end(s, self.cur());
        while is_alphanumeric(self.peek())
            invariant
                self.inv(),
                self.content == old(self).content,
                self.start == old(self).start,
                self.start_col == old(self).start_col,
                s == self.content@,
                alnum_end(s, self.cur()) == target,
            decreases s.len() - self.pos,
        {
            self.advance();
        }
        let tag = keyword(self.content.substring_char(self.start, self.pos));
        self.mk_token(tag)
    }

    fn line_comment(&mut self)
        requires
            old(self).inv(),
        ensures
            final(self).inv(),
            final(self).content == old(self).content,
            final(self).start == old(self).start,
            final(self).start_col == old(self).start_col,
            final(self).cur() == line_comment_end(old(self).content@, old(self).cur()),
    {
        let ghost s = self.content@;
        let ghost target = line_comment_end(s, self.cur());
        while self.peek() != '\n' && !self.at_end()
            invariant
                self.inv(),
                self.content == old(self).content,
                self.start == old(self).start,
                self.start_col == old(self).start_col,
                s == self.content@,
                line_comment_end(s, self.cur()) == target,
            decreases s.len() - self.pos,
        {
            self.advance();
        }
    }

    fn comment_body(&mut self)
        requires
            old(self).inv(),
        ensures
            final(self).inv(),
            final(self).content == old(self).content,
            final(self).start == old(self).start,
            final(self).start_col == old(self).start_col,
            final(self).cur() == comment_body_end(old(self).content@, old(self).cur()),
    {
        let ghost s = self.content@;
        let ghost target = comment_body_end(s, self.cur());
        while !self.at_end() && !(self.peek() == '*' && self.peek_next() == '/')
            invariant
                self.inv(),
                self.content == old(self).content,
                self.start == old(self).start,
                self.start_col == old(self).start_col,
                s == self.content@,
                comment_body_end(s, self.cur()) == target,
            decreases s.len() - self.pos,
        {
            self.step();
        }
    }

    fn one_or_two(&mut self, one: TokenTag, two: TokenTag) -> (r: Result<Token, ParseErr>)
        requires
            old(self).inv(),
        ensures
            final(self).inv(),
            final(self).content == old(self).content,
            ({
                let s = old(self).content@;
                let st = DocumentPosition { offset: old(self).start, column: old(self).start_col, line: 0 };
                let (tag, q) = with_equal(s, old(self).cur(), one, two)->Some_0;
                &&& final(self).cur() == q
                &&& final(self).start_col == q.column
                &&& token_result_matches(r, tag, s, st, q)
            }),
    {
        if self.matches('=') {
            self.mk_token(two)
        } else {
            self.mk_token(one)
        }
    }
}


impl<'a> Scanner<'a> {
    /// The scanner is in a consistent state over a text it can read.
    pub closed spec fn consistent(&self) -> bool {
        self.inv()
    }

    /// The scanner is in a consistent state and reads the rest of the text
    /// without running past its end.
    pub closed spec fn ready(&self) -> bool {
        self.inv() && scan_spec(self.content@, self.cur(), self.start_col) is Some
    }

    /// Reads one token (or error); `None`, with nothing read past the end,
    /// where a block comment has no `*/`.
    fn scan_token(&mut self) -> (r: Option<Result<Token, ParseErr>>)
        requires
            old(self).inv(),
            old(self).start == old(self).pos,
            old(self).start_col == old(self).current_col,
            !at_end(old(self).content@, old(self).cur()),
            !is_ws(old(self).content@[old(self).pos as int]),
        ensures
            final(self).inv(),
            final(self).content == old(self).content,
            r is None <==> scan_token_spec(old(self).content@, old(self).cur()) is None,
            r matches Some(r) ==> ({
                let s = old(self).content@;
                let p = old(self).cur();
                let (res, q) = scan_token_spec(s, p)->Some_0;
                &&& final(self).cur() == q
                &&& final(self).start_col == (if res is Ok { q.column } else { p.column })
                &&& token_result_matches(r, res, s, p, q)
            }),
    {
        let ghost s = self.content@;
        let ghost p = self.cur();
        proof {
            lemma_scan_token(s, p);
        }
        let c = self.advance();
        if c == '(' {
            Some(self.mk_token(TokenTag::LeftParen))
        } else if c == ')' {
            Some(self.mk_token(TokenTag::RightParen))
        } else if c == '{' {
            Some(self.mk_token(TokenTag::LeftBrace))
        } else if c == '}' {
            Some(self.mk_token(TokenTag::RightBrace))
        } else if c == ',' {
            Some(self.mk_token(TokenTag::Comma))
        } else if c == '.' {
            Some(self.mk_token(TokenTag::Dot))
        } else if c == '-' {
            Some(self.mk_token(TokenTag::Minus))
        } else if c == '+' {
            Some(self.mk_token(TokenTag::Plus))
        } else if c == ';' {
            Some(self.mk_token(TokenTag::SemiColon))
        } else if c == '*' {
            Some(self.mk_token(TokenTag::Star))
        } else if c == '!' {
            Some(self.one_or_two(TokenTag::Bang, TokenTag::BangEqual))
        } else if c == '=' {
            Some(self.one_or_two(TokenTag::Equal, TokenTag::EqualEqual))
        } else if c == '<' {
            Some(self.one_or_two(TokenTag::Less, TokenTag::LessEqual))
        } else if c == '>' {
            Some(self.one_or_two(TokenTag::Greater, TokenTag::GreaterEqual))
        } else if c == '/' {
            if self.matches('/') {
                // A comment goes until the end of the line.
                self.line_comment();
                Some(self.mk_token(TokenTag::Comment))
            } else if self.matches('*') {
                self.comment_body();
                proof {
                    self.lemma_len();
                }
                if !(self.pos + 1 < self.content.len()) {
                    return None;
                }
                self.advance();
                self.advance();
                Some(self.mk_token(TokenTag::InlineComment))
            } else {
                Some(self.mk_token(TokenTag::Slash))
            }
        } else if c == '"' {
            Some(self.string())
        } else if is_numeric(c) {
            Some(self.number())
        } else if is_alphabetic(c) {
            Some(self.identifier())
        } else {
            return Some(Err(ParseErr::UnexpectedCharacter));
        }
    }

    fn eat_whitespace(&mut self)
        requires
            old(self).inv(),
        ensures
            final(self).inv(),
            final(self).content == old(self).content,
            final(self).cur() == ws_end(old(self).content@, old(self).cur()),
            final(self).start == final(self).pos,
            final(self).start_col == final(self).current_col,
    {
        let ghost s = self.content@;
        let ghost target = ws_end(s, self.cur());
        while !self.at_end() && is_whitespace(self.peek())
            invariant
                self.inv(),
                self.content == old(self).content,
                s == self.content@,
                ws_end(s, self.cur()) == target,
            decreases s.len() - self.pos,
        {
            self.step();
        }
        self.start = self.pos;
        self.start_col = self.current_col;
    }

    /// The tokens of the text, the end-of-file token last, and the errors
    /// met on the way; `None` where a block comment has no `*/`, which the
    /// scanner would otherwise read past the end of the text.
    pub fn scan_checked(&mut self) -> (r: Option<(Vec<Token>, Vec<ParseErr>)>)
        requires
            old(self).consistent(),
        ensures
            r is Some <==> scan_spec(old(self).text(), old(self).cur(), old(self).start_column()) is Some,
            r matches Some(x) ==> Some((tokens_view(x.0@), x.1@)) == scan_spec(
                old(self).text(),
                old(self).cur(),
                old(self).start_column(),
            ),
    {
        let ghost s = self.content@;
        let ghost init = scan_spec(s, self.cur(), self.start_col);
        let ghost total = init->Some_0;
        let mut tokens: Vec<Token> = Vec::new();
        let mut errs: Vec<ParseErr> = Vec::new();
        loop
            invariant
                self.inv(),
                s == self.content@,
                s == old(self).content@,
                init == scan_spec(s, old(self).cur(), old(self).start_col),
                total == init->Some_0,
                (init is Some) == (scan_spec(s, self.cur(), self.start_col) is Some),
                scan_spec(s, self.cur(), self.start_col) is Some ==> {
                    &&& tokens_view(tokens@) + scan_spec(s, self.cur(), self.start_col)->Some_0.0 == total.0
                    &&& errs@ + scan_spec(s, self.cur(), self.start_col)->Some_0.1 == total.1
                },
            ensures
                self.inv(),
                s == self.content@,
                at_end(s, self.cur()),
                init is Some,
                tokens_view(tokens@) + seq![eof_token(self.line, self.start_col)] == total.0,
                errs@ == total.1,
            decreases s.len() - self.pos,
        {
            if self.at_end() {
                assert(errs@ + Seq::<ParseErr>::empty() =~= errs@);
                break;
            }
            self.start = self.pos;
            let ghost p = self.cur();
            let ghost sc = self.start_col;
            self.eat_whitespace();
            proof {
                lemma_ws_end(s, p);
                lemma_ws_end_idempotent(s, p);
            }
            if self.at_end() {
                assert(errs@ + Seq::<ParseErr>::empty() =~= errs@);
                break;
            }
            let ghost q = self.cur();
            proof {
                lemma_scan_token(s, q);
            }
            match self.scan_token() {
                None => {
                    assert(scan_token_spec(s, q) is None);
                    assert(q == ws_end(s, p));
                    assert(scan_spec(s, p, sc) is None);
                    assert(init is None);
                    assert(s == old(self).content@);
                    return None;
                },
                Some(Ok(token)) => {
                    let ghost t = token@;
                    proof {
                        assert(tokens_view(tokens@.push(token)) =~= tokens_view(tokens@).push(t));
                        if scan_spec(s, self.cur(), self.start_col) is Some {
                            assert(tokens_view(tokens@).push(t) + scan_spec(s, self.cur(), self.start_col)->Some_0.0
                                =~= tokens_view(tokens@) + (seq![t] + scan_spec(s, self.cur(), self.start_col)->Some_0.0));
                        }
                    }
                    tokens.push(token);
                },
                Some(Err(e)) => {
                    proof {
                        if scan_spec(s, self.cur(), self.start_col) is Some {
                            assert(errs@.push(e) + scan_spec(s, self.cur(), self.start_col)->Some_0.1
                                =~= errs@ + (seq![e] + scan_spec(s, self.cur(), self.start_col)->Some_0.1));
                        }
                    }
                    errs.push(e);
                },
            }
        }
        let ghost before = tokens@;
        let eof = Token::new(TokenTag::EOF, String::new(), self.line, self.start_col);
        tokens.push(eof);
        assert(tokens_view(tokens@) =~= tokens_view(before).push(eof_token(self.line, self.start_col)));
        Some((tokens, errs))
    }

    /// The tokens of the text, the end-of-file token last, and the errors
    /// met on the way.
    pub fn scan(&mut self) -> (r: (Vec<Token>, Vec<ParseErr>))
        requires
            old(self).ready(),
        ensures
            Some((tokens_view(r.0@), r.1@)) == scan_spec(
                old(self).text(),
                old(self).cur(),
                old(self).start_column(),
            ),
    {
        match self.scan_checked() {
            Some(x) => x,
            None => {
                proof {
                    assert(false);
                }
                (Vec::new(), Vec::new())
            },
        }
    }
}


proof fn lemma_scan_token_not_eof(s: Seq<char>, p: DocumentPosition)
    ensures
        scan_token_spec(s, p) matches Some((Ok(tag), _)) ==> tag != TokenTag::EOF,
{
    let q = alnum_end(s, adv(p));
    let w = s.subrange(p.offset as int, q.offset as int);
    assert(keyword_tag(w) != TokenTag::EOF);
}

/// Where this scanner reads a text to its end, its tokens end with the
/// end-of-file token, which stands nowhere else among them.
pub proof fn law_line_scan_ends_with_eof(s: Seq<char>, p: DocumentPosition, start_column: usize)
    requires
        scannable(s),
        pos_ok(s, p),
        scan_spec(s, p, start_column) is Some,
    ensures
        ({
            let ts = scan_spec(s, p, start_column)->Some_0.0;
            &&& ts.len() >= 1
            &&& ts.last().tag == TokenTag::EOF
            &&& forall|k: int| 0 <= k < ts.len() - 1 ==> #[trigger] ts[k].tag != TokenTag::EOF
        }),
    decreases s.len() - p.offset,
{
    if !at_end(s, p) {
        let q = ws_end(s, p);
        lemma_ws_end(s, p);
        if !at_end(s, q) {
            lemma_scan_token(s, q);
            lemma_scan_token_not_eof(s, q);
            let (r, e) = scan_token_spec(s, q)->Some_0;
            let sc = if r is Ok { e.column } else { q.column };
            law_line_scan_ends_with_eof(s, e, sc);
            let ts = scan_spec(s, e, sc)->Some_0.0;
            if let Ok(tag) = r {
                let t = TokenV {
                    tag,
                    lexeme: s.subrange(q.offset as int, e.offset as int),
                    line: e.line,
                    column: q.column,
                };
                let all = seq![t] + ts;
                assert(all.last() == ts.last());
                assert forall|k: int| 0 <= k < all.len() - 1 implies #[trigger] all[k].tag != TokenTag::EOF by {
                    if k > 0 {
                        assert(all[k] == ts[k - 1]);
                    }
                }
            }
        }
    }
}

/// The kind of a token whose text is a sign of the language: each of the
/// one-character signs, and the two-character comparisons ending in `=`.
pub open spec fn line_symbol_tag(l: Seq<char>) -> Option<TokenTag> {
    if l.len() == 1 {
        let c = l[0];
        if c == '(' {
            Some(TokenTag::LeftParen)
        } else if c == ')' {
            Some(TokenTag::RightParen)
        } else if c == '{' {
            Some(TokenTag::LeftBrace)
        } else if c == '}' {
            Some(TokenTag::RightBrace)
        } else if c == ',' {
            Some(TokenTag::Comma)
        } else if c == '.' {
            Some(TokenTag::Dot)
        } else if c == '-' {
            Some(TokenTag::Minus)
        } else if c == '+' {
            Some(TokenTag::Plus)
        } else if c == ';' {
            Some(TokenTag::SemiColon)
        } else if c == '/' {
            Some(TokenTag::Slash)
        } else if c == '*' {
            Some(TokenTag::Star)
        } else if c == '!' {
            Some(TokenTag::Bang)
        } else if c == '=' {
            Some(TokenTag::Equal)
        } else if c == '<' {
            Some(TokenTag::Less)
        } else if c == '>' {
            Some(TokenTag::Greater)
        } else {
            None
        }
    } else if l.len() == 2 && l[1] == '=' {
        if l[0] == '!' {
            Some(TokenTag::BangEqual)
        } else if l[0] == '=' {
            Some(TokenTag::EqualEqual)
        } else if l[0] == '<' {
            Some(TokenTag::LessEqual)
        } else if l[0] == '>' {
            Some(TokenTag::GreaterEqual)
        } else {
            None
        }
    } else {
        None
    }
}

proof fn lemma_token_symbol(s: Seq<char>, p: DocumentPosition)
    requires
        s.len() < usize::MAX,
        pos_ok(s, p),
        p.offset < s.len(),
    ensures
        scan_token_spec(s, p) matches Some((Ok(tag), e)) ==> (line_symbol_tag(
            s.subrange(p.offset as int, e.offset as int),
        ) matches Some(x) ==> tag == x),
{
    lemma_scan_token(s, p);
    let p1 = adv(p);
    let c = s[p.offset as int];
    if let Some((Ok(tag), e)) = scan_token_spec(s, p) {
        let l = s.subrange(p.offset as int, e.offset as int);
        assert(l[0] == c);
        if c == '/' {
            if peek_at(s, p1.offset as int) == '/' {
                lemma_line_comment_end(s, adv(p1));
                assert(l[1] == s[p.offset + 1]);
            } else if peek_at(s, p1.offset as int) == '*' {
                lemma_comment_body_end(s, adv(p1));
            }
        } else if c == '!' || c == '=' || c == '<' || c == '>' {
            if e.offset == p.offset + 2 {
                assert(l[1] == s[p.offset + 1]);
            }
        }
    }
}

/// The kind of every token agrees with its text: `==` is `EqualEqual`, `=`
/// is `Equal`, and so on for each sign of the language.
pub proof fn law_line_scan_symbols(s: Seq<char>, p: DocumentPosition, start_column: usize)
    requires
        scannable(s),
        pos_ok(s, p),
        scan_spec(s, p, start_column) is Some,
    ensures
        ({
            let ts = scan_spec(s, p, start_column)->Some_0.0;
            forall|k: int|
                0 <= k < ts.len() ==> (line_symbol_tag(#[trigger] ts[k].lexeme) matches Some(x) ==> ts[k].tag
                    == x)
        }),
    decreases s.len() - p.offset,
{
    let ts0 = scan_spec(s, p, start_column)->Some_0.0;
    if !at_end(s, p) {
        let q = ws_end(s, p);
        lemma_ws_end(s, p);
        if !at_end(s, q) {
            lemma_scan_token(s, q);
            lemma_token_symbol(s, q);
            let (r, e) = scan_token_spec(s, q)->Some_0;
            let sc = if r is Ok { e.column } else { q.column };
            law_line_scan_symbols(s, e, sc);
            let ts = scan_spec(s, e, sc)->Some_0.0;
            if let Ok(tag) = r {
                let t = TokenV {
                    tag,
                    lexeme: s.subrange(q.offset as int, e.offset as int),
                    line: e.line,
                    column: q.column,
                };
                assert(ts0 == seq![t] + ts);
                assert forall|k: int| 0 <= k < ts0.len() implies (line_symbol_tag(#[trigger] ts0[k].lexeme) matches Some(
                    x,
                ) ==> ts0[k].tag == x) by {
                    if k > 0 {
                        assert(ts0[k] == ts[k - 1]);
                    }
                }
            }
        }
    } else {
        assert(ts0[0].lexeme.len() == 0);
    }
}

/// The kind of token of each reserved word, numbered as `reserved_word`.
pub open spec fn line_reserved_tag(k: int) -> TokenTag {
    if k == 0 {
        TokenTag::And
    } else
    if k == 1 {
        TokenTag::Class
    } else
    if k == 2 {
        TokenTag::Else
    } else
    if k == 3 {
        TokenTag::False
    } else
    if k == 4 {
        TokenTag::For
    } else
    if k == 5 {
        TokenTag::Fun
    } else
    if k == 6 {
        TokenTag::If
    } else
    if k == 7 {
        TokenTag::Nil
    } else
    if k == 8 {
        TokenTag::Or
    } else
    if k == 9 {
        TokenTag::Print
    } else
    if k == 10 {
        TokenTag::Return
    } else
    if k == 11 {
        TokenTag::Super
    } else
    if k == 12 {
        TokenTag::This
    } else
    if k == 13 {
        TokenTag::True
    } else
    if k == 14 {
        TokenTag::Var
    } else {
        TokenTag::While
    }
}

proof fn lemma_line_reserved(k: int)
    requires
        0 <= k < 16,
    ensures
        keyword_tag(reserved_word(k)) == line_reserved_tag(k),
        reserved_word(k).len() >= 1,
        forall|m: int| 0 <= m < reserved_word(k).len() ==> is_alpha(#[trigger] reserved_word(k)[m]),
{
    reveal_strlit("and");
    reveal_strlit("class");
    reveal_strlit("else");
    reveal_strlit("false");
    reveal_strlit("for");
    reveal_strlit("fun");
    reveal_strlit("if");
    reveal_strlit("nil");
    reveal_strlit("or");
    reveal_strlit("print");
    reveal_strlit("return");
    reveal_strlit("super");
    reveal_strlit("this");
    reveal_strlit("true");
    reveal_strlit("var");
    reveal_strlit("while");
    if k == 0 {
        assert(reserved_word(k) == seq!['a', 'n', 'd']);
    }
    if k == 1 {
        assert("class"@[0] != "and"@[0]);
        assert(reserved_word(k) == seq!['c', 'l', 'a', 's', 's']);
    }
    if k == 2 {
        assert("else"@[0] != "and"@[0]);
        assert("else"@[0] != "class"@[0]);
        assert(reserved_word(k) == seq!['e', 'l', 's', 'e']);
    }
    if k == 3 {
        assert("false"@[0] != "and"@[0]);
        assert("false"@[0] != "class"@[0]);
        assert("false"@[0] != "else"@[0]);
        assert(reserved_word(k) == seq!['f', 'a', 'l', 's', 'e']);
    }
    if k == 4 {
        assert("for"@[0] != "and"@[0]);
        assert("for"@[0] != "class"@[0]);
        assert("for"@[0] != "else"@[0]);
        assert("for"@[1] != "false"@[1]);
        assert(reserved_word(k) == seq!['f', 'o', 'r']);
    }
    if k == 5 {
        assert("fun"@[0] != "and"@[0]);
        assert("fun"@[0] != "class"@[0]);
        assert("fun"@[0] != "else"@[0]);
        assert("fun"@[1] != "false"@[1]);
        assert("fun"@[1] != "for"@[1]);
        assert(reserved_word(k) == seq!['f', 'u', 'n']);
    }
    if k == 6 {
        assert("if"@[0] != "and"@[0]);
        assert("if"@[0] != "class"@[0]);
        assert("if"@[0] != "else"@[0]);
        assert("if"@[0] != "false"@[0]);
        assert("if"@[0] != "for"@[0]);
        assert("if"@[0] != "fun"@[0]);
        assert(reserved_word(k) == seq!['i', 'f']);
    }
    if k == 7 {
        assert("nil"@[0] != "and"@[0]);
        assert("nil"@[0] != "class"@[0]);
        assert("nil"@[0] != "else"@[0]);
        assert("nil"@[0] != "false"@[0]);
        assert("nil"@[0] != "for"@[0]);
        assert("nil"@[0] != "fun"@[0]);
        assert("nil"@[0] != "if"@[0]);
        assert(reserved_word(k) == seq!['n', 'i', 'l']);
    }
    if k == 8 {
        assert("or"@[0] != "and"@[0]);
        assert("or"@[0] != "class"@[0]);
        assert("or"@[0] != "else"@[0]);
        assert("or"@[0] != "false"@[0]);
        assert("or"@[0] != "for"@[0]);
        assert("or"@[0] != "fun"@[0]);
        assert("or"@[0] != "if"@[0]);
        assert("or"@[0] != "nil"@[0]);
        assert(reserved_word(k) == seq!['o', 'r']);
    }
    if k == 9 {
        assert("print"@[0] != "and"@[0]);
        assert("print"@[0] != "class"@[0]);
        assert("print"@[0] != "else"@[0]);
        assert("print"@[0] != "false"@[0]);
        assert("print"@[0] != "for"@[0]);
        assert("print"@[0] != "fun"@[0]);
        assert("print"@[0] != "if"@[0]);
        assert("print"@[0] != "nil"@[0]);
        assert("print"@[0] != "or"@[0]);
        assert(reserved_word(k) == seq!['p', 'r', 'i', 'n', 't']);
    }
    if k == 10 {
        assert("return"@[0] != "and"@[0]);
        assert("return"@[0] != "class"@[0]);
        assert("return"@[0] != "else"@[0]);
        assert("return"@[0] != "false"@[0]);
        assert("return"@[0] != "for"@[0]);
        assert("return"@[0] != "fun"@[0]);
        assert("return"@[0] != "if"@[0]);
        assert("return"@[0] != "nil"@[0]);
        assert("return"@[0] != "or"@[0]);
        assert("return"@[0] != "print"@[0]);
        assert(reserved_word(k) == seq!['r', 'e', 't', 'u', 'r', 'n']);
    }
    if k == 11 {
        assert("super"@[0] != "and"@[0]);
        assert("super"@[0] != "class"@[0]);
        assert("super"@[0] != "else"@[0]);
        assert("super"@[0] != "false"@[0]);
        assert("super"@[0] != "for"@[0]);
        assert("super"@[0] != "fun"@[0]);
        assert("super"@[0] != "if"@[0]);
        assert("super"@[0] != "nil"@[0]);
        assert("super"@[0] != "or"@[0]);
        assert("super"@[0] != "print"@[0]);
        assert("super"@[0] != "return"@[0]);
        assert(reserved_word(k) == seq!['s', 'u', 'p', 'e', 'r']);
    }
    if k == 12 {
        assert("this"@[0] != "and"@[0]);
        assert("this"@[0] != "class"@[0]);
        assert("this"@[0] != "else"@[0]);
        assert("this"@[0] != "false"@[0]);
        assert("this"@[0] != "for"@[0]);
        assert("this"@[0] != "fun"@[0]);
        assert("this"@[0] != "if"@[0]);
        assert("this"@[0] != "nil"@[0]);
        assert("this"@[0] != "or"@[0]);
        assert("this"@[0] != "print"@[0]);
        assert("this"@[0] != "return"@[0]);
        assert("this"@[0] != "super"@[0]);
        assert(reserved_word(k) == seq!['t', 'h', 'i', 's']);
    }
    if k == 13 {
        assert("true"@[0] != "and"@[0]);
        assert("true"@[0] != "class"@[0]);
        assert("true"@[0] != "else"@[0]);
        assert("true"@[0] != "false"@[0]);
        assert("true"@[0] != "for"@[0]);
        assert("true"@[0] != "fun"@[0]);
        assert("true"@[0] != "if"@[0]);
        assert("true"@[0] != "nil"@[0]);
        assert("true"@[0] != "or"@[0]);
        assert("true"@[0] != "print"@[0]);
        assert("true"@[0] != "return"@[0]);
        assert("true"@[0] != "super"@[0]);
        assert("true"@[1] != "this"@[1]);
        assert(reserved_word(k) == seq!['t', 'r', 'u', 'e']);
    }
    if k == 14 {
        assert("var"@[0] != "and"@[0]);
        assert("var"@[0] != "class"@[0]);
        assert("var"@[0] != "else"@[0]);
        assert("var"@[0] != "false"@[0]);
        assert("var"@[0] != "for"@[0]);
        assert("var"@[0] != "fun"@[0]);
        assert("var"@[0] != "if"@[0]);
        assert("var"@[0] != "nil"@[0]);
        assert("var"@[0] != "or"@[0]);
        assert("var"@[0] != "print"@[0]);
        assert("var"@[0] != "return"@[0]);
        assert("var"@[0] != "super"@[0]);
        assert("var"@[0] != "this"@[0]);
        assert("var"@[0] != "true"@[0]);
        assert(reserved_word(k) == seq!['v', 'a', 'r']);
    }
    if k == 15 {
        assert("while"@[0] != "and"@[0]);
        assert("while"@[0] != "class"@[0]);
        assert("while"@[0] != "else"@[0]);
        assert("while"@[0] != "false"@[0]);
        assert("while"@[0] != "for"@[0]);
        assert("while"@[0] != "fun"@[0]);
        assert("while"@[0] != "if"@[0]);
        assert("while"@[0] != "nil"@[0]);
        assert("while"@[0] != "or"@[0]);
        assert("while"@[0] != "print"@[0]);
        assert("while"@[0] != "return"@[0]);
        assert("while"@[0] != "super"@[0]);
        assert("while"@[0] != "this"@[0]);
        assert("while"@[0] != "true"@[0]);
        assert("while"@[0] != "var"@[0]);
        assert(reserved_word(k) == seq!['w', 'h', 'i', 'l', 'e']);
    }
}

/// Each reserved word, standing where a token starts and not followed by
/// a letter or a digit, is read by this scanner as one token of its own
/// kind (where the scanner reads the text to its end).
pub proof fn law_line_reserved_words(s: Seq<char>, p: DocumentPosition, start_column: usize, k: int)
    requires
        scannable(s),
        pos_ok(s, p),
        0 <= k < 16,
        p.offset + reserved_word(k).len() <= s.len(),
        s.subrange(p.offset as int, p.offset + reserved_word(k).len()) == reserved_word(k),
        p.offset + reserved_word(k).len() == s.len() || !word_char(s[p.offset + reserved_word(k).len()]),
        scan_spec(s, p, start_column) is Some,
    ensures
        ({
            let ts = scan_spec(s, p, start_column)->Some_0.0;
            &&& ts.len() >= 1
            &&& ts[0].tag == line_reserved_tag(k)
            &&& ts[0].lexeme == reserved_word(k)
        }),
{
    let w = reserved_word(k);
    let o = p.offset as int;
    let n = w.len() as int;
    lemma_line_reserved(k);
    assert forall|m: int| 0 <= m < n implies s[o + m] == #[trigger] w[m] by {
        assert(s.subrange(o, o + n)[m] == s[o + m]);
    }
    assert(is_alpha(w[0]));
    let p1 = adv(p);
    assert forall|m: int| o + 1 <= m < o + n implies is_alnum(#[trigger] s[m]) by {
        assert(s[m] == w[m - o]);
        assert(is_alpha(w[m - o]));
    }
    crate::parse::lex::scan::lemma_alnum_end_at(s, p1, o + n);
    lemma_scan_token(s, p);
    assert(ws_end(s, p) == p);
    assert(s.subrange(o, alnum_end(s, p1).offset as int) == w);
}

} // verus!
