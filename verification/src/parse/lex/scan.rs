use vstd::prelude::*;
use vstd::string::StringSliceAdditionalSpecFns;

use crate::format::pretty::{is_whitespace, is_ws};
use crate::parse::lex::err::{lex_errs_view, LexErr, LexErrTag, LexErrV};
use crate::parse::position::{adv, nl, start_pos, DocumentPosition};
use crate::parse::token::{eof_spec, tokens_view, Token, TokenTag, TokenV};

verus! {

broadcast use vstd::string::group_string_axioms;

/// An ASCII decimal digit (what `char::is_numeric` accepts among ASCII characters).
pub open spec fn is_digit(c: char) -> bool {
    '0' <= c <= '9'
}

/// An ASCII letter (what `char::is_alphabetic` accepts among ASCII characters).
pub open spec fn is_alpha(c: char) -> bool {
    ('a' <= c <= 'z') || ('A' <= c <= 'Z')
}

pub open spec fn is_alnum(c: char) -> bool {
    is_digit(c) || is_alpha(c)
}

pub fn is_numeric(c: char) -> (b: bool)
    ensures
        b == is_digit(c),
{
    '0' <= c && c <= '9'
}

pub fn is_alphabetic(c: char) -> (b: bool)
    ensures
        b == is_alpha(c),
{
    ('a' <= c && c <= 'z') || ('A' <= c && c <= 'Z')
}

pub fn is_alphanumeric(c: char) -> (b: bool)
    ensures
        b == is_alnum(c),
{
    is_numeric(c) || is_alphabetic(c)
}

/// The character at `off`, or `'\0'` past the end.
pub open spec fn peek_at(s: Seq<char>, off: int) -> char {
    if 0 <= off < s.len() {
        s[off]
    } else {
        '\0'
    }
}

pub open spec fn at_end(s: Seq<char>, p: DocumentPosition) -> bool {
    p.offset >= s.len()
}

/// Positions that the scanner can hold without overflow.
pub open spec fn pos_ok(s: Seq<char>, p: DocumentPosition) -> bool {
    &&& p.offset <= s.len()
    &&& 1 <= p.column <= p.offset + 1
    &&& 1 <= p.line <= p.offset + 1
}

/// The position after the character at `p`: past a newline, the first
/// column of the next line; past any other character, the next column.
pub open spec fn step(s: Seq<char>, p: DocumentPosition) -> DocumentPosition {
    if s[p.offset as int] == '\n' {
        nl(adv(p))
    } else {
        adv(p)
    }
}

/// Where the white space from `p` on ends.
pub open spec fn ws_end(s: Seq<char>, p: DocumentPosition) -> DocumentPosition
    decreases s.len() - p.offset when s.len() < usize::MAX
{
    if at_end(s, p) || !is_ws(s[p.offset as int]) {
        p
    } else {
        ws_end(s, step(s, p))
    }
}

/// Where a string literal whose opening quote ends at `p` stops: at its
/// closing quote, or at the end. A backslash escapes the next character.
pub open spec fn string_end(s: Seq<char>, p: DocumentPosition) -> DocumentPosition
    decreases s.len() - p.offset when s.len() < usize::MAX
{
    if at_end(s, p) || s[p.offset as int] == '"' {
        p
    } else if s[p.offset as int] == '\\' {
        if at_end(s, adv(p)) {
            adv(p)
        } else {
            string_end(s, step(s, adv(p)))
        }
    } else {
        string_end(s, step(s, p))
    }
}

/// Where a line comment stops: before the newline, or at the end.
pub open spec fn line_comment_end(s: Seq<char>, p: DocumentPosition) -> DocumentPosition
    decreases s.len() - p.offset when s.len() < usize::MAX
{
    if at_end(s, p) || s[p.offset as int] == '\n' {
        p
    } else {
        line_comment_end(s, adv(p))
    }
}

/// Where a block comment stops: before the `*/` that closes it, nested
/// `/*` opening further levels, or at the end.
pub open spec fn block_comment_end(s: Seq<char>, p: DocumentPosition, depth: nat) -> DocumentPosition
    decreases s.len() - p.offset when s.len() < usize::MAX
{
    if at_end(s, p) {
        p
    } else {
        let c = s[p.offset as int];
        let n = peek_at(s, p.offset + 1);
        if c == '*' && n == '/' && depth == 0 {
            p
        } else {
            let d = if c == '*' && n == '/' {
                (depth - 1) as nat
            } else if c == '/' && n == '*' {
                depth + 1
            } else {
                depth
            };
            block_comment_end(s, step(s, p), d)
        }
    }
}

/// Where a run of characters of a class stops.
pub open spec fn digits_end(s: Seq<char>, p: DocumentPosition) -> DocumentPosition
    decreases s.len() - p.offset when s.len() < usize::MAX
{
    if at_end(s, p) || !is_digit(s[p.offset as int]) {
        p
    } else {
        digits_end(s, adv(p))
    }
}

pub open spec fn alnum_end(s: Seq<char>, p: DocumentPosition) -> DocumentPosition
    decreases s.len() - p.offset when s.len() < usize::MAX
{
    if at_end(s, p) || !is_alnum(s[p.offset as int]) {
        p
    } else {
        alnum_end(s, adv(p))
    }
}

/// Where a number whose first digit ends at `p` stops: its digits, then a
/// dot and further digits where a digit follows the dot.
pub open spec fn number_end(s: Seq<char>, p: DocumentPosition) -> DocumentPosition {
    let q = digits_end(s, p);
    if peek_at(s, q.offset as int) == '.' && is_digit(peek_at(s, q.offset + 1)) {
        digits_end(s, adv(q))
    } else {
        q
    }
}

/// The characters from `a` up to `b` (excluded) are digits.
pub open spec fn all_digits(v: Seq<char>, a: int, b: int) -> bool {
    forall|m: int| a <= m < b ==> is_digit(#[trigger] v[m])
}

/// The kind of a token whose text is a sign of the language: each of the
/// one-character signs, and the two-character comparisons ending in `=`.
pub open spec fn symbol_tag(l: Seq<char>) -> Option<TokenTag> {
    if l.len() == 1 {
        let c = l[0];
        if c == '(' {
            Some(TokenTag::LeftParen)
        } else if c == ')' {
            Some(TokenTag::RightParen)
        } else if c == '{' {
            Some(TokenTag::LeftBrace)
        } else if c == '}' {
            Some(TokenTag::RightBrace)
        } else if c == ',' {
            Some(TokenTag::Comma)
        } else if c == '.' {
            Some(TokenTag::Dot)
        } else if c == '-' {
            Some(TokenTag::Minus)
        } else if c == '+' {
            Some(TokenTag::Plus)
        } else if c == ';' {
            Some(TokenTag::SemiColon)
        } else if c == '/' {
            Some(TokenTag::Slash)
        } else if c == '*' {
            Some(TokenTag::Star)
        } else if c == '!' {
            Some(TokenTag::Bang)
        } else if c == '=' {
            Some(TokenTag::Equal)
        } else if c == '<' {
            Some(TokenTag::Less)
        } else if c == '>' {
            Some(TokenTag::Greater)
        } else {
            None
        }
    } else if l.len() == 2 && l[1] == '=' {
        if l[0] == '!' {
            Some(TokenTag::BangEqual)
        } else if l[0] == '=' {
            Some(TokenTag::EqualEqual)
        } else if l[0] == '<' {
            Some(TokenTag::LessEqual)
        } else if l[0] == '>' {
            Some(TokenTag::GreaterEqual)
        } else {
            None
        }
    } else {
        None
    }
}

/// A decimal digit or an ASCII letter, as `char` ranges.
pub open spec fn word_char(c: char) -> bool {
    ('0' <= c <= '9') || ('a' <= c <= 'z') || ('A' <= c <= 'Z')
}

/// The text of a number token: digits, then a dot and digits where a
/// fraction follows.
pub open spec fn is_num_lex(v: Seq<char>) -> bool {
    exists|k: int|
        #![trigger all_digits(v, 0, k)]
        1 <= k <= v.len() && all_digits(v, 0, k) && (k == v.len() || (v[k] == '.' && k + 1 < v.len()
            && all_digits(v, k + 1, v.len() as int)))
}

/// The offset where a string body read from offset `k` stops: at a quote,
/// past a backslash and the character it escapes, or at the end.
pub open spec fn str_stop(s: Seq<char>, k: int) -> int
    decreases s.len() - k,
{
    if k < 0 || k >= s.len() || s[k] == '"' {
        k
    } else if s[k] == '\\' {
        if k + 1 >= s.len() {
            k + 1
        } else {
            str_stop(s, k + 2)
        }
    } else {
        str_stop(s, k + 1)
    }
}

/// The text of a string token: a quote, a body in which a backslash
/// escapes the next character, and the first unescaped quote.
pub open spec fn is_str_lex(v: Seq<char>) -> bool {
    &&& v.len() >= 2
    &&& v[0] == '"'
    &&& v[v.len() - 1] == '"'
    &&& str_stop(v, 1) == v.len() - 1
}

/// The tag of a word: its keyword, or `Identifier`.
pub open spec fn keyword_tag(w: Seq<char>) -> TokenTag {
    if w == "and"@ {
        TokenTag::And
    } else if w == "class"@ {
        TokenTag::Class
    } else if w == "else"@ {
        TokenTag::Else
    } else if w == "false"@ {
        TokenTag::False
    } else if w == "for"@ {
        TokenTag::For
    } else if w == "fun"@ {
        TokenTag::Fun
    } else if w == "if"@ {
        TokenTag::If
    } else if w == "nil"@ {
        TokenTag::Nil
    } else if w == "or"@ {
        TokenTag::Or
    } else if w == "print"@ {
        TokenTag::Print
    } else if w == "return"@ {
        TokenTag::Return
    } else if w == "super"@ {
        TokenTag::Super
    } else if w == "this"@ {
        TokenTag::This
    } else if w == "true"@ {
        TokenTag::True
    } else if w == "var"@ {
        TokenTag::Var
    } else if w == "while"@ {
        TokenTag::While
    } else {
        TokenTag::Identifier
    }
}

/// A one-character token, or its two-character form where `=` follows.
pub open spec fn with_equal(s: Seq<char>, p1: DocumentPosition, one: TokenTag, two: TokenTag) -> (Result<TokenTag, LexErrTag>, DocumentPosition) {
    if peek_at(s, p1.offset as int) == '=' {
        (Ok(two), adv(p1))
    } else {
        (Ok(one), p1)
    }
}

/// The token (or error) that starts at `p`, a non-white-space character,
/// and the position where it ends.
pub open spec fn scan_token_spec(s: Seq<char>, p: DocumentPosition) -> (Result<TokenTag, LexErrTag>, DocumentPosition) {
    let c = s[p.offset as int];
    let p1 = adv(p);
    if c == '(' {
        (Ok(TokenTag::LeftParen), p1)
    } else if c == ')' {
        (Ok(TokenTag::RightParen), p1)
    } else if c == '{' {
        (Ok(TokenTag::LeftBrace), p1)
    } else if c == '}' {
        (Ok(TokenTag::RightBrace), p1)
    } else if c == ',' {
        (Ok(TokenTag::Comma), p1)
    } else if c == '.' {
        (Ok(TokenTag::Dot), p1)
    } else if c == '-' {
        (Ok(TokenTag::Minus), p1)
    } else if c == '+' {
        (Ok(TokenTag::Plus), p1)
    } else if c == ';' {
        (Ok(TokenTag::SemiColon), p1)
    } else if c == '*' {
        (Ok(TokenTag::Star), p1)
    } else if c == '!' {
        with_equal(s, p1, TokenTag::Bang, TokenTag::BangEqual)
    } else if c == '=' {
        with_equal(s, p1, TokenTag::Equal, TokenTag::EqualEqual)
    } else if c == '<' {
        with_equal(s, p1, TokenTag::Less, TokenTag::LessEqual)
    } else if c == '>' {
        with_equal(s, p1, TokenTag::Greater, TokenTag::GreaterEqual)
    } else if c == '/' {
        if peek_at(s, p1.offset as int) == '/' {
            (Ok(TokenTag::Comment), line_comment_end(s, adv(p1)))
        } else if peek_at(s, p1.offset as int) == '*' {
            let q = block_comment_end(s, adv(p1), 0);
            if at_end(s, q) {
                (Err(LexErrTag::UnterminatedComment), q)
            } else {
                (Ok(TokenTag::InlineComment), adv(adv(q)))
            }
        } else {
            (Ok(TokenTag::Slash), p1)
        }
    } else if c == '"' {
        let q = string_end(s, p1);
        if at_end(s, q) {
            (Err(LexErrTag::UnterminatedString), q)
        } else {
            (Ok(TokenTag::String), adv(q))
        }
    } else if is_digit(c) {
        (Ok(TokenTag::Number), number_end(s, p1))
    } else if is_alpha(c) {
        let q = alnum_end(s, p1);
        (Ok(keyword_tag(s.subrange(p.offset as int, q.offset as int))), q)
    } else {
        (Err(LexErrTag::UnexpectedCharacter), p1)
    }
}


pub open spec fn moves_on(s: Seq<char>, p: DocumentPosition, q: DocumentPosition) -> bool {
    pos_ok(s, q) && p.offset <= q.offset
}

pub proof fn lemma_ws_end(s: Seq<char>, p: DocumentPosition)
    requires
        s.len() < usize::MAX,
        pos_ok(s, p),
    ensures
        moves_on(s, p, ws_end(s, p)),
        !at_end(s, ws_end(s, p)) ==> !is_ws(s[ws_end(s, p).offset as int]),
    decreases s.len() - p.offset,
{
    if !(at_end(s, p) || !is_ws(s[p.offset as int])) {
        lemma_ws_end(s, step(s, p));
    }
}

pub proof fn lemma_string_end(s: Seq<char>, p: DocumentPosition)
    requires
        s.len() < usize::MAX,
        pos_ok(s, p),
    ensures
        moves_on(s, p, string_end(s, p)),
        !at_end(s, string_end(s, p)) ==> s[string_end(s, p).offset as int] == '"',
    decreases s.len() - p.offset,
{
    if !(at_end(s, p) || s[p.offset as int] == '"') {
        if s[p.offset as int] == '\\' {
            if !at_end(s, adv(p)) {
                lemma_string_end(s, step(s, adv(p)));
            }
        } else {
            lemma_string_end(s, step(s, p));
        }
    }
}

pub proof fn lemma_line_comment_end(s: Seq<char>, p: DocumentPosition)
    requires
        s.len() < usize::MAX,
        pos_ok(s, p),
    ensures
        moves_on(s, p, line_comment_end(s, p)),
    decreases s.len() - p.offset,
{
    if !(at_end(s, p) || s[p.offset as int] == '\n') {
        lemma_line_comment_end(s, adv(p));
    }
}

pub proof fn lemma_block_comment_end(s: Seq<char>, p: DocumentPosition, depth: nat)
    requires
        s.len() < usize::MAX,
        pos_ok(s, p),
    ensures
        moves_on(s, p, block_comment_end(s, p, depth)),
        !at_end(s, block_comment_end(s, p, depth)) ==> {
            let q = block_comment_end(s, p, depth);
            &&& s[q.offset as int] == '*'
            &&& q.offset + 1 < s.len()
            &&& s[q.offset + 1] == '/'
        },
    decreases s.len() - p.offset,
{
    if !at_end(s, p) {
        let c = s[p.offset as int];
        let n = peek_at(s, p.offset + 1);
        if !(c == '*' && n == '/' && depth == 0) {
            let d = if c == '*' && n == '/' {
                (depth - 1) as nat
            } else if c == '/' && n == '*' {
                depth + 1
            } else {
                depth
            };
            lemma_block_comment_end(s, step(s, p), d);
        }
    }
}

pub proof fn lemma_digits_end(s: Seq<char>, p: DocumentPosition)
    requires
        s.len() < usize::MAX,
        pos_ok(s, p),
    ensures
        moves_on(s, p, digits_end(s, p)),
    decreases s.len() - p.offset,
{
    if !(at_end(s, p) || !is_digit(s[p.offset as int])) {
        lemma_digits_end(s, adv(p));
    }
}

pub proof fn lemma_alnum_end(s: Seq<char>, p: DocumentPosition)
    requires
        s.len() < usize::MAX,
        pos_ok(s, p),
    ensures
        moves_on(s, p, alnum_end(s, p)),
    decreases s.len() - p.offset,
{
    if !(at_end(s, p) || !is_alnum(s[p.offset as int])) {
        lemma_alnum_end(s, adv(p));
    }
}

/// Every token or error takes at least one character and stays in the text.
pub proof fn lemma_scan_token(s: Seq<char>, p: DocumentPosition)
    requires
        s.len() < usize::MAX,
        pos_ok(s, p),
        p.offset < s.len(),
    ensures
        pos_ok(s, scan_token_spec(s, p).1),
        p.offset < scan_token_spec(s, p).1.offset,
{
    let p1 = adv(p);
    let c = s[p.offset as int];
    assert(pos_ok(s, p1));
    if c == '/' {
        if peek_at(s, p1.offset as int) == '/' {
            lemma_line_comment_end(s, adv(p1));
        } else if peek_at(s, p1.offset as int) == '*' {
            lemma_block_comment_end(s, adv(p1), 0);
        }
    } else if c == '"' {
        lemma_string_end(s, p1);
    } else if is_digit(c) {
        let q = digits_end(s, p1);
        lemma_digits_end(s, p1);
        if peek_at(s, q.offset as int) == '.' && is_digit(peek_at(s, q.offset + 1)) {
            lemma_digits_end(s, adv(q));
        }
    } else if is_alpha(c) {
        lemma_alnum_end(s, p1);
    }
}

/// The tokens and errors of the text from `p` on, the end-of-file token last.
pub open spec fn scan_spec(s: Seq<char>, filename: Seq<char>, p: DocumentPosition) -> (Seq<TokenV>, Seq<LexErrV>)
    decreases s.len() - p.offset when s.len() < usize::MAX && pos_ok(s, p)
{
    if at_end(s, p) {
        (seq![eof_spec(p)], Seq::empty())
    } else {
        let q = ws_end(s, p);
        proof {
            lemma_ws_end(s, p);
        }
        if at_end(s, q) {
            (seq![eof_spec(q)], Seq::empty())
        } else {
            let (r, e) = scan_token_spec(s, q);
            proof {
                lemma_scan_token(s, q);
            }
            let (ts, es) = scan_spec(s, filename, e);
            match r {
                Ok(tag) => (
                    seq![TokenV { tag, lexeme: s.subrange(q.offset as int, e.offset as int), position: q }]
                        + ts,
                    es,
                ),
                Err(t) => (ts, seq![LexErrV { tag: t, filename, position: q }] + es),
            }
        }
    }
}


pub proof fn lemma_ws_end_idempotent(s: Seq<char>, p: DocumentPosition)
    requires
        s.len() < usize::MAX,
        pos_ok(s, p),
    ensures
        ws_end(s, ws_end(s, p)) == ws_end(s, p),
    decreases s.len() - p.offset,
{
    if !(at_end(s, p) || !is_ws(s[p.offset as int])) {
        lemma_ws_end_idempotent(s, step(s, p));
    }
}

/// Whether two texts are equal.
pub fn str_eq(a: &str, b: &str) -> (r: bool)
    ensures
        r == (a@ == b@),
{
    let n = a.unicode_len();
    if n != b.unicode_len() {
        return false;
    }
    let mut k: usize = 0;
    while k < n
        invariant
            n == a@.len(),
            n == b@.len(),
            k <= n,
            forall|m: int| 0 <= m < k ==> a@[m] == b@[m],
        decreases n - k,
    {
        if a.get_char(k) != b.get_char(k) {
            return false;
        }
        k = k + 1;
    }
    assert(a@ =~= b@);
    true
}

/// The keyword that a word is, or `Identifier`.
pub fn keyword(w: &str) -> (t: TokenTag)
    ensures
        t == keyword_tag(w@),
{
    if str_eq(w, "and") {
        TokenTag::And
    } else if str_eq(w, "class") {
        TokenTag::Class
    } else if str_eq(w, "else") {
        TokenTag::Else
    } else if str_eq(w, "false") {
        TokenTag::False
    } else if str_eq(w, "for") {
        TokenTag::For
    } else if str_eq(w, "fun") {
        TokenTag::Fun
    } else if str_eq(w, "if") {
        TokenTag::If
    } else if str_eq(w, "nil") {
        TokenTag::Nil
    } else if str_eq(w, "or") {
        TokenTag::Or
    } else if str_eq(w, "print") {
        TokenTag::Print
    } else if str_eq(w, "return") {
        TokenTag::Return
    } else if str_eq(w, "super") {
        TokenTag::Super
    } else if str_eq(w, "this") {
        TokenTag::This
    } else if str_eq(w, "true") {
        TokenTag::True
    } else if str_eq(w, "var") {
        TokenTag::Var
    } else if str_eq(w, "while") {
        TokenTag::While
    } else {
        TokenTag::Identifier
    }
}

/// A scanner of Lox source text, from the start of the token being read
/// (`start_position`) to the next character to read (`current_position`).
pub struct Scanner<'a> {
    filename: &'a str,
    content: &'a str,
    start_position: DocumentPosition,
    current_position: DocumentPosition,
}

/// A source text the scanner can read: ASCII (on other text the scanner
/// would confuse byte and character offsets) and shorter than `usize::MAX`.
pub open spec fn scannable(s: Seq<char>) -> bool {
    vstd::utf8::is_ascii_chars(s) && s.len() < usize::MAX
}

/// The result of a token scan as token or error values.
pub open spec fn token_result_matches(
    r: Result<Token, LexErr>,
    spec: Result<TokenTag, LexErrTag>,
    s: Seq<char>,
    filename: Seq<char>,
    start: DocumentPosition,
    end: DocumentPosition,
) -> bool {
    match spec {
        Ok(tag) => r matches Ok(t) && t@ == (TokenV {
            tag,
            lexeme: s.subrange(start.offset as int, end.offset as int),
            position: start,
        }),
        Err(tag) => r matches Err(e) && e@ == (LexErrV { tag, filename, position: start }),
    }
}

impl<'a> Scanner<'a> {
    pub closed spec fn text(&self) -> Seq<char> {
        self.content@
    }

    pub closed spec fn file(&self) -> Seq<char> {
        self.filename@
    }

    pub closed spec fn current(&self) -> DocumentPosition {
        self.current_position
    }

    pub closed spec fn start(&self) -> DocumentPosition {
        self.start_position
    }

    /// The scanner can go on reading without overflow or confusion.
    pub open spec fn ready(&self) -> bool {
        &&& scannable(self.text())
        &&& pos_ok(self.text(), self.current())
        &&& pos_ok(self.text(), self.start())
        &&& self.start().offset <= self.current().offset
    }

    closed spec fn inv(&self) -> bool {
        &&& scannable(self.content@)
        &&& pos_ok(self.content@, self.current_position)
        &&& pos_ok(self.content@, self.start_position)
        &&& self.start_position.offset <= self.current_position.offset
    }

    closed spec fn same_source(&self, other: &Self) -> bool {
        self.content == other.content && self.filename == other.filename
    }

    pub fn new(filename: &'a str, content: &'a str) -> (s: Self)
        ensures
            s.text() == content@,
            s.file() == filename@,
            s.current() == start_pos(),
            s.start() == start_pos(),
    {
        Scanner {
            filename,
            content,
            start_position: DocumentPosition::default(),
            current_position: DocumentPosition::default(),
        }
    }

    proof fn lemma_len(&self)
        requires
            vstd::utf8::is_ascii_chars(self.content@),
        ensures
            self.content.spec_bytes().len() == self.content@.len(),
    {
        vstd::string::is_ascii_spec_bytes(self.content);
    }

    fn newline(&mut self)
        requires
            old(self).inv(),
            old(self).current_position.line <= old(self).current_position.offset,
        ensures
            final(self).inv(),
            final(self).same_source(old(self)),
            final(self).start_position == old(self).start_position,
            final(self).current_position == nl(old(self).current_position),
    {
        self.current_position.newline();
    }

    fn at_end(&self) -> (b: bool)
        requires
            self.inv(),
        ensures
            b == at_end(self.content@, self.current_position),
    {
        proof {
            self.lemma_len();
        }
        self.current_position.offset == self.content.len()
    }

    fn peek(&self) -> (c: char)
        requires
            self.inv(),
        ensures
            c == peek_at(self.content@, self.current_position.offset as int),
    {
        if self.at_end() {
            return '\0';
        }
        self.content.get_char(self.current_position.offset)
    }

    fn peek_next(&self) -> (c: char)
        requires
            self.inv(),
        ensures
            c == peek_at(self.content@, self.current_position.offset + 1),
    {
        proof {
            self.lemma_len();
        }
        if self.current_position.offset + 1 >= self.content.len() {
            return '\0';
        }
        self.content.get_char(self.current_position.offset + 1)
    }

    fn advance(&mut self) -> (c: char)
        requires
            old(self).inv(),
            old(self).current_position.offset < old(self).content@.len(),
        ensures
            final(self).inv(),
            final(self).same_source(old(self)),
            final(self).start_position == old(self).start_position,
            final(self).current_position == adv(old(self).current_position),
            c == old(self).content@[old(self).current_position.offset as int],
    {
        let c = self.content.get_char(self.current_position.offset);
        self.current_position.advance();
        c
    }

    /// Reads one character; a newline starts a new line.
    fn step(&mut self)
        requires
            old(self).inv(),
            old(self).current_position.offset < old(self).content@.len(),
        ensures
            final(self).inv(),
            final(self).same_source(old(self)),
            final(self).start_position == old(self).start_position,
            final(self).current_position == step(old(self).content@, old(self).current_position),
    {
        let c = self.advance();
        if c == '\n' {
            self.newline();
        }
    }

    fn matches(&mut self, expected: char) -> (b: bool)
        requires
            old(self).inv(),
            expected != '\0',
        ensures
            final(self).inv(),
            final(self).same_source(old(self)),
            final(self).start_position == old(self).start_position,
            b == (peek_at(old(self).content@, old(self).current_position.offset as int) == expected),
            final(self).current_position == if b {
                adv(old(self).current_position)
            } else {
                old(self).current_position
            },
    {
        if self.at_end() {
            return false;
        }
        if self.peek() != expected {
            return false;
        }
        self.current_position.advance();
        return true;
    }

    fn mk_token(&mut self, tag: TokenTag) -> (r: Result<Token, LexErr>)
        requires
            old(self).inv(),
        ensures
            final(self).inv(),
            final(self).same_source(old(self)),
            final(self).current_position == old(self).current_position,
            final(self).start_position == old(self).current_position,
            r matches Ok(t) && t@ == (TokenV {
                tag,
                lexeme: old(self).content@.subrange(
                    old(self).start_position.offset as int,
                    old(self).current_position.offset as int,
                ),
                position: old(self).start_position,
            }),
    {
        let lexeme = String::from_str(
            self.content.substring_char(self.start_position.offset, self.current_position.offset),
        );
        let token = Token::new(tag, lexeme, self.start_position);
        self.start_position.set(&self.current_position);
        Ok(token)
    }

    fn mk_err(&self, tag: LexErrTag) -> (r: Result<Token, LexErr>)
        ensures
            r matches Err(e) && e@ == (LexErrV {
                tag,
                filename: self.filename@,
                position: self.start_position,
            }),
    {
        Err(LexErr::new(tag, String::from_str(self.filename), self.start_position))
    }
}


impl<'a> Scanner<'a> {
    /// Reads a string literal whose opening quote has been read.
    fn string(&mut self) -> (r: Result<Token, LexErr>)
        requires
            old(self).inv(),
        ensures
            final(self).inv(),
            final(self).same_source(old(self)),
            final(self).start_position == (if r is Ok {
                final(self).current_position
            } else {
                old(self).start_position
            }),
            ({
                let s = old(self).content@;
                let q = string_end(s, old(self).current_position);
                if at_end(s, q) {
                    &&& final(self).current_position == q
                    &&& token_result_matches(r, Err(LexErrTag::UnterminatedString), s,
                        old(self).filename@, old(self).start_position, q)
                } else {
                    &&& final(self).current_position == adv(q)
                    &&& token_result_matches(r, Ok(TokenTag::String), s, old(self).filename@,
                        old(self).start_position, adv(q))
                }
            }),
    {
        let ghost s = self.content@;
        let ghost target = string_end(s, self.current_position);
        let ghost start = self.start_position;
        loop
            invariant
                self.inv(),
                self.same_source(old(self)),
                self.start_position == start,
                s == self.content@,
                string_end(s, self.current_position) == target,
            ensures
                self.inv(),
                self.same_source(old(self)),
                self.start_position == start,
                self.current_position == target,
            decreases s.len() - self.current_position.offset,
        {
            if !(self.peek() != '"' && !self.at_end()) {
                break;
            }
            if self.peek() == '\\' {
                self.advance();
                if self.at_end() {
                    break;
                }
            }
            self.step();
        }
        if self.at_end() {
            return self.mk_err(LexErrTag::UnterminatedString);
        }
        // The closing ".
        self.advance();
        self.mk_token(TokenTag::String)
    }

    /// Reads a block comment whose opening `/*` has been read.
    fn multiline(&mut self) -> (r: Result<Token, LexErr>)
        requires
            old(self).inv(),
        ensures
            final(self).inv(),
            final(self).same_source(old(self)),
            final(self).start_position == (if r is Ok {
                final(self).current_position
            } else {
                old(self).start_position
            }),
            ({
                let s = old(self).content@;
                let q = block_comment_end(s, old(self).current_position, 0);
                if at_end(s, q) {
                    &&& final(self).current_position == q
                    &&& token_result_matches(r, Err(LexErrTag::UnterminatedComment), s,
                        old(self).filename@, old(self).start_position, q)
                } else {
                    &&& final(self).current_position == adv(adv(q))
                    &&& token_result_matches(r, Ok(TokenTag::InlineComment), s, old(self).filename@,
                        old(self).start_position, adv(adv(q)))
                }
            }),
    {
        let ghost s = self.content@;
        let ghost target = block_comment_end(s, self.current_position, 0);
        let ghost start = self.start_position;
        proof {
            lemma_block_comment_end(s, self.current_position, 0);
        }
        let mut count: usize = 0;
        loop
            invariant
                self.inv(),
                self.same_source(old(self)),
                self.start_position == start,
                s == self.content@,
                count <= self.current_position.offset,
                block_comment_end(s, self.current_position, count as nat) == target,
            ensures
                self.inv(),
                self.same_source(old(self)),
                self.start_position == start,
                self.current_position == target,
            decreases s.len() - self.current_position.offset,
        {
            if self.at_end() {
                break;
            }
            if self.peek() == '*' && self.peek_next() == '/' {
                if count > 0 {
                    count -= 1
                } else {
                    break
                }
            }
            if self.peek() == '/' && self.peek_next() == '*' {
                count += 1;
            }
            self.step();
        }
        proof {
            lemma_block_comment_end(s, old(self).current_position, 0);
        }
        if self.at_end() {
            return self.mk_err(LexErrTag::UnterminatedComment);
        }
        self.advance();
        self.advance();
        self.mk_token(TokenTag::InlineComment)
    }

    /// Reads digits.
    fn digits(&mut self)
        requires
            old(self).inv(),
        ensures
            final(self).inv(),
            final(self).same_source(old(self)),
            final(self).start_position == old(self).start_position,
            final(self).current_position == digits_end(old(self).content@, old(self).current_position),
    {
        let ghost s = self.content@;
        let ghost target = digits_end(s, self.current_position);
        while is_numeric(self.peek())
            invariant
                self.inv(),
                self.same_source(old(self)),
                self.start_position == old(self).start_position,
                s == self.content@,
                digits_end(s, self.current_position) == target,
            decreases s.len() - self.current_position.offset,
        {
            self.advance();
        }
    }

    /// Reads a number whose first digit has been read.
    fn number(&mut self) -> (r: Result<Token, LexErr>)
        requires
            old(self).inv(),
        ensures
            final(self).inv(),
            final(self).same_source(old(self)),
            final(self).start_position == (if r is Ok {
                final(self).current_position
            } else {
                old(self).start_position
            }),
            ({
                let s = old(self).content@;
                let q = number_end(s, old(self).current_position);
                &&& final(self).current_position == q
                &&& token_result_matches(r, Ok(TokenTag::Number), s, old(self).filename@,
                    old(self).start_position, q)
            }),
    {
        self.digits();
        if self.peek() == '.' && is_numeric(self.peek_next()) {
            self.advance();
            self.digits();
        }
        self.mk_token(TokenTag::Number)
    }

    /// Reads a word whose first letter has been read.
    fn identifier(&mut self) -> (r: Result<Token, LexErr>)
        requires
            old(self).inv(),
        ensures
            final(self).inv(),
            final(self).same_source(old(self)),
            final(self).start_position == (if r is Ok {
                final(self).current_position
            } else {
                old(self).start_position
            }),
            ({
                let s = old(self).content@;
                let q = alnum_end(s, old(self).current_position);
                &&& final(self).current_position == q
                &&& token_result_matches(r,
                    Ok(keyword_tag(s.subrange(old(self).start_position.offset as int, q.offset as int))),
                    s, old(self).filename@, old(self).start_position, q)
            }),
    {
        let ghost s = self.content@;
        let ghost target = alnum_end(s, self.current_position);
        while is_alphanumeric(self.peek())
            invariant
                self.inv(),
                self.same_source(old(self)),
                self.start_position == old(self).start_position,
                s == self.content@,
                alnum_end(s, self.current_position) == target,
            decreases s.len() - self.current_position.offset,
        {
            self.advance();
        }
        let tag = keyword(
            self.content.substring_char(self.start_position.offset, self.current_position.offset),
        );
        self.mk_token(tag)
    }

    /// Reads the rest of a line comment.
    fn line_comment(&mut self)
        requires
            old(self).inv(),
        ensures
            final(self).inv(),
            final(self).same_source(old(self)),
            final(self).start_position == old(self).start_position,
            final(self).current_position == line_comment_end(old(self).content@, old(self).current_position),
    {
        let ghost s = self.content@;
        let ghost target = line_comment_end(s, self.current_position);
        while self.peek() != '\n' && !self.at_end()
            invariant
                self.inv(),
                self.same_source(old(self)),
                self.start_position == old(self).start_position,
                s == self.content@,
                line_comment_end(s, self.current_position) == target,
            decreases s.len() - self.current_position.offset,
        {
            self.advance();
        }
    }

    /// A token of two characters where the second is `=`, else of one.
    fn one_or_two(&mut self, one: TokenTag, two: TokenTag) -> (r: Result<Token, LexErr>)
        requires
            old(self).inv(),
        ensures
            final(self).inv(),
            final(self).same_source(old(self)),
            final(self).start_position == (if r is Ok {
                final(self).current_position
            } else {
                old(self).start_position
            }),
            ({
                let s = old(self).content@;
                let (tag, q) = with_equal(s, old(self).current_position, one, two);
                &&& final(self).current_position == q
                &&& token_result_matches(r, tag, s, old(self).filename@, old(self).start_position, q)
            }),
    {
        if self.matches('=') {
            self.mk_token(two)
        } else {
            self.mk_token(one)
        }
    }

    /// Reads one token (or error) starting at a character that is not white space.
    fn scan_token(&mut self) -> (r: Result<Token, LexErr>)
        requires
            old(self).inv(),
            old(self).start_position == old(self).current_position,
            !at_end(old(self).content@, old(self).current_position),
            !is_ws(old(self).content@[old(self).current_position.offset as int]),
        ensures
            final(self).inv(),
            final(self).same_source(old(self)),
            final(self).start_position == (if r is Ok {
                final(self).current_position
            } else {
                old(self).start_position
            }),
            ({
                let s = old(self).content@;
                let p = old(self).current_position;
                let (res, q) = scan_token_spec(s, p);
                &&& final(self).current_position == q
                &&& token_result_matches(r, res, s, old(self).filename@, p, q)
            }),
    {
        let ghost s = self.content@;
        let ghost p = self.current_position;
        proof {
            lemma_scan_token(s, p);
        }
        let c = self.advance();
        if c == '(' {
            self.mk_token(TokenTag::LeftParen)
        } else if c == ')' {
            self.mk_token(TokenTag::RightParen)
        } else if c == '{' {
            self.mk_token(TokenTag::LeftBrace)
        } else if c == '}' {
            self.mk_token(TokenTag::RightBrace)
        } else if c == ',' {
            self.mk_token(TokenTag::Comma)
        } else if c == '.' {
            self.mk_token(TokenTag::Dot)
        } else if c == '-' {
            self.mk_token(TokenTag::Minus)
        } else if c == '+' {
            self.mk_token(TokenTag::Plus)
        } else if c == ';' {
            self.mk_token(TokenTag::SemiColon)
        } else if c == '*' {
            self.mk_token(TokenTag::Star)
        } else if c == '!' {
            self.one_or_two(TokenTag::Bang, TokenTag::BangEqual)
        } else if c == '=' {
            self.one_or_two(TokenTag::Equal, TokenTag::EqualEqual)
        } else if c == '<' {
            self.one_or_two(TokenTag::Less, TokenTag::LessEqual)
        } else if c == '>' {
            self.one_or_two(TokenTag::Greater, TokenTag::GreaterEqual)
        } else if c == '/' {
            if self.matches('/') {
                // A comment goes until the end of the line.
                self.line_comment();
                self.mk_token(TokenTag::Comment)
            } else if self.matches('*') {
                self.multiline()
            } else {
                self.mk_token(TokenTag::Slash)
            }
        } else if c == '"' {
            self.string()
        } else if is_numeric(c) {
            self.number()
        } else if is_alphabetic(c) {
            self.identifier()
        } else {
            self.mk_err(LexErrTag::UnexpectedCharacter)
        }
    }

    /// Skips white space, then starts the next token where it stopped.
    fn eat_whitespace(&mut self)
        requires
            old(self).inv(),
        ensures
            final(self).inv(),
            final(self).same_source(old(self)),
            final(self).current_position == ws_end(old(self).content@, old(self).current_position),
            final(self).start_position == final(self).current_position,
    {
        let ghost s = self.content@;
        let ghost target = ws_end(s, self.current_position);
        while !self.at_end() && is_whitespace(self.peek())
            invariant
                self.inv(),
                self.same_source(old(self)),
                s == self.content@,
                ws_end(s, self.current_position) == target,
            decreases s.len() - self.current_position.offset,
        {
            self.step();
        }
        self.start_position.set(&self.current_position);
    }

    /// The tokens of the text, the end-of-file token last, and the errors
    /// met on the way.
    pub fn scan(&mut self) -> (r: (Vec<Token>, Vec<LexErr>))
        requires
            old(self).ready(),
        ensures
            final(self).text() == old(self).text(),
            final(self).current().offset == old(self).text().len(),
            (tokens_view(r.0@), lex_errs_view(r.1@)) == scan_spec(
                old(self).text(),
                old(self).file(),
                old(self).current(),
            ),
    {
        let ghost s = self.content@;
        let ghost f = self.filename@;
        let ghost total = scan_spec(s, f, self.current_position);
        let mut tokens: Vec<Token> = Vec::new();
        let mut errs: Vec<LexErr> = Vec::new();
        loop
            invariant
                self.inv(),
                s == self.content@,
                f == self.filename@,
                tokens_view(tokens@) + scan_spec(s, f, self.current_position).0 == total.0,
                lex_errs_view(errs@) + scan_spec(s, f, self.current_position).1 == total.1,
            ensures
                self.inv(),
                s == self.content@,
                at_end(s, self.current_position),
                tokens_view(tokens@) + seq![eof_spec(self.current_position)] == total.0,
                lex_errs_view(errs@) == total.1,
            decreases s.len() - self.current_position.offset,
        {
            if self.at_end() {
                assert(lex_errs_view(errs@) + Seq::<LexErrV>::empty() =~= lex_errs_view(errs@));
                break;
            }
            let ghost p = self.current_position;
            self.eat_whitespace();
            proof {
                lemma_ws_end(s, p);
                lemma_ws_end_idempotent(s, p);
            }
            if self.at_end() {
                assert(lex_errs_view(errs@) + Seq::<LexErrV>::empty() =~= lex_errs_view(errs@));
                break;
            }
            let ghost q = self.current_position;
            proof {
                lemma_scan_token(s, q);
            }
            match self.scan_token() {
                Ok(token) => {
                    let ghost t = token@;
                    proof {
                        assert(tokens_view(tokens@.push(token)) =~= tokens_view(tokens@).push(t));
                        assert(tokens_view(tokens@).push(t) + scan_spec(s, f, self.current_position).0
                            =~= tokens_view(tokens@) + (seq![t] + scan_spec(s, f, self.current_position).0));
                    }
                    tokens.push(token);
                },
                Err(e) => {
                    let ghost ev = e@;
                    proof {
                        assert(lex_errs_view(errs@.push(e)) =~= lex_errs_view(errs@).push(ev));
                        assert(lex_errs_view(errs@).push(ev) + scan_spec(s, f, self.current_position).1
                            =~= lex_errs_view(errs@) + (seq![ev] + scan_spec(s, f, self.current_position).1));
                    }
                    errs.push(e);
                },
            }
        }
        let ghost before = tokens@;
        let eof = Token::eof(self.current_position);
        tokens.push(eof);
        assert(tokens_view(tokens@) =~= tokens_view(before).push(eof_spec(self.current_position)));
        (tokens, errs)
    }
}


/// The kinds of token read from a word: keywords and identifiers.
pub open spec fn is_word_tag(tag: TokenTag) -> bool {
    ||| tag == TokenTag::Identifier
    ||| tag == TokenTag::And
    ||| tag == TokenTag::Class
    ||| tag == TokenTag::Else
    ||| tag == TokenTag::False
    ||| tag == TokenTag::For
    ||| tag == TokenTag::Fun
    ||| tag == TokenTag::If
    ||| tag == TokenTag::Nil
    ||| tag == TokenTag::Or
    ||| tag == TokenTag::Print
    ||| tag == TokenTag::Return
    ||| tag == TokenTag::Super
    ||| tag == TokenTag::This
    ||| tag == TokenTag::True
    ||| tag == TokenTag::Var
    ||| tag == TokenTag::While
}

/// What the text of a token of each kind looks like.
pub open spec fn lexeme_fits_tag(tag: TokenTag, l: Seq<char>) -> bool {
    &&& tag == TokenTag::String ==> l.len() >= 2 && l[0] == '"' && l[l.len() - 1] == '"'
    &&& tag == TokenTag::Comment ==> l.len() >= 2 && l[0] == '/' && l[1] == '/'
    &&& tag == TokenTag::InlineComment ==> l.len() >= 4 && l[0] == '/' && l[1] == '*' && l[l.len()
        - 2] == '*' && l[l.len() - 1] == '/'
    &&& tag == TokenTag::Number ==> is_digit(l[0]) && is_num_lex(l)
    &&& tag == TokenTag::String ==> is_str_lex(l)
    &&& tag != TokenTag::Question && tag != TokenTag::Colon
    &&& symbol_tag(l) matches Some(x) ==> tag == x
    &&& is_word_tag(tag) ==> is_alpha(l[0]) && tag == keyword_tag(l)
}

/// The shape of a token list read from `s` from position `p` on.
pub open spec fn well_scanned(s: Seq<char>, p: DocumentPosition, ts: Seq<TokenV>) -> bool {
    &&& ts.len() >= 1
    &&& ts.last().tag == TokenTag::EOF
    &&& ts.last().lexeme.len() == 0
    &&& forall|k: int| 0 <= k < ts.len() ==> p.offset <= #[trigger] ts[k].position.offset
    &&& forall|k: int| 0 <= k < ts.len() - 1 ==> #[trigger] token_in_text(s, ts[k])
    &&& forall|i: int, j: int|
        0 <= i < j < ts.len() ==> #[trigger] token_end(ts[i]) <= #[trigger] ts[j].position.offset
}

/// The offset just after the token's text.
pub open spec fn token_end(t: TokenV) -> int {
    t.position.offset + t.lexeme.len()
}

/// A token other than the end of file: a non-empty piece of the text at
/// its position.
pub open spec fn token_in_text(s: Seq<char>, t: TokenV) -> bool {
    &&& t.tag != TokenTag::EOF
    &&& lexeme_fits_tag(t.tag, t.lexeme)
    &&& t.lexeme.len() >= 1
    &&& token_end(t) <= s.len()
    &&& t.lexeme == s.subrange(t.position.offset as int, token_end(t))
    &&& token_maximal(s, t)
}

/// A word is not followed by a letter or a digit, nor a number by a digit:
/// each is read as far as it goes.
pub open spec fn token_maximal(s: Seq<char>, t: TokenV) -> bool {
    &&& is_word_tag(t.tag) ==> token_end(t) == s.len() || !word_char(s[token_end(t)])
    &&& t.tag == TokenTag::Number ==> token_end(t) == s.len() || !('0' <= s[token_end(t)] <= '9')
}

pub proof fn lemma_digits_end_run(s: Seq<char>, p: DocumentPosition)
    requires
        s.len() < usize::MAX,
        pos_ok(s, p),
    ensures
        all_digits(s, p.offset as int, digits_end(s, p).offset as int),
        at_end(s, digits_end(s, p)) || !is_digit(s[digits_end(s, p).offset as int]),
    decreases s.len() - p.offset,
{
    if !(at_end(s, p) || !is_digit(s[p.offset as int])) {
        lemma_digits_end_run(s, adv(p));
    }
}

/// A run of digits from `p` up to `b`, where no digit follows, is read to `b`.
pub proof fn lemma_digits_end_at(s: Seq<char>, p: DocumentPosition, b: int)
    requires
        s.len() < usize::MAX,
        pos_ok(s, p),
        p.offset <= b <= s.len(),
        all_digits(s, p.offset as int, b),
        b == s.len() || !is_digit(s[b]),
    ensures
        digits_end(s, p).offset == b,
    decreases s.len() - p.offset,
{
    if p.offset < b {
        lemma_digits_end_at(s, adv(p), b);
    }
}

/// A run of letters and digits from `p` up to `b`, where none follows, is
/// read to `b`.
pub proof fn lemma_alnum_end_at(s: Seq<char>, p: DocumentPosition, b: int)
    requires
        s.len() < usize::MAX,
        pos_ok(s, p),
        p.offset <= b <= s.len(),
        forall|m: int| p.offset <= m < b ==> is_alnum(#[trigger] s[m]),
        b == s.len() || !is_alnum(s[b]),
    ensures
        alnum_end(s, p).offset == b,
    decreases s.len() - p.offset,
{
    if p.offset < b {
        lemma_alnum_end_at(s, adv(p), b);
    }
}

pub proof fn lemma_str_stop_ge(s: Seq<char>, k: int)
    requires
        0 <= k,
    ensures
        str_stop(s, k) >= k,
    decreases s.len() - k,
{
    if !(k >= s.len() || s[k] == '"') {
        if s[k] == '\\' {
            if k + 1 < s.len() {
                lemma_str_stop_ge(s, k + 2);
            }
        } else {
            lemma_str_stop_ge(s, k + 1);
        }
    }
}

/// `string_end` stops at the offset that `str_stop` gives.
pub proof fn lemma_string_end_offset(s: Seq<char>, p: DocumentPosition)
    requires
        s.len() < usize::MAX,
        pos_ok(s, p),
    ensures
        string_end(s, p).offset == str_stop(s, p.offset as int),
    decreases s.len() - p.offset,
{
    if !(at_end(s, p) || s[p.offset as int] == '"') {
        if s[p.offset as int] == '\\' {
            if !at_end(s, adv(p)) {
                lemma_string_end_offset(s, step(s, adv(p)));
            }
        } else {
            lemma_string_end_offset(s, step(s, p));
        }
    }
}

/// Where the characters agree, a string body stops at the same place.
pub proof fn lemma_str_stop_local(s1: Seq<char>, s2: Seq<char>, d: int, k: int, t: int)
    requires
        0 <= k <= t < s1.len(),
        s1[t] == '"',
        str_stop(s1, k) == t,
        forall|m: int| k <= m <= t ==> 0 <= m + d < s2.len() && s2[m + d] == #[trigger] s1[m],
    ensures
        str_stop(s2, k + d) == t + d,
    decreases s1.len() - k,
{
    assert(0 <= k + d < s2.len() && s2[k + d] == s1[k]);
    if s1[k] == '"' {
    } else if s1[k] == '\\' {
        if k + 1 >= s1.len() {
        } else {
            lemma_str_stop_ge(s1, k + 2);
            assert(0 <= k + 1 + d < s2.len() && s2[k + 1 + d] == s1[k + 1]);
            lemma_str_stop_local(s1, s2, d, k + 2, t);
            assert(k + d + 2 == k + 2 + d);
        }
    } else {
        lemma_str_stop_local(s1, s2, d, k + 1, t);
    }
}

proof fn lemma_keyword_not_eof(w: Seq<char>)
    ensures
        keyword_tag(w) != TokenTag::EOF,
{
}

proof fn lemma_scan_token_not_eof(s: Seq<char>, p: DocumentPosition)
    requires
        s.len() < usize::MAX,
        pos_ok(s, p),
        p.offset < s.len(),
    ensures
        scan_token_spec(s, p).0 matches Ok(tag) ==> tag != TokenTag::EOF && lexeme_fits_tag(
            tag,
            s.subrange(p.offset as int, scan_token_spec(s, p).1.offset as int),
        ),
{
    let p1 = adv(p);
    let c = s[p.offset as int];
    let (r, e) = scan_token_spec(s, p);
    lemma_scan_token(s, p);
    let l = s.subrange(p.offset as int, e.offset as int);
    assert(l[0] == c);
    if let Ok(tag) = r {
        if c == '/' {
            if peek_at(s, p1.offset as int) == '/' {
                lemma_line_comment_end(s, adv(p1));
                assert(l[1] == s[p.offset + 1]);
            } else if peek_at(s, p1.offset as int) == '*' {
                let q = block_comment_end(s, adv(p1), 0);
                lemma_block_comment_end(s, adv(p1), 0);
                assert(l[1] == s[p.offset + 1]);
                assert(l[l.len() - 2] == s[q.offset as int]);
                assert(l[l.len() - 1] == s[q.offset + 1]);
            }
        } else if c == '"' {
            let q = string_end(s, p1);
            lemma_string_end(s, p1);
            assert(l[l.len() - 1] == s[q.offset as int]);
            lemma_string_end_offset(s, p1);
            let t = q.offset as int;
            let o = p.offset as int;
            assert forall|m: int| o + 1 <= m <= t implies 0 <= m + (-o) < l.len() && l[m + (-o)]
                == #[trigger] s[m] by {
                assert(l[m - o] == s[m]);
            }
            lemma_str_stop_local(s, l, -o, o + 1, t);
            assert(str_stop(l, 1) == l.len() - 1);
        } else if is_digit(c) {
            let o = p.offset as int;
            let q = digits_end(s, p1);
            lemma_digits_end(s, p1);
            lemma_digits_end_run(s, p1);
            let k = q.offset - o;
            if peek_at(s, q.offset as int) == '.' && is_digit(peek_at(s, q.offset + 1)) {
                lemma_digits_end(s, adv(q));
            }
            assert(k <= l.len());
            assert(all_digits(l, 0, k)) by {
                assert forall|m: int| 0 <= m < k implies is_digit(#[trigger] l[m]) by {
                    assert(l[m] == s[o + m]);
                }
            }
            if peek_at(s, q.offset as int) == '.' && is_digit(peek_at(s, q.offset + 1)) {
                lemma_digits_end(s, adv(q));
                lemma_digits_end_run(s, adv(q));
                assert(l[k] == s[q.offset as int]);
                assert(all_digits(l, k + 1, l.len() as int)) by {
                    assert forall|m: int| k + 1 <= m < l.len() implies is_digit(#[trigger] l[m]) by {
                        assert(l[m] == s[o + m]);
                    }
                }
            }
            assert(is_num_lex(l));
        } else if is_alpha(c) {
            let q = alnum_end(s, p1);
            lemma_keyword_not_eof(l);
        }
        assert(lexeme_fits_tag(tag, l));
    }
}

pub proof fn lemma_alnum_end_run(s: Seq<char>, p: DocumentPosition)
    requires
        s.len() < usize::MAX,
        pos_ok(s, p),
    ensures
        at_end(s, alnum_end(s, p)) || !is_alnum(s[alnum_end(s, p).offset as int]),
    decreases s.len() - p.offset,
{
    if !(at_end(s, p) || !is_alnum(s[p.offset as int])) {
        lemma_alnum_end_run(s, adv(p));
    }
}

/// A word or number token read at `p` goes as far as it can.
proof fn lemma_scan_token_maximal(s: Seq<char>, p: DocumentPosition)
    requires
        s.len() < usize::MAX,
        pos_ok(s, p),
        p.offset < s.len(),
    ensures
        scan_token_spec(s, p).0 matches Ok(tag) ==> token_maximal(
            s,
            TokenV {
                tag,
                lexeme: s.subrange(p.offset as int, scan_token_spec(s, p).1.offset as int),
                position: p,
            },
        ),
{
    let p1 = adv(p);
    let c = s[p.offset as int];
    let (r, e) = scan_token_spec(s, p);
    lemma_scan_token(s, p);
    let l = s.subrange(p.offset as int, e.offset as int);
    if let Ok(tag) = r {
        let t = TokenV { tag, lexeme: l, position: p };
        assert(token_end(t) == e.offset);
        if is_digit(c) {
            let q = digits_end(s, p1);
            lemma_digits_end(s, p1);
            lemma_digits_end_run(s, p1);
            if peek_at(s, q.offset as int) == '.' && is_digit(peek_at(s, q.offset + 1)) {
                lemma_digits_end(s, adv(q));
                lemma_digits_end_run(s, adv(q));
            }
        } else if is_alpha(c) {
            lemma_alnum_end(s, p1);
            lemma_alnum_end_run(s, p1);
        } else {
            assert(!is_word_tag(tag) && tag != TokenTag::Number);
        }
    }
}

proof fn lemma_cons_token(s: Seq<char>, p: DocumentPosition, t: TokenV, e: DocumentPosition, ts: Seq<TokenV>)
    requires
        well_scanned(s, e, ts),
        p.offset <= t.position.offset,
        t.position.offset < e.offset <= s.len(),
        t.tag != TokenTag::EOF,
        lexeme_fits_tag(t.tag, t.lexeme),
        t.lexeme == s.subrange(t.position.offset as int, e.offset as int),
        token_maximal(s, t),
    ensures
        well_scanned(s, p, seq![t] + ts),
{
    let all = seq![t] + ts;
    assert(all.last() == ts.last());
    assert forall|k: int| 0 <= k < all.len() implies p.offset <= #[trigger] all[k].position.offset by {
        if k > 0 {
            assert(all[k] == ts[k - 1]);
        }
    }
    assert(token_in_text(s, t));
    assert forall|k: int| 0 <= k < all.len() - 1 implies #[trigger] token_in_text(s, all[k]) by {
        if k > 0 {
            assert(all[k] == ts[k - 1]);
        }
    }
    assert forall|i: int, j: int| 0 <= i < j < all.len() implies #[trigger] token_end(all[i])
        <= #[trigger] all[j].position.offset by {
        assert(all[j] == ts[j - 1]);
        if i > 0 {
            assert(all[i] == ts[i - 1]);
        } else {
            assert(e.offset <= ts[j - 1].position.offset);
        }
    }
}

/// Scanning ends with the end-of-file token and nowhere else; every other
/// token is a non-empty piece of the text, at the position where it stands,
/// and the tokens follow one another without overlapping.
pub proof fn law_scan_tokens(s: Seq<char>, f: Seq<char>, p: DocumentPosition)
    requires
        scannable(s),
        pos_ok(s, p),
    ensures
        well_scanned(s, p, scan_spec(s, f, p).0),
    decreases s.len() - p.offset,
{
    if at_end(s, p) {
    } else {
        let q = ws_end(s, p);
        lemma_ws_end(s, p);
        if at_end(s, q) {
        } else {
            let sp = scan_token_spec(s, q);
            let r = sp.0;
            let e = sp.1;
            lemma_scan_token(s, q);
            lemma_scan_token_not_eof(s, q);
            lemma_scan_token_maximal(s, q);
            law_scan_tokens(s, f, e);
            let ts = scan_spec(s, f, e).0;
            if let Ok(tag) = r {
                let t = TokenV { tag, lexeme: s.subrange(q.offset as int, e.offset as int), position: q };
                lemma_cons_token(s, p, t, e, ts);
            }
        }
    }
}

/// The number of newlines among the first `k` characters.
pub open spec fn newlines_before(s: Seq<char>, k: int) -> nat
    decreases k,
{
    if k <= 0 {
        0
    } else {
        newlines_before(s, k - 1) + if s[k - 1] == '\n' {
            1nat
        } else {
            0nat
        }
    }
}

/// The offset where the line holding offset `k` starts: just after the
/// last newline before `k`, or 0.
pub open spec fn line_start(s: Seq<char>, k: int) -> int
    decreases k,
{
    if k <= 0 {
        0
    } else if s[k - 1] == '\n' {
        k
    } else {
        line_start(s, k - 1)
    }
}

/// The position of offset `k` in the text: its line is one more than the
/// newlines before it, and its column one more than its distance from the
/// start of its line.
pub open spec fn position_of(s: Seq<char>, k: int) -> DocumentPosition {
    DocumentPosition {
        offset: k as usize,
        column: (k - line_start(s, k) + 1) as usize,
        line: (1 + newlines_before(s, k)) as usize,
    }
}

/// A position that stands where it says in the text.
pub open spec fn placed(s: Seq<char>, p: DocumentPosition) -> bool {
    p.offset <= s.len() && p == position_of(s, p.offset as int)
}

pub proof fn lemma_position_bounds(s: Seq<char>, k: int)
    requires
        0 <= k,
    ensures
        0 <= line_start(s, k) <= k,
        newlines_before(s, k) <= k,
    decreases k,
{
    if k > 0 {
        lemma_position_bounds(s, k - 1);
    }
}

pub proof fn lemma_placed_pos_ok(s: Seq<char>, p: DocumentPosition)
    requires
        s.len() < usize::MAX,
        placed(s, p),
    ensures
        pos_ok(s, p),
{
    lemma_position_bounds(s, p.offset as int);
}

/// Reading a character moves a placed position to the next offset's place.
pub proof fn lemma_step_placed(s: Seq<char>, p: DocumentPosition)
    requires
        s.len() < usize::MAX,
        placed(s, p),
        p.offset < s.len(),
    ensures
        placed(s, step(s, p)),
        pos_ok(s, step(s, p)),
        s[p.offset as int] != '\n' ==> adv(p) == step(s, p),
{
    lemma_placed_pos_ok(s, p);
    let k = p.offset as int;
    lemma_position_bounds(s, k);
    lemma_position_bounds(s, k + 1);
    assert(step(s, p) == position_of(s, k + 1));
}

proof fn lemma_ws_end_placed(s: Seq<char>, p: DocumentPosition)
    requires
        s.len() < usize::MAX,
        placed(s, p),
    ensures
        placed(s, ws_end(s, p)),
    decreases s.len() - p.offset,
{
    if !(at_end(s, p) || !is_ws(s[p.offset as int])) {
        lemma_step_placed(s, p);
        lemma_ws_end_placed(s, step(s, p));
    }
}

proof fn lemma_string_end_placed(s: Seq<char>, p: DocumentPosition)
    requires
        s.len() < usize::MAX,
        placed(s, p),
    ensures
        placed(s, string_end(s, p)),
    decreases s.len() - p.offset,
{
    if !(at_end(s, p) || s[p.offset as int] == '"') {
        lemma_step_placed(s, p);
        if s[p.offset as int] == '\\' {
            if !at_end(s, adv(p)) {
                lemma_step_placed(s, adv(p));
                lemma_string_end_placed(s, step(s, adv(p)));
            }
        } else {
            lemma_string_end_placed(s, step(s, p));
        }
    }
}

proof fn lemma_line_comment_end_placed(s: Seq<char>, p: DocumentPosition)
    requires
        s.len() < usize::MAX,
        placed(s, p),
    ensures
        placed(s, line_comment_end(s, p)),
    decreases s.len() - p.offset,
{
    if !(at_end(s, p) || s[p.offset as int] == '\n') {
        lemma_step_placed(s, p);
        lemma_line_comment_end_placed(s, adv(p));
    }
}

proof fn lemma_block_comment_end_placed(s: Seq<char>, p: DocumentPosition, depth: nat)
    requires
        s.len() < usize::MAX,
        placed(s, p),
    ensures
        placed(s, block_comment_end(s, p, depth)),
    decreases s.len() - p.offset,
{
    if !at_end(s, p) {
        let c = s[p.offset as int];
        let n = peek_at(s, p.offset + 1);
        if !(c == '*' && n == '/' && depth == 0) {
            let d = if c == '*' && n == '/' {
                (depth - 1) as nat
            } else if c == '/' && n == '*' {
                depth + 1
            } else {
                depth
            };
            lemma_step_placed(s, p);
            lemma_block_comment_end_placed(s, step(s, p), d);
        }
    }
}

proof fn lemma_digits_end_placed(s: Seq<char>, p: DocumentPosition)
    requires
        s.len() < usize::MAX,
        placed(s, p),
    ensures
        placed(s, digits_end(s, p)),
    decreases s.len() - p.offset,
{
    if !(at_end(s, p) || !is_digit(s[p.offset as int])) {
        lemma_step_placed(s, p);
        lemma_digits_end_placed(s, adv(p));
    }
}

proof fn lemma_alnum_end_placed(s: Seq<char>, p: DocumentPosition)
    requires
        s.len() < usize::MAX,
        placed(s, p),
    ensures
        placed(s, alnum_end(s, p)),
    decreases s.len() - p.offset,
{
    if !(at_end(s, p) || !is_alnum(s[p.offset as int])) {
        lemma_step_placed(s, p);
        lemma_alnum_end_placed(s, adv(p));
    }
}

pub proof fn lemma_scan_token_placed(s: Seq<char>, p: DocumentPosition)
    requires
        s.len() < usize::MAX,
        placed(s, p),
        p.offset < s.len(),
        !is_ws(s[p.offset as int]),
    ensures
        placed(s, scan_token_spec(s, p).1),
{
    let c = s[p.offset as int];
    lemma_placed_pos_ok(s, p);
    lemma_step_placed(s, p);
    let p1 = adv(p);
    if c == '!' || c == '=' || c == '<' || c == '>' {
        if peek_at(s, p1.offset as int) == '=' {
            lemma_step_placed(s, p1);
        }
    } else if c == '/' {
        if peek_at(s, p1.offset as int) == '/' {
            lemma_step_placed(s, p1);
            lemma_line_comment_end_placed(s, adv(p1));
        } else if peek_at(s, p1.offset as int) == '*' {
            lemma_step_placed(s, p1);
            let q = block_comment_end(s, adv(p1), 0);
            lemma_block_comment_end_placed(s, adv(p1), 0);
            lemma_block_comment_end(s, adv(p1), 0);
            if !at_end(s, q) {
                lemma_step_placed(s, q);
                lemma_step_placed(s, adv(q));
            }
        }
    } else if c == '"' {
        let q = string_end(s, p1);
        lemma_string_end_placed(s, p1);
        lemma_string_end(s, p1);
        if !at_end(s, q) {
            lemma_step_placed(s, q);
        }
    } else if is_digit(c) {
        let q = digits_end(s, p1);
        lemma_digits_end_placed(s, p1);
        lemma_digits_end(s, p1);
        if peek_at(s, q.offset as int) == '.' && is_digit(peek_at(s, q.offset + 1)) {
            lemma_step_placed(s, q);
            lemma_digits_end_placed(s, adv(q));
        }
    } else if is_alpha(c) {
        lemma_alnum_end_placed(s, p1);
    }
}

/// Scanning from the start of a text, every token and every error stands
/// at the line and column of its offset: the line is one more than the
/// newlines before it, the column one more than its distance from the
/// start of its line.
pub proof fn law_scan_positions(s: Seq<char>, f: Seq<char>, p: DocumentPosition)
    requires
        scannable(s),
        placed(s, p),
    ensures
        forall|k: int| 0 <= k < scan_spec(s, f, p).0.len() ==> {
            let q = #[trigger] scan_spec(s, f, p).0[k].position;
            q == position_of(s, q.offset as int)
        },
        forall|k: int| 0 <= k < scan_spec(s, f, p).1.len() ==> {
            let q = #[trigger] scan_spec(s, f, p).1[k].position;
            q == position_of(s, q.offset as int)
        },
    decreases s.len() - p.offset,
{
    lemma_placed_pos_ok(s, p);
    let (ts0, es0) = scan_spec(s, f, p);
    if !at_end(s, p) {
        let q = ws_end(s, p);
        lemma_ws_end(s, p);
        lemma_ws_end_placed(s, p);
        if !at_end(s, q) {
            let (r, e) = scan_token_spec(s, q);
            lemma_scan_token(s, q);
            lemma_scan_token_placed(s, q);
            law_scan_positions(s, f, e);
            let (ts, es) = scan_spec(s, f, e);
            match r {
                Ok(tag) => {
                    let t = TokenV { tag, lexeme: s.subrange(q.offset as int, e.offset as int), position: q };
                    assert(ts0 == seq![t] + ts);
                    assert(es0 == es);
                    assert forall|k: int| 0 <= k < ts0.len() implies {
                        let x = #[trigger] ts0[k].position;
                        x == position_of(s, x.offset as int)
                    } by {
                        if k > 0 {
                            assert(ts0[k] == ts[k - 1]);
                        }
                    }
                },
                Err(tg) => {
                    let ev = LexErrV { tag: tg, filename: f, position: q };
                    assert(ts0 == ts);
                    assert(es0 == seq![ev] + es);
                    assert forall|k: int| 0 <= k < es0.len() implies {
                        let x = #[trigger] es0[k].position;
                        x == position_of(s, x.offset as int)
                    } by {
                        if k > 0 {
                            assert(es0[k] == es[k - 1]);
                        }
                    }
                },
            }
        }
    }
}

proof fn lemma_ws_end_skips_ws(s: Seq<char>, p: DocumentPosition)
    requires
        s.len() < usize::MAX,
        pos_ok(s, p),
    ensures
        forall|k: int| p.offset <= k < ws_end(s, p).offset ==> is_ws(#[trigger] s[k]),
    decreases s.len() - p.offset,
{
    if !(at_end(s, p) || !is_ws(s[p.offset as int])) {
        lemma_ws_end_skips_ws(s, step(s, p));
    }
}

/// Offset `k` lies within the text of token `t`.
pub open spec fn covers(t: TokenV, k: int) -> bool {
    t.position.offset <= k < token_end(t)
}

/// Where scanning meets no error, no character other than white space is
/// lost: each lies within the text of some token.
pub proof fn law_scan_keeps_text(s: Seq<char>, f: Seq<char>, p: DocumentPosition)
    requires
        scannable(s),
        pos_ok(s, p),
        scan_spec(s, f, p).1.len() == 0,
    ensures
        forall|k: int|
            p.offset <= k < s.len() && !is_ws(#[trigger] s[k]) ==> exists|j: int|
                0 <= j < scan_spec(s, f, p).0.len() && covers(#[trigger] scan_spec(s, f, p).0[j], k),
    decreases s.len() - p.offset,
{
    let ts0 = scan_spec(s, f, p).0;
    if !at_end(s, p) {
        let q = ws_end(s, p);
        lemma_ws_end(s, p);
        lemma_ws_end_skips_ws(s, p);
        if !at_end(s, q) {
            let (r, e) = scan_token_spec(s, q);
            lemma_scan_token(s, q);
            let ts = scan_spec(s, f, e).0;
            if let Ok(tag) = r {
                law_scan_keeps_text(s, f, e);
                let t = TokenV { tag, lexeme: s.subrange(q.offset as int, e.offset as int), position: q };
                assert(ts0 == seq![t] + ts);
                assert forall|k: int| p.offset <= k < s.len() && !is_ws(#[trigger] s[k]) implies exists|j: int|
                    0 <= j < ts0.len() && covers(#[trigger] ts0[j], k) by {
                    if k < q.offset {
                    } else if k < e.offset {
                        assert(ts0[0] == t);
                        assert(covers(ts0[0], k));
                    } else {
                        let j = choose|j: int| 0 <= j < ts.len() && covers(#[trigger] ts[j], k);
                        assert(ts0[j + 1] == ts[j]);
                        assert(covers(ts0[j + 1], k));
                    }
                }
            }
        }
    }
}

} // verus!
